//! A small association map from commit hashes to indices, viewed as a
//! `Map<Seq<char>, usize>`. The layout engine uses it for lane reservations
//! and the parsers for hash-to-row lookups; keys are kept pairwise distinct,
//! and inserting an existing key overwrites it in place.

use vstd::prelude::*;

use crate::strutil::str_eq;

verus! {

/// The map described by an association list, later pairs winning.
pub open spec fn assoc_view(ps: Seq<(String, usize)>) -> Map<Seq<char>, usize>
    decreases ps.len(),
{
    if ps.len() == 0 {
        Map::<Seq<char>, usize>::empty()
    } else {
        assoc_view(ps.drop_last()).insert(ps.last().0@, ps.last().1)
    }
}

/// Whether the keys of `ps` are pairwise distinct.
pub open spec fn distinct_keys(ps: Seq<(String, usize)>) -> bool {
    forall|i: int, j: int| 0 <= i < j < ps.len() ==> ps[i].0@ != ps[j].0@
}

/// Under distinct keys, `assoc_view` is membership and lookup over the list.
pub proof fn lemma_assoc_view(ps: Seq<(String, usize)>)
    requires
        distinct_keys(ps),
    ensures
        forall|k: Seq<char>|
            #[trigger] assoc_view(ps).contains_key(k) <==> exists|i: int|
                0 <= i < ps.len() && ps[i].0@ == k,
        forall|i: int|
            0 <= i < ps.len() ==> assoc_view(ps).contains_key(#[trigger] ps[i].0@) && assoc_view(
                ps,
            )[ps[i].0@] == ps[i].1,
    decreases ps.len(),
{
    if ps.len() > 0 {
        let head = ps.drop_last();
        assert(distinct_keys(head));
        lemma_assoc_view(head);
        assert(forall|i: int| 0 <= i < head.len() ==> ps[i] == head[i]);
        assert forall|k: Seq<char>|
            #[trigger] assoc_view(ps).contains_key(k) <==> exists|i: int|
                0 <= i < ps.len() && ps[i].0@ == k by {
            if exists|i: int| 0 <= i < ps.len() && ps[i].0@ == k {
                let i = choose|i: int| 0 <= i < ps.len() && ps[i].0@ == k;
                if i < ps.len() - 1 {
                    assert(head[i].0@ == k);
                    assert(assoc_view(head).contains_key(k));
                }
            }
            if assoc_view(ps).contains_key(k) {
                if k == ps.last().0@ {
                    assert(ps[ps.len() - 1].0@ == k);
                } else {
                    assert(assoc_view(head).contains_key(k));
                    let i = choose|i: int| 0 <= i < head.len() && head[i].0@ == k;
                    assert(0 <= i < ps.len() && ps[i].0@ == k);
                }
            }
        }
        assert forall|i: int| 0 <= i < ps.len() implies assoc_view(ps).contains_key(
            #[trigger] ps[i].0@,
        ) && assoc_view(ps)[ps[i].0@] == ps[i].1 by {
            if i < ps.len() - 1 {
                assert(ps[i].0@ != ps.last().0@);
            }
        }
    }
}

/// A mutable map from hash strings to indices.
pub struct ShaMap {
    pairs: Vec<(String, usize)>,
}

impl View for ShaMap {
    type V = Map<Seq<char>, usize>;

    closed spec fn view(&self) -> Map<Seq<char>, usize> {
        assoc_view(self.pairs@)
    }
}

impl ShaMap {
    /// The internal association list holds each key at most once.
    pub closed spec fn wf(&self) -> bool {
        distinct_keys(self.pairs@)
    }

    pub fn new() -> (r: ShaMap)
        ensures
            r.wf(),
            r@ == Map::<Seq<char>, usize>::empty(),
    {
        let r = ShaMap { pairs: Vec::new() };
        proof {
            assert(r.pairs@.len() == 0);
        }
        r
    }

    /// Index of the pair holding key `k`, if any.
    fn position_of(&self, k: &str) -> (r: Option<usize>)
        ensures
            match r {
                Some(i) => i < self.pairs@.len() && self.pairs@[i as int].0@ == k@,
                None => forall|i: int| 0 <= i < self.pairs@.len() ==> self.pairs@[i].0@ != k@,
            },
    {
        let n = self.pairs.len();
        let mut i: usize = 0;
        while i < n
            invariant
                i <= n,
                n == self.pairs@.len(),
                forall|j: int| 0 <= j < i ==> self.pairs@[j].0@ != k@,
            decreases n - i,
        {
            if str_eq(self.pairs[i].0.as_str(), k) {
                return Some(i);
            }
            i += 1;
        }
        None
    }

    /// Look the key up.
    pub fn get(&self, k: &str) -> (r: Option<usize>)
        requires
            self.wf(),
        ensures
            match r {
                Some(v) => self@.contains_key(k@) && self@[k@] == v,
                None => !self@.contains_key(k@),
            },
    {
        proof {
            lemma_assoc_view(self.pairs@);
        }
        match self.position_of(k) {
            Some(i) => Some(self.pairs[i].1),
            None => None,
        }
    }

    /// Whether the key is present.
    pub fn contains(&self, k: &str) -> (r: bool)
        requires
            self.wf(),
        ensures
            r == self@.contains_key(k@),
    {
        self.get(k).is_some()
    }

    /// Bind `k` to `v`, overwriting any existing binding.
    pub fn insert(&mut self, k: &str, v: usize)
        requires
            old(self).wf(),
        ensures
            final(self).wf(),
            final(self)@ == old(self)@.insert(k@, v),
    {
        proof {
            lemma_assoc_view(self.pairs@);
        }
        match self.position_of(k) {
            Some(i) => {
                let ghost old_ps = self.pairs@;
                let key = k.to_owned();
                self.pairs.set(i, (key, v));
                proof {
                    lemma_assoc_update(old_ps, i as int, (key, v));
                }
            },
            None => {
                let ghost old_ps = self.pairs@;
                let key = k.to_owned();
                self.pairs.push((key, v));
                proof {
                    assert(self.pairs@.drop_last() =~= old_ps);
                    assert(distinct_keys(self.pairs@));
                }
            },
        }
    }

    /// Drop the binding for `k`, if any.
    pub fn remove(&mut self, k: &str)
        requires
            old(self).wf(),
        ensures
            final(self).wf(),
            final(self)@ == old(self)@.remove(k@),
    {
        proof {
            lemma_assoc_view(self.pairs@);
        }
        match self.position_of(k) {
            Some(i) => {
                let ghost old_ps = self.pairs@;
                let _ = self.pairs.remove(i);
                proof {
                    lemma_assoc_remove(old_ps, i as int);
                    assert forall|a: int, b: int|
                        0 <= a < b < self.pairs@.len() implies self.pairs@[a].0@
                        != self.pairs@[b].0@ by {
                        let x = if a < i as int {
                            a
                        } else {
                            a + 1
                        };
                        let y = if b < i as int {
                            b
                        } else {
                            b + 1
                        };
                        assert(self.pairs@[a] == old_ps[x]);
                        assert(self.pairs@[b] == old_ps[y]);
                    }
                }
            },
            None => {
                proof {
                    assert(self@ =~= old(self)@.remove(k@));
                }
            },
        }
    }
}

/// Overwriting the pair at `i` with an equal key updates the viewed map.
proof fn lemma_assoc_update(ps: Seq<(String, usize)>, i: int, p: (String, usize))
    requires
        distinct_keys(ps),
        0 <= i < ps.len(),
        ps[i].0@ == p.0@,
    ensures
        distinct_keys(ps.update(i, p)),
        assoc_view(ps.update(i, p)) == assoc_view(ps).insert(p.0@, p.1),
    decreases ps.len(),
{
    lemma_assoc_view(ps);
    let ps2 = ps.update(i, p);
    assert(distinct_keys(ps2));
    lemma_assoc_view(ps2);
    if i == ps.len() - 1 {
        assert(ps2.drop_last() =~= ps.drop_last());
        assert(assoc_view(ps2) =~= assoc_view(ps).insert(p.0@, p.1));
    } else {
        assert(ps2.drop_last() =~= ps.drop_last().update(i, p));
        assert(distinct_keys(ps.drop_last()));
        assert(ps.drop_last()[i] == ps[i]);
        lemma_assoc_update(ps.drop_last(), i, p);
        assert(ps.last().0@ != p.0@);
        assert(ps2.last() == ps.last());
        assert(assoc_view(ps2) =~= assoc_view(ps).insert(p.0@, p.1));
    }
}

/// Removing the pair at `i` removes its key from the viewed map.
proof fn lemma_assoc_remove(ps: Seq<(String, usize)>, i: int)
    requires
        distinct_keys(ps),
        0 <= i < ps.len(),
    ensures
        assoc_view(ps.remove(i)) == assoc_view(ps).remove(ps[i].0@),
    decreases ps.len(),
{
    lemma_assoc_view(ps);
    let ps2 = ps.remove(i);
    if i == ps.len() - 1 {
        assert(ps2 =~= ps.drop_last());
        assert(!assoc_view(ps.drop_last()).contains_key(ps[i].0@)) by {
            assert(distinct_keys(ps.drop_last()));
            lemma_assoc_view(ps.drop_last());
        }
        assert(assoc_view(ps2) =~= assoc_view(ps).remove(ps[i].0@));
    } else {
        assert(ps2.len() == ps.len() - 1);
        assert(ps2.drop_last() =~= ps.drop_last().remove(i));
        assert(distinct_keys(ps.drop_last()));
        assert(ps.drop_last()[i] == ps[i]);
        lemma_assoc_remove(ps.drop_last(), i);
        assert(ps2.last() == ps.last());
        assert(ps.last().0@ != ps[i].0@);
        assert(assoc_view(ps2) == assoc_view(ps.drop_last()).remove(ps[i].0@).insert(
            ps.last().0@,
            ps.last().1,
        ));
        assert(assoc_view(ps2) =~= assoc_view(ps).remove(ps[i].0@));
    }
}

} // verus!
