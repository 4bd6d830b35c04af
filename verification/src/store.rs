//! A registry of computed layouts addressed by opaque handles, and the
//! host-facing operations over it: compute a layout from raw log text and
//! store it, append newly fetched history to a stored layout, filter a
//! stored layout, and free a handle. The caller owns the store and hands it
//! to each call; locking belongs to the host.

use vstd::prelude::*;

use std::collections::HashMap;

use crate::filter::{
    date_filter_spec, field_filter_spec, filter_commits_by_date, filter_commits_by_field,
    filter_seq, pattern_ok,
};
use crate::layout::{compute_layout, spec_compute_layout, views_of};
use crate::log_parser::{parse_log, spec_parse_log};
use crate::types::{
    clone_ref_vec, clone_string_vec, CommitNode, CommitView, LayoutNodeView, LayoutResult,
    LayoutResultView,
};

verus! {

broadcast use vstd::std_specs::hash::group_hash_axioms;

/// A typed failure of a store operation.
#[derive(Debug)]
pub enum StoreError {
    /// The handle names no stored layout.
    InvalidHandle(u32),
    /// The filter pattern does not compile; the message comes from the
    /// pattern engine.
    InvalidPattern(String),
}

/// The registry: issued handles mapped to layouts, and the next handle to
/// issue. Handles are issued from a monotonic counter that skips the
/// sentinel zero when it wraps.
pub struct LayoutStore {
    layouts: HashMap<u32, LayoutResult>,
    next_handle: u32,
}

impl View for LayoutStore {
    type V = Map<u32, LayoutResult>;

    closed spec fn view(&self) -> Map<u32, LayoutResult> {
        self.layouts@
    }
}

impl LayoutStore {
    /// The next handle this store will issue.
    pub closed spec fn next_spec(&self) -> u32 {
        self.next_handle
    }

    /// The issued-handle counter never sits on the sentinel zero.
    pub closed spec fn wf(&self) -> bool {
        self.next_handle != 0
    }

    /// An empty store; the first handle issued is one.
    pub fn new() -> (r: LayoutStore)
        ensures
            r.wf(),
            r@ == Map::<u32, LayoutResult>::empty(),
            r.next_spec() == 1,
    {
        LayoutStore { layouts: HashMap::new(), next_handle: 1 }
    }

    /// Store a layout under the next handle and return the handle, which is
    /// never zero.
    pub fn insert(&mut self, layout: LayoutResult) -> (h: u32)
        requires
            old(self).wf(),
        ensures
            final(self).wf(),
            h == old(self).next_spec(),
            h != 0,
            final(self)@ == old(self)@.insert(h, layout),
            final(self).next_spec() == (if old(self).next_spec() == u32::MAX {
                1u32
            } else {
                (old(self).next_spec() + 1) as u32
            }),
    {
        let handle = self.next_handle;
        self.next_handle = if self.next_handle == u32::MAX {
            1
        } else {
            self.next_handle + 1
        };
        self.layouts.insert(handle, layout);
        handle
    }

    /// Look a handle up.
    pub fn get(&self, handle: u32) -> (r: Option<&LayoutResult>)
        ensures
            match r {
                Some(l) => self@.contains_key(handle) && *l == self@[handle],
                None => !self@.contains_key(handle),
            },
    {
        self.layouts.get(&handle)
    }

    /// Replace the layout a handle names; an unknown handle changes nothing.
    pub fn replace(&mut self, handle: u32, layout: LayoutResult) -> (r: bool)
        ensures
            final(self).wf() == old(self).wf(),
            final(self).next_spec() == old(self).next_spec(),
            r == old(self)@.contains_key(handle),
            r ==> final(self)@ == old(self)@.insert(handle, layout),
            !r ==> final(self)@ == old(self)@,
    {
        if self.layouts.contains_key(&handle) {
            self.layouts.insert(handle, layout);
            true
        } else {
            proof {
                assert(self@ =~= old(self)@);
            }
            false
        }
    }

    /// Drop a handle's entry; reports whether one was there.
    pub fn remove(&mut self, handle: u32) -> (r: bool)
        ensures
            final(self).wf() == old(self).wf(),
            final(self).next_spec() == old(self).next_spec(),
            r == old(self)@.contains_key(handle),
            final(self)@ == old(self)@.remove(handle),
    {
        self.layouts.remove(&handle).is_some()
    }
}

/// Parse raw log text, lay the commits out, store the layout, and hand back
/// the new handle together with the layout.
pub fn compute_graph_layout(store: &mut LayoutStore, raw_log: &[u8]) -> (r: (u32, LayoutResult))
    requires
        old(store).wf(),
    ensures
        final(store).wf(),
        r.1@ == spec_compute_layout(spec_parse_log(raw_log@)),
        r.0 == old(store).next_spec(),
        r.0 != 0,
        final(store)@.dom() == old(store)@.dom().insert(r.0),
        final(store)@[r.0]@ == r.1@,
        forall|k: u32|
            #[trigger] final(store)@.contains_key(k) && k != r.0 ==> old(store)@.contains_key(k)
                && final(store)@[k] == old(store)@[k],
{
    let commits = parse_log(raw_log);
    let layout = compute_layout(commits.as_slice());
    proof {
        assert(views_of(commits@) =~= commits.deep_view());
    }
    let stored = layout.clone();
    let handle = store.insert(stored);
    proof {
        assert(store@.dom() =~= old(store)@.dom().insert(handle));
    }
    (handle, layout)
}

/// The commit a stored row stands for when history is re-laid-out: the
/// fields a layout node retains, the rest left empty.
pub open spec fn rebuilt_commit(nd: LayoutNodeView) -> CommitView {
    CommitView {
        sha: nd.sha,
        short_sha: nd.short_sha,
        parents: nd.parents,
        children: Seq::<Seq<char>>::empty(),
        author_name: nd.author_name,
        author_email: Seq::<char>::empty(),
        author_date: nd.author_date,
        committer_name: Seq::<char>::empty(),
        committer_email: Seq::<char>::empty(),
        commit_date: 0,
        subject: nd.subject,
        refs: nd.refs,
        lane: -1,
        row: -1,
    }
}

/// Whether some stored row carries this hash.
pub open spec fn has_node_sha(nodes: Seq<LayoutNodeView>, sha: Seq<char>) -> bool {
    exists|i: int| 0 <= i < nodes.len() && nodes[i].sha == sha
}

/// What appending raw log text to a stored layout yields: the layout
/// unchanged when the text brings no commit whose hash is new; otherwise the
/// layout recomputed over the stored rows re-read as commits followed by the
/// genuinely new commits.
pub open spec fn spec_append(lv: LayoutResultView, raw: Seq<u8>) -> LayoutResultView {
    let newc = spec_parse_log(raw);
    if newc.len() == 0 {
        lv
    } else {
        let unique = filter_seq(newc, |c: CommitView| !has_node_sha(lv.nodes, c.sha));
        if unique.len() == 0 {
            lv
        } else {
            spec_compute_layout(lv.nodes.map_values(|nd: LayoutNodeView| rebuilt_commit(nd)) + unique)
        }
    }
}

/// Append newly fetched history to a stored layout: parse the text, drop
/// commits already present by hash, re-run the layout over the union, and
/// replace the stored layout. An unknown handle is reported and changes
/// nothing.
pub fn append_to_layout(store: &mut LayoutStore, handle: u32, raw_log: &[u8]) -> (r: Result<
    LayoutResult,
    StoreError,
>)
    requires
        old(store).wf(),
    ensures
        final(store).wf(),
        final(store).next_spec() == old(store).next_spec(),
        r is Ok <==> old(store)@.contains_key(handle),
        r is Err ==> final(store)@ == old(store)@ && r->Err_0 is InvalidHandle,
        r is Ok ==> (r->Ok_0)@ == spec_append(old(store)@[handle]@, raw_log@),
        r is Ok ==> final(store)@.dom() == old(store)@.dom(),
        r is Ok ==> final(store)@[handle]@ == spec_append(old(store)@[handle]@, raw_log@),
        forall|k: u32|
            #[trigger] final(store)@.contains_key(k) && k != handle ==> old(store)@.contains_key(k)
                && final(store)@[k] == old(store)@[k],
{
    let ghost newc = spec_parse_log(raw_log@);
    let new_commits = parse_log(raw_log);
    let existing: LayoutResult = match store.get(handle) {
        Some(l) => l.clone(),
        None => {
            return Err(StoreError::InvalidHandle(handle));
        },
    };
    let ghost lv = old(store)@[handle]@;
    if new_commits.len() == 0 {
        proof {
            assert(newc.len() == new_commits.deep_view().len());
        }
        return Ok(existing);
    }

    // The hashes already present in the stored layout.
    let ghost ndv = lv.nodes;
    let nn = existing.nodes.len();
    let mut existing_shas: Vec<String> = Vec::new();
    let mut i: usize = 0;
    while i < nn
        invariant
            i <= nn,
            nn == existing.nodes@.len(),
            ndv == existing@.nodes,
            forall|s: Seq<char>|
                #[trigger] crate::filter::list_has(existing_shas.deep_view(), s) <==> has_node_sha(
                    ndv.take(i as int),
                    s,
                ),
        decreases nn - i,
    {
        proof {
            assert(existing.nodes@[i as int]@ == ndv[i as int]);
        }
        let ghost before_m = existing_shas.deep_view();
        existing_shas.push(existing.nodes[i].sha.clone());
        proof {
            let pre = ndv.take(i as int);
            let pre1 = ndv.take(i + 1);
            assert(existing_shas.deep_view() =~= before_m.push(ndv[i as int].sha));
            assert(pre1.drop_last() =~= pre);
            assert(pre1.last() == ndv[i as int]);
            assert forall|s: Seq<char>| #[trigger] crate::filter::list_has(
                existing_shas.deep_view(),
                s,
            ) <==> has_node_sha(pre1, s) by {
                assert(forall|j: int| 0 <= j < pre.len() ==> pre1[j] == pre[j]);
                if crate::filter::list_has(existing_shas.deep_view(), s) {
                    if s == ndv[i as int].sha {
                        assert(pre1[i as int] == ndv[i as int]);
                    } else {
                        assert(crate::filter::list_has(before_m, s));
                        let j = choose|j: int| 0 <= j < pre.len() && pre[j].sha == s;
                        assert(pre1[j] == pre[j]);
                    }
                }
                if has_node_sha(pre1, s) {
                    let j = choose|j: int| 0 <= j < pre1.len() && pre1[j].sha == s;
                    if j < i {
                        assert(pre[j] == pre1[j]);
                        assert(crate::filter::list_has(before_m, s));
                        let jj = choose|jj: int| 0 <= jj < before_m.len() && before_m[jj] == s;
                        assert(existing_shas.deep_view()[jj] == s);
                    } else {
                        assert(existing_shas.deep_view().last() == s);
                    }
                }
            }
        }
        i += 1;
    }
    proof {
        assert(ndv.take(nn as int) =~= ndv);
    }

    // Keep only the commits whose hash is genuinely new.
    let ghost ukeep = (|c: CommitView| !has_node_sha(ndv, c.sha));
    let nc = new_commits.len();
    let mut unique_new: Vec<CommitNode> = Vec::new();
    let mut k: usize = 0;
    proof {
        assert(newc == new_commits.deep_view());
        assert(newc.skip(0) =~= newc);
        assert(unique_new.deep_view() + filter_seq(newc, ukeep) =~= filter_seq(newc, ukeep));
    }
    while k < nc
        invariant
            k <= nc,
            nc == new_commits@.len(),
            newc == new_commits.deep_view(),
            ndv == lv.nodes,
            ukeep == (|c: CommitView| !has_node_sha(ndv, c.sha)),
            forall|s: Seq<char>|
                #[trigger] crate::filter::list_has(existing_shas.deep_view(), s) <==> has_node_sha(
                    ndv,
                    s,
                ),
            filter_seq(newc, ukeep) == unique_new.deep_view() + filter_seq(
                newc.skip(k as int),
                ukeep,
            ),
        decreases nc - k,
    {
        let ghost rem = newc.skip(k as int);
        proof {
            assert(new_commits@[k as int]@ == newc[k as int]);
            assert(rem[0] == newc[k as int]);
            assert(rem.skip(1) =~= newc.skip(k + 1));
        }
        let ghost before_u = unique_new.deep_view();
        if !crate::filter::sha_in(&existing_shas, new_commits[k].sha.as_str()) {
            unique_new.push(new_commits[k].clone());
            proof {
                assert(unique_new.deep_view() =~= before_u.push(newc[k as int]));
                assert(unique_new.deep_view() + filter_seq(newc.skip(k + 1), ukeep) =~= before_u
                    + (seq![newc[k as int]] + filter_seq(newc.skip(k + 1), ukeep)));
            }
        } else {
            proof {
                assert(unique_new.deep_view() + filter_seq(newc.skip(k + 1), ukeep) =~= before_u + (
                Seq::<CommitView>::empty() + filter_seq(newc.skip(k + 1), ukeep)));
            }
        }
        k += 1;
    }
    proof {
        assert(newc.skip(nc as int) =~= Seq::<CommitView>::empty());
        assert(unique_new.deep_view() + Seq::<CommitView>::empty() =~= unique_new.deep_view());
    }

    if unique_new.len() == 0 {
        proof {
            assert(filter_seq(newc, ukeep).len() == 0);
        }
        return Ok(existing);
    }

    // Rebuild commit records from the stored rows, then add the new ones.
    let mut all_commits: Vec<CommitNode> = Vec::new();
    let mut j: usize = 0;
    proof {
        assert(all_commits.deep_view() =~= ndv.map_values(
            |nd: LayoutNodeView| rebuilt_commit(nd),
        ).take(0));
    }
    while j < nn
        invariant
            j <= nn,
            nn == existing.nodes@.len(),
            ndv == existing@.nodes,
            all_commits.deep_view() == ndv.map_values(|nd: LayoutNodeView| rebuilt_commit(nd)).take(
                j as int,
            ),
        decreases nn - j,
    {
        proof {
            assert(existing.nodes@[j as int]@ == ndv[j as int]);
        }
        let nd = &existing.nodes[j];
        let ghost before_a = all_commits.deep_view();
        let node = CommitNode {
            sha: nd.sha.clone(),
            short_sha: nd.short_sha.clone(),
            parents: clone_string_vec(&nd.parents),
            children: Vec::new(),
            author_name: nd.author_name.clone(),
            author_email: String::new(),
            author_date: nd.author_date,
            committer_name: String::new(),
            committer_email: String::new(),
            commit_date: 0,
            subject: nd.subject.clone(),
            refs: clone_ref_vec(&nd.refs),
            lane: -1,
            row: -1,
        };
        proof {
            assert(node@.children =~= Seq::<Seq<char>>::empty());
            assert(node@.author_email =~= Seq::<char>::empty());
            assert(node@.committer_name =~= Seq::<char>::empty());
            assert(node@.committer_email =~= Seq::<char>::empty());
            assert(node@ == rebuilt_commit(ndv[j as int]));
        }
        all_commits.push(node);
        proof {
            assert(all_commits.deep_view() =~= before_a.push(rebuilt_commit(ndv[j as int])));
            assert(all_commits.deep_view() =~= ndv.map_values(
                |nd2: LayoutNodeView| rebuilt_commit(nd2),
            ).take(j + 1));
        }
        j += 1;
    }
    proof {
        let mapped = ndv.map_values(|nd2: LayoutNodeView| rebuilt_commit(nd2));
        assert(mapped.take(nn as int) =~= mapped);
    }
    let nu = unique_new.len();
    let mut u: usize = 0;
    let ghost unique_dv = unique_new.deep_view();
    while u < nu
        invariant
            u <= nu,
            nu == unique_new@.len(),
            unique_dv == unique_new.deep_view(),
            ndv == existing@.nodes,
            all_commits.deep_view() == ndv.map_values(|nd2: LayoutNodeView| rebuilt_commit(nd2))
                + unique_dv.take(u as int),
        decreases nu - u,
    {
        proof {
            assert(unique_new@[u as int]@ == unique_dv[u as int]);
        }
        let ghost before_a = all_commits.deep_view();
        all_commits.push(unique_new[u].clone());
        proof {
            assert(all_commits.deep_view() =~= before_a.push(unique_dv[u as int]));
            assert(unique_dv.take(u + 1) =~= unique_dv.take(u as int).push(unique_dv[u as int]));
            assert(all_commits.deep_view() =~= ndv.map_values(
                |nd2: LayoutNodeView| rebuilt_commit(nd2),
            ) + unique_dv.take(u + 1));
        }
        u += 1;
    }
    proof {
        assert(unique_dv.take(nu as int) =~= unique_dv);
    }

    let new_layout = compute_layout(all_commits.as_slice());
    proof {
        assert(views_of(all_commits@) =~= all_commits.deep_view());
    }
    let stored = new_layout.clone();
    let replaced = store.replace(handle, stored);
    proof {
        assert(replaced);
        assert(store@.dom() =~= old(store)@.dom());
    }
    Ok(new_layout)
}

/// Free a stored layout. Freeing an unknown or already freed handle is a
/// no-op.
pub fn free_layout(store: &mut LayoutStore, handle: u32)
    requires
        old(store).wf(),
    ensures
        final(store).wf(),
        final(store).next_spec() == old(store).next_spec(),
        final(store)@ == old(store)@.remove(handle),
{
    let _ = store.remove(handle);
}

/// Filter a stored layout by a regular expression over a chosen field. An
/// unknown handle and an invalid pattern are reported, in that order of
/// checking, and nothing is filtered.
pub fn filter_commits(store: &LayoutStore, handle: u32, field: &str, pattern: &str) -> (r: Result<
    LayoutResult,
    StoreError,
>)
    ensures
        r is Ok <==> (store@.contains_key(handle) && pattern_ok(pattern@)),
        r is Ok ==> (r->Ok_0)@ == field_filter_spec(store@[handle]@, field@, pattern@),
        r is Err ==> match r->Err_0 {
            StoreError::InvalidHandle(h) => h == handle && !store@.contains_key(handle),
            StoreError::InvalidPattern(_) => store@.contains_key(handle) && !pattern_ok(pattern@),
        },
{
    let layout = match store.get(handle) {
        Some(l) => l,
        None => {
            return Err(StoreError::InvalidHandle(handle));
        },
    };
    match filter_commits_by_field(layout, field, pattern) {
        Ok(filtered) => Ok(filtered),
        Err(e) => Err(StoreError::InvalidPattern(e)),
    }
}

/// Filter a stored layout by author-date range; zero disables a bound. An
/// unknown handle is reported and nothing is filtered.
pub fn filter_by_date(store: &LayoutStore, handle: u32, after: u64, before: u64) -> (r: Result<
    LayoutResult,
    StoreError,
>)
    ensures
        r is Ok <==> store@.contains_key(handle),
        r is Ok ==> (r->Ok_0)@ == date_filter_spec(store@[handle]@, after, before),
        r is Err ==> r->Err_0 is InvalidHandle,
{
    let layout = match store.get(handle) {
        Some(l) => l,
        None => {
            return Err(StoreError::InvalidHandle(handle));
        },
    };
    Ok(filter_commits_by_date(layout, after, before))
}

/// Law: once a handle is freed its entry is gone, so by the contracts of
/// `filter_commits`, `filter_by_date` and `append_to_layout` any later call
/// on it reports the invalid handle; and freeing it again, or freeing a
/// handle that was never issued, leaves the store as it is.
pub proof fn lemma_handle_lifecycle(m: Map<u32, LayoutResult>, h: u32)
    ensures
        !m.remove(h).contains_key(h),
        m.remove(h).remove(h) == m.remove(h),
        !m.contains_key(h) ==> m.remove(h) == m,
{
    assert(m.remove(h).remove(h) =~= m.remove(h));
    if !m.contains_key(h) {
        assert(m.remove(h) =~= m);
    }
}

} // verus!
