//! Reducers over a computed layout: keep only the nodes whose hash
//! satisfies a predicate — a date interval on the author timestamp, or a
//! regular-expression match on a chosen field — and only the edges whose
//! both endpoints survive. The regular-expression engine is an outside
//! crate, reached through trusted wrappers.

use vstd::prelude::*;

use crate::strutil::str_eq;
use crate::types::{
    Edge, EdgeView, LayoutNode, LayoutNodeView, LayoutResult, LayoutResultView,
};

verus! {

/// Sequence filtering, keeping order.
pub open spec fn filter_seq<A>(s: Seq<A>, p: spec_fn(A) -> bool) -> Seq<A>
    decreases s.len(),
{
    if s.len() == 0 {
        Seq::<A>::empty()
    } else {
        (if p(s[0]) {
            seq![s[0]]
        } else {
            Seq::<A>::empty()
        }) + filter_seq(s.skip(1), p)
    }
}

/// Whether `s` occurs in the list.
pub open spec fn list_has(l: Seq<Seq<char>>, s: Seq<char>) -> bool {
    exists|i: int| 0 <= i < l.len() && l[i] == s
}

/// Whether `date` lies in the interval; a zero bound is no bound.
pub open spec fn date_pred(after: u64, before: u64, date: u64) -> bool {
    (after == 0 || date >= after) && (before == 0 || date <= before)
}

/// Whether some node carries this hash and passes the date predicate.
pub open spec fn sha_matches_date(
    nodes: Seq<LayoutNodeView>,
    after: u64,
    before: u64,
    sha: Seq<char>,
) -> bool {
    exists|i: int|
        0 <= i < nodes.len() && nodes[i].sha == sha && date_pred(after, before, nodes[i].author_date)
}

/// The date-filtered layout: nodes whose hash belongs to a node passing the
/// predicate, edges whose both endpoints do, and the count recomputed.
pub open spec fn date_filter_spec(lv: LayoutResultView, after: u64, before: u64) -> LayoutResultView {
    let nodes2 = filter_seq(
        lv.nodes,
        |nd: LayoutNodeView| sha_matches_date(lv.nodes, after, before, nd.sha),
    );
    let edges2 = filter_seq(
        lv.edges,
        |e: EdgeView| sha_matches_date(lv.nodes, after, before, e.from_sha) && sha_matches_date(
            lv.nodes,
            after,
            before,
            e.to_sha,
        ),
    );
    LayoutResultView { nodes: nodes2, edges: edges2, total_count: nodes2.len() as int }
}

/// Whether `s` occurs in the list of hashes.
pub fn sha_in(l: &Vec<String>, s: &str) -> (r: bool)
    ensures
        r == list_has(l.deep_view(), s@),
{
    let n = l.len();
    let mut i: usize = 0;
    while i < n
        invariant
            i <= n,
            n == l@.len(),
            forall|j: int| 0 <= j < i ==> l.deep_view()[j] != s@,
        decreases n - i,
    {
        proof {
            assert(l@[i as int]@ == l.deep_view()[i as int]);
        }
        if str_eq(l[i].as_str(), s) {
            return true;
        }
        i += 1;
    }
    proof {
        assert(l.deep_view().len() == l@.len());
    }
    false
}

/// Whether `date` lies in the interval.
fn date_ok(after: u64, before: u64, date: u64) -> (r: bool)
    ensures
        r == date_pred(after, before, date),
{
    (after == 0 || date >= after) && (before == 0 || date <= before)
}

/// Filter a layout by author-date: keep nodes whose timestamp lies in
/// `[after, before]`, either bound disabled by zero, and edges whose both
/// endpoints survive; the total count is recomputed from the survivors.
pub fn filter_commits_by_date(layout: &LayoutResult, after: u64, before: u64) -> (r: LayoutResult)
    ensures
        r@ == date_filter_spec(layout@, after, before),
{
    let ghost ndv = layout@.nodes;
    let ghost edv = layout@.edges;
    let nn = layout.nodes.len();

    // Collect the hashes of the nodes that pass the predicate.
    let mut matching: Vec<String> = Vec::new();
    let mut i: usize = 0;
    while i < nn
        invariant
            i <= nn,
            nn == layout.nodes@.len(),
            ndv == layout@.nodes,
            forall|s: Seq<char>|
                #[trigger] list_has(matching.deep_view(), s) <==> sha_matches_date(
                    ndv.take(i as int),
                    after,
                    before,
                    s,
                ),
        decreases nn - i,
    {
        proof {
            assert(layout.nodes@[i as int]@ == ndv[i as int]);
        }
        let nd = &layout.nodes[i];
        let ghost before_m = matching.deep_view();
        if date_ok(after, before, nd.author_date) {
            matching.push(nd.sha.clone());
            proof {
                assert(matching.deep_view() =~= before_m.push(ndv[i as int].sha));
            }
        }
        proof {
            let pre = ndv.take(i as int);
            let pre1 = ndv.take(i + 1);
            assert(pre1.drop_last() =~= pre);
            assert(pre1.last() == ndv[i as int]);
            assert forall|s: Seq<char>| #[trigger] list_has(matching.deep_view(), s)
                <==> sha_matches_date(pre1, after, before, s) by {
                assert(forall|j: int| 0 <= j < pre.len() ==> pre1[j] == pre[j]);
                if list_has(matching.deep_view(), s) {
                    if date_pred(after, before, ndv[i as int].author_date) && s == ndv[
                        i as int
                    ].sha {
                        assert(pre1[i as int] == ndv[i as int]);
                    } else {
                        assert(list_has(before_m, s));
                        let j = choose|j: int|
                            0 <= j < pre.len() && pre[j].sha == s && date_pred(
                                after,
                                before,
                                pre[j].author_date,
                            );
                        assert(pre1[j] == pre[j]);
                    }
                }
                if sha_matches_date(pre1, after, before, s) {
                    let j = choose|j: int|
                        0 <= j < pre1.len() && pre1[j].sha == s && date_pred(
                            after,
                            before,
                            pre1[j].author_date,
                        );
                    if j < i {
                        assert(pre[j] == pre1[j]);
                        assert(sha_matches_date(pre, after, before, s));
                        assert(list_has(before_m, s));
                        let jj = choose|jj: int| 0 <= jj < before_m.len() && before_m[jj] == s;
                        assert(matching.deep_view()[jj] == s);
                    } else {
                        assert(pre1[j] == ndv[i as int]);
                        assert(matching.deep_view().last() == s);
                    }
                }
            }
        }
        i += 1;
    }
    proof {
        assert(ndv.take(nn as int) =~= ndv);
    }

    // Keep the surviving nodes.
    let mut nodes2: Vec<LayoutNode> = Vec::new();
    let mut k: usize = 0;
    let ghost nkeep = (|nd: LayoutNodeView| sha_matches_date(ndv, after, before, nd.sha));
    proof {
        assert(ndv.skip(0) =~= ndv);
        assert(nodes2.deep_view() + filter_seq(ndv, nkeep) =~= filter_seq(ndv, nkeep));
    }
    while k < nn
        invariant
            k <= nn,
            nn == layout.nodes@.len(),
            ndv == layout@.nodes,
            nkeep == (|nd: LayoutNodeView| sha_matches_date(ndv, after, before, nd.sha)),
            forall|s: Seq<char>|
                #[trigger] list_has(matching.deep_view(), s) <==> sha_matches_date(
                    ndv,
                    after,
                    before,
                    s,
                ),
            filter_seq(ndv, nkeep) == nodes2.deep_view() + filter_seq(ndv.skip(k as int), nkeep),
        decreases nn - k,
    {
        let ghost rem = ndv.skip(k as int);
        proof {
            assert(layout.nodes@[k as int]@ == ndv[k as int]);
            assert(rem[0] == ndv[k as int]);
            assert(rem.skip(1) =~= ndv.skip(k + 1));
        }
        let nd = &layout.nodes[k];
        let ghost before_n = nodes2.deep_view();
        if sha_in(&matching, nd.sha.as_str()) {
            nodes2.push(nd.clone());
            proof {
                assert(nodes2.deep_view() =~= before_n.push(ndv[k as int]));
                assert(nodes2.deep_view() + filter_seq(ndv.skip(k + 1), nkeep) =~= before_n + (seq![
                    ndv[k as int],
                ] + filter_seq(ndv.skip(k + 1), nkeep)));
            }
        } else {
            proof {
                assert(nodes2.deep_view() + filter_seq(ndv.skip(k + 1), nkeep) =~= before_n + (
                Seq::<LayoutNodeView>::empty() + filter_seq(ndv.skip(k + 1), nkeep)));
            }
        }
        k += 1;
    }
    proof {
        assert(ndv.skip(nn as int) =~= Seq::<LayoutNodeView>::empty());
        assert(nodes2.deep_view() + Seq::<LayoutNodeView>::empty() =~= nodes2.deep_view());
    }

    // Keep the edges whose both endpoints survive.
    let ne = layout.edges.len();
    let mut edges2: Vec<Edge> = Vec::new();
    let mut e: usize = 0;
    let ghost ekeep = (|ev: EdgeView| sha_matches_date(ndv, after, before, ev.from_sha)
        && sha_matches_date(ndv, after, before, ev.to_sha));
    proof {
        assert(edv.skip(0) =~= edv);
        assert(edges2.deep_view() + filter_seq(edv, ekeep) =~= filter_seq(edv, ekeep));
    }
    while e < ne
        invariant
            e <= ne,
            ne == layout.edges@.len(),
            edv == layout@.edges,
            ndv == layout@.nodes,
            ekeep == (|ev: EdgeView| sha_matches_date(ndv, after, before, ev.from_sha)
                && sha_matches_date(ndv, after, before, ev.to_sha)),
            forall|s: Seq<char>|
                #[trigger] list_has(matching.deep_view(), s) <==> sha_matches_date(
                    ndv,
                    after,
                    before,
                    s,
                ),
            filter_seq(edv, ekeep) == edges2.deep_view() + filter_seq(edv.skip(e as int), ekeep),
        decreases ne - e,
    {
        let ghost rem = edv.skip(e as int);
        proof {
            assert(layout.edges@[e as int]@ == edv[e as int]);
            assert(rem[0] == edv[e as int]);
            assert(rem.skip(1) =~= edv.skip(e + 1));
        }
        let ed = &layout.edges[e];
        let ghost before_e = edges2.deep_view();
        if sha_in(&matching, ed.from_sha.as_str()) && sha_in(&matching, ed.to_sha.as_str()) {
            edges2.push(ed.clone());
            proof {
                assert(edges2.deep_view() =~= before_e.push(edv[e as int]));
                assert(edges2.deep_view() + filter_seq(edv.skip(e + 1), ekeep) =~= before_e + (seq![
                    edv[e as int],
                ] + filter_seq(edv.skip(e + 1), ekeep)));
            }
        } else {
            proof {
                assert(edges2.deep_view() + filter_seq(edv.skip(e + 1), ekeep) =~= before_e + (
                Seq::<EdgeView>::empty() + filter_seq(edv.skip(e + 1), ekeep)));
            }
        }
        e += 1;
    }
    proof {
        assert(edv.skip(ne as int) =~= Seq::<EdgeView>::empty());
        assert(edges2.deep_view() + Seq::<EdgeView>::empty() =~= edges2.deep_view());
    }

    let total_count = nodes2.len();
    LayoutResult { nodes: nodes2, edges: edges2, total_count }
}

/// If the predicate holds of every element, filtering keeps the sequence.
pub proof fn lemma_filter_seq_all(s: Seq<LayoutNodeView>, p: spec_fn(LayoutNodeView) -> bool)
    requires
        forall|i: int| 0 <= i < s.len() ==> p(#[trigger] s[i]),
    ensures
        filter_seq(s, p) == s,
    decreases s.len(),
{
    if s.len() == 0 {
        assert(filter_seq(s, p) =~= s);
    } else {
        assert(forall|i: int| 0 <= i < s.skip(1).len() ==> s.skip(1)[i] == s[i + 1]);
        lemma_filter_seq_all(s.skip(1), p);
        assert(seq![s[0]] + s.skip(1) =~= s);
    }
}

/// The same, for edges.
pub proof fn lemma_filter_seq_all_edges(s: Seq<EdgeView>, p: spec_fn(EdgeView) -> bool)
    requires
        forall|i: int| 0 <= i < s.len() ==> p(#[trigger] s[i]),
    ensures
        filter_seq(s, p) == s,
    decreases s.len(),
{
    if s.len() == 0 {
        assert(filter_seq(s, p) =~= s);
    } else {
        assert(forall|i: int| 0 <= i < s.skip(1).len() ==> s.skip(1)[i] == s[i + 1]);
        lemma_filter_seq_all_edges(s.skip(1), p);
        assert(seq![s[0]] + s.skip(1) =~= s);
    }
}

/// Predicates that agree on the elements filter alike.
pub proof fn lemma_filter_seq_congr(
    s: Seq<LayoutNodeView>,
    p: spec_fn(LayoutNodeView) -> bool,
    q: spec_fn(LayoutNodeView) -> bool,
)
    requires
        forall|i: int| 0 <= i < s.len() ==> p(#[trigger] s[i]) == q(s[i]),
    ensures
        filter_seq(s, p) == filter_seq(s, q),
    decreases s.len(),
{
    if s.len() > 0 {
        assert(forall|i: int| 0 <= i < s.skip(1).len() ==> s.skip(1)[i] == s[i + 1]);
        lemma_filter_seq_congr(s.skip(1), p, q);
        assert(p(s[0]) == q(s[0]));
    }
}

/// Whether some node carries this hash.
pub open spec fn node_sha_present(nodes: Seq<LayoutNodeView>, sha: Seq<char>) -> bool {
    exists|i: int| 0 <= i < nodes.len() && nodes[i].sha == sha
}

/// A layout in which the cached count equals the node count and every edge
/// joins two hashes that appear among the nodes — as every layout the
/// engine emits does.
pub open spec fn layout_closed(lv: LayoutResultView) -> bool {
    &&& lv.total_count == lv.nodes.len()
    &&& forall|i: int|
        0 <= i < lv.edges.len() ==> node_sha_present(lv.nodes, (#[trigger] lv.edges[i]).from_sha)
            && node_sha_present(lv.nodes, lv.edges[i].to_sha)
}

/// Law: filtering by an unconstrained date range — both bounds zero — gives
/// the layout back unchanged.
pub proof fn lemma_date_filter_unconstrained(lv: LayoutResultView)
    requires
        layout_closed(lv),
    ensures
        date_filter_spec(lv, 0, 0) == lv,
{
    assert forall|i: int| 0 <= i < lv.nodes.len() implies sha_matches_date(
        lv.nodes,
        0,
        0,
        (#[trigger] lv.nodes[i]).sha,
    ) by {
        assert(date_pred(0, 0, lv.nodes[i].author_date));
    }
    lemma_filter_seq_all(
        lv.nodes,
        |nd: LayoutNodeView| sha_matches_date(lv.nodes, 0, 0, nd.sha),
    );
    assert forall|i: int| 0 <= i < lv.edges.len() implies sha_matches_date(
        lv.nodes,
        0,
        0,
        (#[trigger] lv.edges[i]).from_sha,
    ) && sha_matches_date(lv.nodes, 0, 0, lv.edges[i].to_sha) by {
        let j = choose|j: int| 0 <= j < lv.nodes.len() && lv.nodes[j].sha == lv.edges[i].from_sha;
        assert(date_pred(0, 0, lv.nodes[j].author_date));
        let k = choose|k: int| 0 <= k < lv.nodes.len() && lv.nodes[k].sha == lv.edges[i].to_sha;
        assert(date_pred(0, 0, lv.nodes[k].author_date));
    }
    lemma_filter_seq_all_edges(
        lv.edges,
        |e: EdgeView| sha_matches_date(lv.nodes, 0, 0, e.from_sha) && sha_matches_date(
            lv.nodes,
            0,
            0,
            e.to_sha,
        ),
    );
}

/// Law: when node hashes are distinct, a node survives the date filter
/// exactly when its own author timestamp lies in the range (a zero bound
/// constraining nothing), and an edge exactly when the nodes at both of its
/// endpoints do.
pub proof fn lemma_date_filter_correct(lv: LayoutResultView, after: u64, before: u64)
    requires
        forall|i: int, j: int|
            0 <= i < j < lv.nodes.len() ==> lv.nodes[i].sha != lv.nodes[j].sha,
    ensures
        forall|i: int|
            0 <= i < lv.nodes.len() ==> (sha_matches_date(
                lv.nodes,
                after,
                before,
                (#[trigger] lv.nodes[i]).sha,
            ) <==> date_pred(after, before, lv.nodes[i].author_date)),
        date_filter_spec(lv, after, before).nodes == filter_seq(
            lv.nodes,
            |nd: LayoutNodeView| date_pred(after, before, nd.author_date),
        ),
{
    assert forall|i: int| 0 <= i < lv.nodes.len() implies (sha_matches_date(
        lv.nodes,
        after,
        before,
        (#[trigger] lv.nodes[i]).sha,
    ) <==> date_pred(after, before, lv.nodes[i].author_date)) by {
        if sha_matches_date(lv.nodes, after, before, lv.nodes[i].sha) {
            let j = choose|j: int|
                0 <= j < lv.nodes.len() && lv.nodes[j].sha == lv.nodes[i].sha && date_pred(
                    after,
                    before,
                    lv.nodes[j].author_date,
                );
            assert(j == i);
        }
    }
    lemma_filter_seq_congr(
        lv.nodes,
        |nd: LayoutNodeView| sha_matches_date(lv.nodes, after, before, nd.sha),
        |nd: LayoutNodeView| date_pred(after, before, nd.author_date),
    );
}

#[verifier::external_type_specification]
#[verifier::external_body]
pub struct ExRegex(regex::Regex);

/// Whether a pattern is a valid regular expression: what `regex::Regex::new`
/// accepts, a function of the pattern alone.
pub uninterp spec fn pattern_ok(pattern: Seq<char>) -> bool;

/// The pattern a compiled regular expression was built from.
pub uninterp spec fn regex_pattern(re: regex::Regex) -> Seq<char>;

/// Whether a pattern matches somewhere in a text: what
/// `regex::Regex::is_match` returns, a function of pattern and text alone.
pub uninterp spec fn regex_matches(pattern: Seq<char>, text: Seq<char>) -> bool;

/// Relies on `regex::Regex::new`: compiling is deterministic in the pattern,
/// and a compiled value stands for exactly the pattern it was built from.
/// The error text comes from the crate's error value.
#[verifier::external_body]
fn compile_regex(pattern: &str) -> (r: Result<regex::Regex, String>)
    ensures
        r is Ok <==> pattern_ok(pattern@),
        r is Ok ==> regex_pattern(r->Ok_0) == pattern@,
{
    regex::Regex::new(pattern).map_err(|e| format!("Invalid regex pattern: {}", e))
}

/// Relies on `regex::Regex::is_match`: the result depends only on the
/// compiled pattern and the text searched.
#[verifier::external_body]
fn regex_is_match(re: &regex::Regex, text: &str) -> (r: bool)
    ensures
        r == regex_matches(regex_pattern(*re), text@),
{
    re.is_match(text)
}

/// The text of the selected field: the subject for `message`/`subject`, the
/// author name for `author`, the full hash for `sha`/`hash`; any other
/// selector names nothing.
pub open spec fn field_text(field: Seq<char>, nd: LayoutNodeView) -> Option<Seq<char>> {
    if field == "message"@ || field == "subject"@ {
        Some(nd.subject)
    } else if field == "author"@ {
        Some(nd.author_name)
    } else if field == "sha"@ || field == "hash"@ {
        Some(nd.sha)
    } else {
        None
    }
}

/// Whether a node's selected field matches the pattern; an unrecognized
/// selector matches nothing.
pub open spec fn node_matches_field(field: Seq<char>, pattern: Seq<char>, nd: LayoutNodeView) -> bool {
    match field_text(field, nd) {
        Some(t) => regex_matches(pattern, t),
        None => false,
    }
}

/// Whether some node carries this hash and matches the field pattern.
pub open spec fn sha_matches_field(
    nodes: Seq<LayoutNodeView>,
    field: Seq<char>,
    pattern: Seq<char>,
    sha: Seq<char>,
) -> bool {
    exists|i: int|
        0 <= i < nodes.len() && nodes[i].sha == sha && node_matches_field(field, pattern, nodes[i])
}

/// The field-filtered layout, shaped like [`date_filter_spec`].
pub open spec fn field_filter_spec(
    lv: LayoutResultView,
    field: Seq<char>,
    pattern: Seq<char>,
) -> LayoutResultView {
    let nodes2 = filter_seq(
        lv.nodes,
        |nd: LayoutNodeView| sha_matches_field(lv.nodes, field, pattern, nd.sha),
    );
    let edges2 = filter_seq(
        lv.edges,
        |e: EdgeView| sha_matches_field(lv.nodes, field, pattern, e.from_sha) && sha_matches_field(
            lv.nodes,
            field,
            pattern,
            e.to_sha,
        ),
    );
    LayoutResultView { nodes: nodes2, edges: edges2, total_count: nodes2.len() as int }
}

/// The selected field of a node, if the selector is recognized.
fn field_of<'a>(field: &str, nd: &'a LayoutNode) -> (r: Option<&'a String>)
    ensures
        match r {
            Some(t) => field_text(field@, nd@) == Some(t@),
            None => field_text(field@, nd@) is None,
        },
{
    if str_eq(field, "message") || str_eq(field, "subject") {
        Some(&nd.subject)
    } else if str_eq(field, "author") {
        Some(&nd.author_name)
    } else if str_eq(field, "sha") || str_eq(field, "hash") {
        Some(&nd.sha)
    } else {
        None
    }
}

/// Filter a layout by a regular expression over a chosen field: an invalid
/// pattern is an error before any filtering; otherwise keep the nodes whose
/// selected field matches and the edges whose both endpoints survive, the
/// total count recomputed.
pub fn filter_commits_by_field(layout: &LayoutResult, field: &str, pattern: &str) -> (r: Result<
    LayoutResult,
    String,
>)
    ensures
        r is Ok <==> pattern_ok(pattern@),
        r is Ok ==> (r->Ok_0)@ == field_filter_spec(layout@, field@, pattern@),
{
    let re = match compile_regex(pattern) {
        Ok(re) => re,
        Err(e) => {
            return Err(e);
        },
    };
    let ghost ndv = layout@.nodes;
    let ghost edv = layout@.edges;
    let nn = layout.nodes.len();

    // Collect the hashes of the nodes whose field matches.
    let mut matching: Vec<String> = Vec::new();
    let mut i: usize = 0;
    while i < nn
        invariant
            i <= nn,
            nn == layout.nodes@.len(),
            ndv == layout@.nodes,
            regex_pattern(re) == pattern@,
            forall|s: Seq<char>|
                #[trigger] list_has(matching.deep_view(), s) <==> sha_matches_field(
                    ndv.take(i as int),
                    field@,
                    pattern@,
                    s,
                ),
        decreases nn - i,
    {
        proof {
            assert(layout.nodes@[i as int]@ == ndv[i as int]);
        }
        let nd = &layout.nodes[i];
        let ghost before_m = matching.deep_view();
        let hit = match field_of(field, nd) {
            Some(t) => regex_is_match(&re, t.as_str()),
            None => false,
        };
        if hit {
            matching.push(nd.sha.clone());
            proof {
                assert(matching.deep_view() =~= before_m.push(ndv[i as int].sha));
            }
        }
        proof {
            let pre = ndv.take(i as int);
            let pre1 = ndv.take(i + 1);
            assert(pre1.drop_last() =~= pre);
            assert(pre1.last() == ndv[i as int]);
            assert forall|s: Seq<char>| #[trigger] list_has(matching.deep_view(), s)
                <==> sha_matches_field(pre1, field@, pattern@, s) by {
                assert(forall|j: int| 0 <= j < pre.len() ==> pre1[j] == pre[j]);
                if list_has(matching.deep_view(), s) {
                    if node_matches_field(field@, pattern@, ndv[i as int]) && s == ndv[
                        i as int
                    ].sha {
                        assert(pre1[i as int] == ndv[i as int]);
                    } else {
                        assert(list_has(before_m, s));
                        let j = choose|j: int|
                            0 <= j < pre.len() && pre[j].sha == s && node_matches_field(
                                field@,
                                pattern@,
                                pre[j],
                            );
                        assert(pre1[j] == pre[j]);
                    }
                }
                if sha_matches_field(pre1, field@, pattern@, s) {
                    let j = choose|j: int|
                        0 <= j < pre1.len() && pre1[j].sha == s && node_matches_field(
                            field@,
                            pattern@,
                            pre1[j],
                        );
                    if j < i {
                        assert(pre[j] == pre1[j]);
                        assert(sha_matches_field(pre, field@, pattern@, s));
                        assert(list_has(before_m, s));
                        let jj = choose|jj: int| 0 <= jj < before_m.len() && before_m[jj] == s;
                        assert(matching.deep_view()[jj] == s);
                    } else {
                        assert(pre1[j] == ndv[i as int]);
                        assert(matching.deep_view().last() == s);
                    }
                }
            }
        }
        i += 1;
    }
    proof {
        assert(ndv.take(nn as int) =~= ndv);
    }

    // Keep the surviving nodes.
    let mut nodes2: Vec<LayoutNode> = Vec::new();
    let mut k: usize = 0;
    let ghost nkeep = (|nd: LayoutNodeView| sha_matches_field(ndv, field@, pattern@, nd.sha));
    proof {
        assert(ndv.skip(0) =~= ndv);
        assert(nodes2.deep_view() + filter_seq(ndv, nkeep) =~= filter_seq(ndv, nkeep));
    }
    while k < nn
        invariant
            k <= nn,
            nn == layout.nodes@.len(),
            ndv == layout@.nodes,
            nkeep == (|nd: LayoutNodeView| sha_matches_field(ndv, field@, pattern@, nd.sha)),
            forall|s: Seq<char>|
                #[trigger] list_has(matching.deep_view(), s) <==> sha_matches_field(
                    ndv,
                    field@,
                    pattern@,
                    s,
                ),
            filter_seq(ndv, nkeep) == nodes2.deep_view() + filter_seq(ndv.skip(k as int), nkeep),
        decreases nn - k,
    {
        let ghost rem = ndv.skip(k as int);
        proof {
            assert(layout.nodes@[k as int]@ == ndv[k as int]);
            assert(rem[0] == ndv[k as int]);
            assert(rem.skip(1) =~= ndv.skip(k + 1));
        }
        let nd = &layout.nodes[k];
        let ghost before_n = nodes2.deep_view();
        if sha_in(&matching, nd.sha.as_str()) {
            nodes2.push(nd.clone());
            proof {
                assert(nodes2.deep_view() =~= before_n.push(ndv[k as int]));
                assert(nodes2.deep_view() + filter_seq(ndv.skip(k + 1), nkeep) =~= before_n + (seq![
                    ndv[k as int],
                ] + filter_seq(ndv.skip(k + 1), nkeep)));
            }
        } else {
            proof {
                assert(nodes2.deep_view() + filter_seq(ndv.skip(k + 1), nkeep) =~= before_n + (
                Seq::<LayoutNodeView>::empty() + filter_seq(ndv.skip(k + 1), nkeep)));
            }
        }
        k += 1;
    }
    proof {
        assert(ndv.skip(nn as int) =~= Seq::<LayoutNodeView>::empty());
        assert(nodes2.deep_view() + Seq::<LayoutNodeView>::empty() =~= nodes2.deep_view());
    }

    // Keep the edges whose both endpoints survive.
    let ne = layout.edges.len();
    let mut edges2: Vec<Edge> = Vec::new();
    let mut e: usize = 0;
    let ghost ekeep = (|ev: EdgeView| sha_matches_field(ndv, field@, pattern@, ev.from_sha)
        && sha_matches_field(ndv, field@, pattern@, ev.to_sha));
    proof {
        assert(edv.skip(0) =~= edv);
        assert(edges2.deep_view() + filter_seq(edv, ekeep) =~= filter_seq(edv, ekeep));
    }
    while e < ne
        invariant
            e <= ne,
            ne == layout.edges@.len(),
            edv == layout@.edges,
            ndv == layout@.nodes,
            ekeep == (|ev: EdgeView| sha_matches_field(ndv, field@, pattern@, ev.from_sha)
                && sha_matches_field(ndv, field@, pattern@, ev.to_sha)),
            forall|s: Seq<char>|
                #[trigger] list_has(matching.deep_view(), s) <==> sha_matches_field(
                    ndv,
                    field@,
                    pattern@,
                    s,
                ),
            filter_seq(edv, ekeep) == edges2.deep_view() + filter_seq(edv.skip(e as int), ekeep),
        decreases ne - e,
    {
        let ghost rem = edv.skip(e as int);
        proof {
            assert(layout.edges@[e as int]@ == edv[e as int]);
            assert(rem[0] == edv[e as int]);
            assert(rem.skip(1) =~= edv.skip(e + 1));
        }
        let ed = &layout.edges[e];
        let ghost before_e = edges2.deep_view();
        if sha_in(&matching, ed.from_sha.as_str()) && sha_in(&matching, ed.to_sha.as_str()) {
            edges2.push(ed.clone());
            proof {
                assert(edges2.deep_view() =~= before_e.push(edv[e as int]));
                assert(edges2.deep_view() + filter_seq(edv.skip(e + 1), ekeep) =~= before_e + (seq![
                    edv[e as int],
                ] + filter_seq(edv.skip(e + 1), ekeep)));
            }
        } else {
            proof {
                assert(edges2.deep_view() + filter_seq(edv.skip(e + 1), ekeep) =~= before_e + (
                Seq::<EdgeView>::empty() + filter_seq(edv.skip(e + 1), ekeep)));
            }
        }
        e += 1;
    }
    proof {
        assert(edv.skip(ne as int) =~= Seq::<EdgeView>::empty());
        assert(edges2.deep_view() + Seq::<EdgeView>::empty() =~= edges2.deep_view());
    }

    let total_count = nodes2.len();
    Ok(LayoutResult { nodes: nodes2, edges: edges2, total_count })
}

} // verus!
