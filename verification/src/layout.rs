//! The lane-allocation layout engine: one pass over commits in display
//! order assigns each a lane and color and drafts its parent edges; a
//! finalization pass resolves each edge's target row and lane, dropping
//! edges whose target commit is not in the batch.

use vstd::prelude::*;

use crate::sha_map::ShaMap;
use crate::log_parser::sha_index_map;
use crate::types::{
    clone_ref_vec, clone_string_vec, CommitNode, CommitView, Edge, EdgeType, EdgeView, LayoutNode,
    LayoutNodeView, LayoutResult, LayoutResultView, NodeType, RefType, RefView,
};

verus! {

/// A 32-bit value truncated the way an `as i32` cast truncates it.
pub open spec fn clip32(x: int) -> int {
    (x as i32) as int
}

/// The hash folding a byte string into 32 bits: start at 5381, multiply by
/// 33 and add each byte, modulo two to the thirty-second.
pub open spec fn djb2(bytes: Seq<u8>) -> int
    decreases bytes.len(),
{
    if bytes.len() == 0 {
        5381
    } else {
        (djb2(bytes.drop_last()) * 33 + bytes.last()) % 0x1_0000_0000
    }
}

/// The color a name hashes to: its UTF-8 bytes folded by [`djb2`] into the
/// twelve-color palette.
pub open spec fn hash_name(s: Seq<char>) -> u32 {
    (djb2(vstd::utf8::encode_utf8(s)) % 12) as u32
}

/// Derive a color index from a branch name.
pub fn hash_branch_name(name: &str) -> (r: u32)
    ensures
        r == hash_name(name@),
{
    let bytes = name.as_bytes_vec();
    let n = bytes.len();
    let mut h: u64 = 5381;
    let mut i: usize = 0;
    proof {
        assert(bytes@.take(0) =~= Seq::<u8>::empty());
    }
    while i < n
        invariant
            i <= n,
            n == bytes@.len(),
            h == djb2(bytes@.take(i as int)),
            h < 0x1_0000_0000,
        decreases n - i,
    {
        proof {
            assert(bytes@.take(i + 1).drop_last() =~= bytes@.take(i as int));
            assert(bytes@.take(i + 1).last() == bytes@[i as int]);
        }
        h = (h * 33 + bytes[i] as u64) % 0x1_0000_0000;
        i += 1;
    }
    proof {
        assert(bytes@.take(n as int) =~= bytes@);
    }
    (h % 12) as u32
}

/// Whether some reference in the list has the given kind.
pub open spec fn has_ref_of(refs: Seq<RefView>, t: RefType) -> bool {
    exists|i: int| 0 <= i < refs.len() && refs[i].ref_type == t
}

/// The node kind a commit's references give it: `Head` if any reference is
/// a HEAD, else `Stash` if any is a stash, else `Normal`.
pub open spec fn node_type_of(refs: Seq<RefView>) -> NodeType {
    if has_ref_of(refs, RefType::Head) {
        NodeType::Head
    } else if has_ref_of(refs, RefType::Stash) {
        NodeType::Stash
    } else {
        NodeType::Normal
    }
}

/// Determine the node kind for a commit from its references.
pub fn determine_node_type(node: &CommitNode) -> (r: NodeType)
    ensures
        r == node_type_of(node@.refs),
{
    let n = node.refs.len();
    let mut i: usize = 0;
    while i < n
        invariant
            i <= n,
            n == node.refs@.len(),
            forall|j: int| 0 <= j < i ==> node@.refs[j].ref_type != RefType::Head,
        decreases n - i,
    {
        proof {
            assert(node.refs@[i as int]@ == node@.refs[i as int]);
        }
        if node.refs[i].ref_type == RefType::Head {
            return NodeType::Head;
        }
        i += 1;
    }
    let mut k: usize = 0;
    while k < n
        invariant
            k <= n,
            n == node.refs@.len(),
            !has_ref_of(node@.refs, RefType::Head),
            forall|j: int| 0 <= j < k ==> node@.refs[j].ref_type != RefType::Stash,
        decreases n - k,
    {
        proof {
            assert(node.refs@[k as int]@ == node@.refs[k as int]);
        }
        if node.refs[k].ref_type == RefType::Stash {
            return NodeType::Stash;
        }
        k += 1;
    }
    NodeType::Normal
}

/// The name of the first branch or remote-branch reference, if any.
pub open spec fn first_branch_ref(refs: Seq<RefView>) -> Option<Seq<char>>
    decreases refs.len(),
{
    if refs.len() == 0 {
        None
    } else if refs[0].ref_type == RefType::Branch || refs[0].ref_type == RefType::RemoteBranch {
        Some(refs[0].name)
    } else {
        first_branch_ref(refs.skip(1))
    }
}

/// The color a commit gets: from a branch reference's name if it has one,
/// else the color already recorded for its lane, else from its own hash.
pub open spec fn color_spec(
    refs: Seq<RefView>,
    sha: Seq<char>,
    colors: Seq<Option<u32>>,
    parent_lane: Option<int>,
) -> u32 {
    match first_branch_ref(refs) {
        Some(name) => hash_name(name),
        None => match parent_lane {
            Some(l) => if 0 <= l < colors.len() && colors[l] is Some {
                colors[l]->0
            } else {
                hash_name(sha)
            },
            None => hash_name(sha),
        },
    }
}

/// Determine the color index for a commit.
pub fn determine_color_index(
    node: &CommitNode,
    lane_colors: &Vec<Option<u32>>,
    parent_lane: Option<usize>,
) -> (r: u32)
    ensures
        r == color_spec(
            node@.refs,
            node@.sha,
            lane_colors@,
            match parent_lane {
                Some(l) => Some(l as int),
                None => None,
            },
        ),
{
    let ghost all = node@.refs;
    let n = node.refs.len();
    let mut i: usize = 0;
    proof {
        assert(all.skip(0) =~= all);
    }
    while i < n
        invariant
            i <= n,
            n == node.refs@.len(),
            all == node@.refs,
            first_branch_ref(all) == first_branch_ref(all.skip(i as int)),
        decreases n - i,
    {
        proof {
            assert(node.refs@[i as int]@ == all[i as int]);
            assert(all.skip(i as int)[0] == all[i as int]);
            assert(all.skip(i as int).skip(1) =~= all.skip(i + 1));
        }
        let rt = node.refs[i].ref_type;
        if rt == RefType::Branch || rt == RefType::RemoteBranch {
            return hash_branch_name(node.refs[i].name.as_str());
        }
        i += 1;
    }
    proof {
        assert(all.skip(n as int) =~= Seq::<RefView>::empty());
    }
    if let Some(lane) = parent_lane {
        if lane < lane_colors.len() {
            if let Some(color) = lane_colors[lane] {
                return color;
            }
        }
    }
    hash_branch_name(node.sha.as_str())
}

/// Index of the lowest free lane, or the lane count if all are occupied.
pub open spec fn lowest_free(active: Seq<bool>) -> int
    decreases active.len(),
{
    if active.len() == 0 {
        0
    } else if !active[0] {
        0
    } else {
        1 + lowest_free(active.skip(1))
    }
}

pub proof fn lemma_lowest_free(active: Seq<bool>)
    ensures
        0 <= lowest_free(active) <= active.len(),
        lowest_free(active) < active.len() ==> !active[lowest_free(active)],
        forall|j: int| 0 <= j < lowest_free(active) ==> active[j],
    decreases active.len(),
{
    if active.len() > 0 && active[0] {
        lemma_lowest_free(active.skip(1));
        assert(forall|j: int| 1 <= j < lowest_free(active) ==> active.skip(1)[j - 1] == active[j]);
        let l = lowest_free(active);
        if l < active.len() {
            assert(active.skip(1)[l - 1] == active[l]);
        }
    }
}

/// If `p` is the first free slot, `lowest_free` finds it.
pub proof fn lemma_lowest_free_is(active: Seq<bool>, p: int)
    requires
        0 <= p <= active.len(),
        p < active.len() ==> !active[p],
        forall|j: int| 0 <= j < p ==> active[j],
    ensures
        lowest_free(active) == p,
    decreases p,
{
    if p > 0 {
        assert(active[0]);
        assert(forall|j: int| 0 <= j < p - 1 ==> active.skip(1)[j] == active[j + 1]);
        if p < active.len() {
            assert(active.skip(1)[p - 1] == active[p]);
        }
        lemma_lowest_free_is(active.skip(1), p - 1);
    }
}

/// Mark lane `l` occupied, growing by one lane when `l` is the lane count.
pub open spec fn occupy(active: Seq<bool>, l: int) -> Seq<bool> {
    if 0 <= l < active.len() {
        active.update(l, true)
    } else {
        active.push(true)
    }
}

/// Keep the color list as long as the lane list when a lane was added.
pub open spec fn grow_colors(colors: Seq<Option<u32>>, l: int) -> Seq<Option<u32>> {
    if l == colors.len() {
        colors.push(None)
    } else {
        colors
    }
}

/// Record `v` as the color of lane `l`.
pub open spec fn set_color_at(colors: Seq<Option<u32>>, l: int, v: u32) -> Seq<Option<u32>> {
    if 0 <= l < colors.len() {
        colors.update(l, Some(v))
    } else {
        colors
    }
}

/// Mark lane `l` free; out-of-range lanes are ignored.
pub open spec fn free_spec(active: Seq<bool>, l: int) -> Seq<bool> {
    if 0 <= l < active.len() {
        active.update(l, false)
    } else {
        active
    }
}

/// The color recorded for lane `l`, or `fallback` if none is.
pub open spec fn color_at(colors: Seq<Option<u32>>, l: int, fallback: u32) -> u32 {
    if 0 <= l < colors.len() && colors[l] is Some {
        colors[l]->0
    } else {
        fallback
    }
}

/// Allocate the lowest free lane, growing the lane and color lists by one
/// slot when every lane is occupied.
fn allocate_lane(active: &mut Vec<bool>, colors: &mut Vec<Option<u32>>) -> (lane: usize)
    requires
        old(active)@.len() == old(colors)@.len(),
    ensures
        lane as int == lowest_free(old(active)@),
        final(active)@ == occupy(old(active)@, lane as int),
        final(colors)@ == grow_colors(old(colors)@, lane as int),
        final(active)@.len() == final(colors)@.len(),
        lane < final(active)@.len(),
{
    let n = active.len();
    let mut i: usize = 0;
    while i < n
        invariant
            i <= n,
            n == active@.len(),
            n == colors@.len(),
            active@ == old(active)@,
            colors@ == old(colors)@,
            forall|j: int| 0 <= j < i ==> active@[j],
        decreases n - i,
    {
        if !active[i] {
            proof {
                lemma_lowest_free_is(active@, i as int);
            }
            active.set(i, true);
            return i;
        }
        i += 1;
    }
    proof {
        lemma_lowest_free_is(active@, n as int);
    }
    active.push(true);
    colors.push(None);
    n
}

/// Mark a lane free again.
fn release_lane(active: &mut Vec<bool>, lane: usize)
    ensures
        final(active)@ == free_spec(old(active)@, lane as int),
{
    if lane < active.len() {
        active.set(lane, false);
    }
}

/// The per-lane state the layout pass threads through the batch, together
/// with the output accumulated so far.
pub ghost struct LaneState {
    /// Lanes already promised to not-yet-visited commits, by hash.
    pub reserved: Map<Seq<char>, usize>,
    /// Which lane slots are occupied.
    pub active: Seq<bool>,
    /// The color last recorded for each lane.
    pub colors: Seq<Option<u32>>,
    /// The rows emitted so far.
    pub nodes: Seq<LayoutNodeView>,
    /// The edges drafted so far, target rows still unresolved.
    pub edges: Seq<EdgeView>,
}

/// The state before any commit is processed.
pub open spec fn init_state() -> LaneState {
    LaneState {
        reserved: Map::<Seq<char>, usize>::empty(),
        active: Seq::<bool>::empty(),
        colors: Seq::<Option<u32>>::empty(),
        nodes: Seq::<LayoutNodeView>::empty(),
        edges: Seq::<EdgeView>::empty(),
    }
}

/// Handle the merge parents of one commit, in parent-list order: a parent
/// with a reserved lane gets a merge edge to it; otherwise a fresh lane is
/// allocated, colored from the parent's hash, and reserved for it.
pub open spec fn merge_scan(
    st: LaneState,
    c_sha: Seq<char>,
    lane: int,
    row: int,
    color: u32,
    rest: Seq<Seq<char>>,
) -> LaneState
    decreases rest.len(),
{
    if rest.len() == 0 {
        st
    } else {
        let mp = rest[0];
        let st1 = if st.reserved.contains_key(mp) {
            let plane = st.reserved[mp] as int;
            LaneState {
                edges: st.edges.push(
                    EdgeView {
                        from_sha: c_sha,
                        to_sha: mp,
                        from_lane: clip32(lane),
                        to_lane: clip32(plane),
                        from_row: clip32(row),
                        to_row: -1,
                        edge_type: EdgeType::Merge,
                        color_index: color_at(st.colors, plane, color),
                    },
                ),
                ..st
            }
        } else {
            let ml = lowest_free(st.active);
            let mcolor = hash_name(mp);
            LaneState {
                reserved: st.reserved.insert(mp, ml as usize),
                active: occupy(st.active, ml),
                colors: set_color_at(grow_colors(st.colors, ml), ml, mcolor),
                nodes: st.nodes,
                edges: st.edges.push(
                    EdgeView {
                        from_sha: c_sha,
                        to_sha: mp,
                        from_lane: clip32(lane),
                        to_lane: clip32(ml),
                        from_row: clip32(row),
                        to_row: -1,
                        edge_type: EdgeType::Merge,
                        color_index: mcolor,
                    },
                ),
            }
        };
        merge_scan(st1, c_sha, lane, row, color, rest.skip(1))
    }
}

/// Process one commit: assign its lane and color, emit its row, then handle
/// its parents. A root frees its lane; a first parent either merges into an
/// already reserved lane or inherits this one; merge parents follow.
pub open spec fn layout_step(st: LaneState, c: CommitView, row: int) -> LaneState {
    let pre_reserved = st.reserved.contains_key(c.sha);
    let lane = if pre_reserved {
        st.reserved[c.sha] as int
    } else {
        lowest_free(st.active)
    };
    let active1 = if pre_reserved {
        st.active
    } else {
        occupy(st.active, lane)
    };
    let colors1 = if pre_reserved {
        st.colors
    } else {
        grow_colors(st.colors, lane)
    };
    let reserved1 = if pre_reserved {
        st.reserved
    } else {
        st.reserved.insert(c.sha, lane as usize)
    };
    let color = color_spec(c.refs, c.sha, colors1, Some(lane));
    let colors2 = set_color_at(colors1, lane, color);
    let node = LayoutNodeView {
        sha: c.sha,
        short_sha: c.short_sha,
        lane: clip32(lane),
        row: clip32(row),
        color_index: color,
        subject: c.subject,
        author_name: c.author_name,
        author_date: c.author_date,
        refs: c.refs,
        parents: c.parents,
        node_type: node_type_of(c.refs),
    };
    let nodes1 = st.nodes.push(node);
    if c.parents.len() == 0 {
        LaneState {
            reserved: reserved1.remove(c.sha),
            active: free_spec(active1, lane),
            colors: colors2,
            nodes: nodes1,
            edges: st.edges,
        }
    } else {
        let fp = c.parents[0];
        if reserved1.contains_key(fp) {
            let plane = reserved1[fp] as int;
            let e = EdgeView {
                from_sha: c.sha,
                to_sha: fp,
                from_lane: clip32(lane),
                to_lane: clip32(plane),
                from_row: clip32(row),
                to_row: -1,
                edge_type: EdgeType::Normal,
                color_index: color_at(colors2, plane, color),
            };
            let st1 = LaneState {
                reserved: reserved1.remove(c.sha),
                active: free_spec(active1, lane),
                colors: colors2,
                nodes: nodes1,
                edges: st.edges.push(e),
            };
            merge_scan(st1, c.sha, lane, row, color, c.parents.skip(1))
        } else {
            let e = EdgeView {
                from_sha: c.sha,
                to_sha: fp,
                from_lane: clip32(lane),
                to_lane: clip32(lane),
                from_row: clip32(row),
                to_row: -1,
                edge_type: EdgeType::Normal,
                color_index: color,
            };
            let st1 = LaneState {
                reserved: reserved1.remove(c.sha).insert(fp, lane as usize),
                active: active1,
                colors: colors2,
                nodes: nodes1,
                edges: st.edges.push(e),
            };
            merge_scan(st1, c.sha, lane, row, color, c.parents.skip(1))
        }
    }
}

/// The state after the first `n` commits.
pub open spec fn layout_upto(commits: Seq<CommitView>, n: int) -> LaneState
    decreases n,
{
    if n <= 0 {
        init_state()
    } else {
        layout_step(layout_upto(commits, n - 1), commits[n - 1], n - 1)
    }
}

/// The lane state is well formed: the color list covers the lanes, and
/// every reserved lane is a real lane.
pub open spec fn state_wf(st: LaneState) -> bool {
    &&& st.colors.len() == st.active.len()
    &&& forall|k: Seq<char>|
        #[trigger] st.reserved.contains_key(k) ==> (st.reserved[k] as int) < st.active.len()
}

pub proof fn lemma_merge_scan_wf(
    st: LaneState,
    c_sha: Seq<char>,
    lane: int,
    row: int,
    color: u32,
    rest: Seq<Seq<char>>,
)
    requires
        state_wf(st),
    ensures
        state_wf(merge_scan(st, c_sha, lane, row, color, rest)),
        merge_scan(st, c_sha, lane, row, color, rest).nodes == st.nodes,
        merge_scan(st, c_sha, lane, row, color, rest).active.len() >= st.active.len(),
    decreases rest.len(),
{
    if rest.len() > 0 {
        let mp = rest[0];
        if st.reserved.contains_key(mp) {
            let st1 = merge_scan_first(st, c_sha, lane, row, color, rest);
            lemma_merge_scan_wf(st1, c_sha, lane, row, color, rest.skip(1));
        } else {
            let ml = lowest_free(st.active);
            lemma_lowest_free(st.active);
            let st1 = merge_scan_first(st, c_sha, lane, row, color, rest);
            assert(state_wf(st1));
            lemma_merge_scan_wf(st1, c_sha, lane, row, color, rest.skip(1));
        }
    }
}

/// The state after the first merge parent of `rest` is handled.
pub open spec fn merge_scan_first(
    st: LaneState,
    c_sha: Seq<char>,
    lane: int,
    row: int,
    color: u32,
    rest: Seq<Seq<char>>,
) -> LaneState
    recommends
        rest.len() > 0,
{
    let mp = rest[0];
    if st.reserved.contains_key(mp) {
        let plane = st.reserved[mp] as int;
        LaneState {
            edges: st.edges.push(
                EdgeView {
                    from_sha: c_sha,
                    to_sha: mp,
                    from_lane: clip32(lane),
                    to_lane: clip32(plane),
                    from_row: clip32(row),
                    to_row: -1,
                    edge_type: EdgeType::Merge,
                    color_index: color_at(st.colors, plane, color),
                },
            ),
            ..st
        }
    } else {
        let ml = lowest_free(st.active);
        let mcolor = hash_name(mp);
        LaneState {
            reserved: st.reserved.insert(mp, ml as usize),
            active: occupy(st.active, ml),
            colors: set_color_at(grow_colors(st.colors, ml), ml, mcolor),
            nodes: st.nodes,
            edges: st.edges.push(
                EdgeView {
                    from_sha: c_sha,
                    to_sha: mp,
                    from_lane: clip32(lane),
                    to_lane: clip32(ml),
                    from_row: clip32(row),
                    to_row: -1,
                    edge_type: EdgeType::Merge,
                    color_index: mcolor,
                },
            ),
        }
    }
}

/// One unfolding of [`merge_scan`].
pub proof fn lemma_merge_scan_unfold(
    st: LaneState,
    c_sha: Seq<char>,
    lane: int,
    row: int,
    color: u32,
    rest: Seq<Seq<char>>,
)
    requires
        rest.len() > 0,
    ensures
        merge_scan(st, c_sha, lane, row, color, rest) == merge_scan(
            merge_scan_first(st, c_sha, lane, row, color, rest),
            c_sha,
            lane,
            row,
            color,
            rest.skip(1),
        ),
{
}

pub proof fn lemma_step_wf(st: LaneState, c: CommitView, row: int)
    requires
        state_wf(st),
    ensures
        state_wf(layout_step(st, c, row)),
        layout_step(st, c, row).nodes.len() == st.nodes.len() + 1,
{
    lemma_lowest_free(st.active);
    let pre_reserved = st.reserved.contains_key(c.sha);
    let lane = if pre_reserved {
        st.reserved[c.sha] as int
    } else {
        lowest_free(st.active)
    };
    let active1 = if pre_reserved {
        st.active
    } else {
        occupy(st.active, lane)
    };
    let colors1 = if pre_reserved {
        st.colors
    } else {
        grow_colors(st.colors, lane)
    };
    let reserved1 = if pre_reserved {
        st.reserved
    } else {
        st.reserved.insert(c.sha, lane as usize)
    };
    let color = color_spec(c.refs, c.sha, colors1, Some(lane));
    let colors2 = set_color_at(colors1, lane, color);
    if c.parents.len() == 0 {
    } else {
        let pm = layout_step_pre_merge(st, c, row);
        assert(state_wf(pm));
        lemma_step_unfold(st, c, row);
        lemma_merge_scan_wf(pm, c.sha, lane, row, color, c.parents.skip(1));
        assert(pm.nodes.len() == st.nodes.len() + 1);
    }
}

/// The row [`layout_step`] emits for `c`.
pub open spec fn layout_step_node(st: LaneState, c: CommitView, row: int) -> LayoutNodeView {
    let pre_reserved = st.reserved.contains_key(c.sha);
    let lane = if pre_reserved {
        st.reserved[c.sha] as int
    } else {
        lowest_free(st.active)
    };
    let colors1 = if pre_reserved {
        st.colors
    } else {
        grow_colors(st.colors, lane)
    };
    let color = color_spec(c.refs, c.sha, colors1, Some(lane));
    LayoutNodeView {
        sha: c.sha,
        short_sha: c.short_sha,
        lane: clip32(lane),
        row: clip32(row),
        color_index: color,
        subject: c.subject,
        author_name: c.author_name,
        author_date: c.author_date,
        refs: c.refs,
        parents: c.parents,
        node_type: node_type_of(c.refs),
    }
}

/// The state [`layout_step`] hands to the merge-parent scan: everything up
/// to and including the first-parent edge.
pub open spec fn layout_step_pre_merge(st: LaneState, c: CommitView, row: int) -> LaneState
    recommends
        c.parents.len() > 0,
{
    let pre_reserved = st.reserved.contains_key(c.sha);
    let lane = if pre_reserved {
        st.reserved[c.sha] as int
    } else {
        lowest_free(st.active)
    };
    let active1 = if pre_reserved {
        st.active
    } else {
        occupy(st.active, lane)
    };
    let colors1 = if pre_reserved {
        st.colors
    } else {
        grow_colors(st.colors, lane)
    };
    let reserved1 = if pre_reserved {
        st.reserved
    } else {
        st.reserved.insert(c.sha, lane as usize)
    };
    let color = color_spec(c.refs, c.sha, colors1, Some(lane));
    let colors2 = set_color_at(colors1, lane, color);
    let nodes1 = st.nodes.push(layout_step_node(st, c, row));
    let fp = c.parents[0];
    if reserved1.contains_key(fp) {
        let plane = reserved1[fp] as int;
        LaneState {
            reserved: reserved1.remove(c.sha),
            active: free_spec(active1, lane),
            colors: colors2,
            nodes: nodes1,
            edges: st.edges.push(
                EdgeView {
                    from_sha: c.sha,
                    to_sha: fp,
                    from_lane: clip32(lane),
                    to_lane: clip32(plane),
                    from_row: clip32(row),
                    to_row: -1,
                    edge_type: EdgeType::Normal,
                    color_index: color_at(colors2, plane, color),
                },
            ),
        }
    } else {
        LaneState {
            reserved: reserved1.remove(c.sha).insert(fp, lane as usize),
            active: active1,
            colors: colors2,
            nodes: nodes1,
            edges: st.edges.push(
                EdgeView {
                    from_sha: c.sha,
                    to_sha: fp,
                    from_lane: clip32(lane),
                    to_lane: clip32(lane),
                    from_row: clip32(row),
                    to_row: -1,
                    edge_type: EdgeType::Normal,
                    color_index: color,
                },
            ),
        }
    }
}

/// For a commit with parents, the step is the pre-merge state continued by
/// the merge-parent scan.
pub proof fn lemma_step_unfold(st: LaneState, c: CommitView, row: int)
    requires
        c.parents.len() > 0,
    ensures
        layout_step(st, c, row) == merge_scan(
            layout_step_pre_merge(st, c, row),
            c.sha,
            (if st.reserved.contains_key(c.sha) {
                st.reserved[c.sha] as int
            } else {
                lowest_free(st.active)
            }),
            row,
            (if st.reserved.contains_key(c.sha) {
                color_spec(c.refs, c.sha, st.colors, Some(st.reserved[c.sha] as int))
            } else {
                color_spec(
                    c.refs,
                    c.sha,
                    grow_colors(st.colors, lowest_free(st.active)),
                    Some(lowest_free(st.active)),
                )
            }),
            c.parents.skip(1),
        ),
{
}

pub proof fn lemma_upto_wf(commits: Seq<CommitView>, n: int)
    requires
        0 <= n <= commits.len(),
    ensures
        state_wf(layout_upto(commits, n)),
        layout_upto(commits, n).nodes.len() == n,
    decreases n,
{
    if n > 0 {
        lemma_upto_wf(commits, n - 1);
        lemma_step_wf(layout_upto(commits, n - 1), commits[n - 1], n - 1);
    }
}

/// The edges with their target rows and lanes resolved: an edge whose
/// target hash is not in the index is dropped; a resolved edge's target row
/// is the target's row, and its target lane is read off the node emitted at
/// that row.
pub open spec fn resolve_edges(
    edges: Seq<EdgeView>,
    m: Map<Seq<char>, usize>,
    nodes: Seq<LayoutNodeView>,
) -> Seq<EdgeView>
    decreases edges.len(),
{
    if edges.len() == 0 {
        Seq::<EdgeView>::empty()
    } else {
        let e = edges[0];
        let rest = resolve_edges(edges.skip(1), m, nodes);
        if m.contains_key(e.to_sha) {
            let r = m[e.to_sha] as int;
            let tl = if 0 <= r < nodes.len() {
                nodes[r].lane
            } else {
                e.to_lane
            };
            seq![EdgeView { to_row: clip32(r), to_lane: tl, ..e }] + rest
        } else {
            rest
        }
    }
}

/// The views of a sequence of commits.
pub open spec fn views_of(s: Seq<CommitNode>) -> Seq<CommitView> {
    s.map_values(|c: CommitNode| c@)
}

/// What the layout engine computes for a batch in display order.
pub open spec fn spec_compute_layout(commits: Seq<CommitView>) -> LayoutResultView {
    if commits.len() == 0 {
        LayoutResultView {
            nodes: Seq::<LayoutNodeView>::empty(),
            edges: Seq::<EdgeView>::empty(),
            total_count: 0,
        }
    } else {
        let st = layout_upto(commits, commits.len() as int);
        LayoutResultView {
            nodes: st.nodes,
            edges: resolve_edges(st.edges, sha_index_map(commits), st.nodes),
            total_count: commits.len() as int,
        }
    }
}

/// Every row the hash index names is a real row.
pub proof fn lemma_sha_index_range(commits: Seq<CommitView>)
    ensures
        forall|k: Seq<char>|
            #[trigger] sha_index_map(commits).contains_key(k) ==> (sha_index_map(commits)[k] as int)
                < commits.len(),
    decreases commits.len(),
{
    if commits.len() > 0 {
        lemma_sha_index_range(commits.drop_last());
        let m0 = sha_index_map(commits.drop_last());
        let m = sha_index_map(commits);
        assert forall|k: Seq<char>| #[trigger] m.contains_key(k) implies (m[k] as int)
            < commits.len() by {
            if k != commits.last().sha {
                assert(m0.contains_key(k));
                assert(m[k] == m0[k]);
            }
        }
    }
}

/// What identifies a drafted edge independently of lanes and colors.
pub ghost struct EdgeCore {
    pub from_sha: Seq<char>,
    pub to_sha: Seq<char>,
    pub from_row: int,
    pub edge_type: EdgeType,
}

pub open spec fn core_of(e: EdgeView) -> EdgeCore {
    EdgeCore { from_sha: e.from_sha, to_sha: e.to_sha, from_row: e.from_row, edge_type: e.edge_type }
}

/// The edges one commit drafts: one `Normal` edge aimed at its first
/// parent, then one `Merge` edge per additional parent, in parent order.
pub open spec fn commit_cores(c: CommitView, row: int) -> Seq<EdgeCore> {
    c.parents.map(
        |i: int, p: Seq<char>|
            EdgeCore {
                from_sha: c.sha,
                to_sha: p,
                from_row: clip32(row),
                edge_type: if i == 0 {
                    EdgeType::Normal
                } else {
                    EdgeType::Merge
                },
            },
    )
}

/// The edges the first `n` commits draft, in batch order.
pub open spec fn batch_cores(commits: Seq<CommitView>, n: int) -> Seq<EdgeCore>
    decreases n,
{
    if n <= 0 {
        Seq::<EdgeCore>::empty()
    } else {
        batch_cores(commits, n - 1) + commit_cores(commits[n - 1], n - 1)
    }
}

proof fn lemma_merge_scan_edges(
    st: LaneState,
    c_sha: Seq<char>,
    lane: int,
    row: int,
    color: u32,
    rest: Seq<Seq<char>>,
)
    ensures
        merge_scan(st, c_sha, lane, row, color, rest).edges.map_values(|e: EdgeView| core_of(e))
            == st.edges.map_values(|e: EdgeView| core_of(e)) + rest.map_values(
            |p: Seq<char>|
                EdgeCore {
                    from_sha: c_sha,
                    to_sha: p,
                    from_row: clip32(row),
                    edge_type: EdgeType::Merge,
                },
        ),
    decreases rest.len(),
{
    let cf = (|e: EdgeView| core_of(e));
    let mf = (|p: Seq<char>|
        EdgeCore { from_sha: c_sha, to_sha: p, from_row: clip32(row), edge_type: EdgeType::Merge });
    if rest.len() == 0 {
        assert(rest.map_values(mf) =~= Seq::<EdgeCore>::empty());
        assert(st.edges.map_values(cf) + Seq::<EdgeCore>::empty() =~= st.edges.map_values(cf));
    } else {
        let st1 = merge_scan_first(st, c_sha, lane, row, color, rest);
        lemma_merge_scan_unfold(st, c_sha, lane, row, color, rest);
        lemma_merge_scan_edges(st1, c_sha, lane, row, color, rest.skip(1));
        assert(st1.edges.map_values(cf) =~= st.edges.map_values(cf) + seq![mf(rest[0])]);
        assert(rest.skip(1).map_values(mf) =~= rest.map_values(mf).skip(1));
        assert(rest.map_values(mf) =~= seq![mf(rest[0])] + rest.map_values(mf).skip(1));
        assert(st.edges.map_values(cf) + rest.map_values(mf) =~= (st.edges.map_values(cf) + seq![
            mf(rest[0]),
        ]) + rest.skip(1).map_values(mf));
    }
}

proof fn lemma_step_edges(st: LaneState, c: CommitView, row: int)
    ensures
        layout_step(st, c, row).edges.map_values(|e: EdgeView| core_of(e)) == st.edges.map_values(
            |e: EdgeView| core_of(e),
        ) + commit_cores(c, row),
{
    let cf = (|e: EdgeView| core_of(e));
    if c.parents.len() == 0 {
        assert(commit_cores(c, row) =~= Seq::<EdgeCore>::empty());
        assert(st.edges.map_values(cf) + Seq::<EdgeCore>::empty() =~= st.edges.map_values(cf));
    } else {
        let pm = layout_step_pre_merge(st, c, row);
        lemma_step_unfold(st, c, row);
        let lane = if st.reserved.contains_key(c.sha) {
            st.reserved[c.sha] as int
        } else {
            lowest_free(st.active)
        };
        let color = if st.reserved.contains_key(c.sha) {
            color_spec(c.refs, c.sha, st.colors, Some(st.reserved[c.sha] as int))
        } else {
            color_spec(
                c.refs,
                c.sha,
                grow_colors(st.colors, lowest_free(st.active)),
                Some(lowest_free(st.active)),
            )
        };
        lemma_merge_scan_edges(pm, c.sha, lane, row, color, c.parents.skip(1));
        let mf = (|p: Seq<char>|
            EdgeCore {
                from_sha: c.sha,
                to_sha: p,
                from_row: clip32(row),
                edge_type: EdgeType::Merge,
            });
        let head = EdgeCore {
            from_sha: c.sha,
            to_sha: c.parents[0],
            from_row: clip32(row),
            edge_type: EdgeType::Normal,
        };
        assert(pm.edges.map_values(cf) =~= st.edges.map_values(cf) + seq![head]);
        assert(commit_cores(c, row) =~= seq![head] + c.parents.skip(1).map_values(mf));
        assert((st.edges.map_values(cf) + seq![head]) + c.parents.skip(1).map_values(mf)
            =~= st.edges.map_values(cf) + commit_cores(c, row));
    }
}

/// Law: the drafted edges of a batch are exactly, in order, each commit's
/// one `Normal` edge to its first parent followed by one `Merge` edge per
/// additional parent.
pub proof fn lemma_edge_structure(commits: Seq<CommitView>, n: int)
    requires
        0 <= n <= commits.len(),
    ensures
        layout_upto(commits, n).edges.map_values(|e: EdgeView| core_of(e)) == batch_cores(
            commits,
            n,
        ),
    decreases n,
{
    let cf = (|e: EdgeView| core_of(e));
    if n == 0 {
        assert(layout_upto(commits, 0).edges.map_values(cf) =~= batch_cores(commits, 0));
    } else {
        lemma_edge_structure(commits, n - 1);
        lemma_step_edges(layout_upto(commits, n - 1), commits[n - 1], n - 1);
    }
}

/// How many of these hashes the index holds, counted with multiplicity.
pub open spec fn count_in(shas: Seq<Seq<char>>, m: Map<Seq<char>, usize>) -> int
    decreases shas.len(),
{
    if shas.len() == 0 {
        0
    } else {
        (if m.contains_key(shas[0]) {
            1int
        } else {
            0int
        }) + count_in(shas.skip(1), m)
    }
}

/// The finalized edge count is the number of drafted edges whose target
/// hash the index holds.
proof fn lemma_resolve_len(
    edges: Seq<EdgeView>,
    m: Map<Seq<char>, usize>,
    nodes: Seq<LayoutNodeView>,
)
    ensures
        resolve_edges(edges, m, nodes).len() == count_in(
            edges.map_values(|e: EdgeView| e.to_sha),
            m,
        ),
    decreases edges.len(),
{
    let ts = (|e: EdgeView| e.to_sha);
    if edges.len() == 0 {
        assert(edges.map_values(ts) =~= Seq::<Seq<char>>::empty());
    } else {
        lemma_resolve_len(edges.skip(1), m, nodes);
        assert(edges.map_values(ts)[0] == edges[0].to_sha);
        assert(edges.map_values(ts).skip(1) =~= edges.skip(1).map_values(ts));
    }
}

proof fn lemma_count_in_concat(a: Seq<Seq<char>>, b: Seq<Seq<char>>, m: Map<Seq<char>, usize>)
    ensures
        count_in(a + b, m) == count_in(a, m) + count_in(b, m),
    decreases a.len(),
{
    if a.len() == 0 {
        assert(a + b =~= b);
    } else {
        assert((a + b)[0] == a[0]);
        assert((a + b).skip(1) =~= a.skip(1) + b);
        lemma_count_in_concat(a.skip(1), b, m);
    }
}

/// The sum, over the first `n` commits, of how many of each commit's
/// parents the index holds.
pub open spec fn total_present(commits: Seq<CommitView>, m: Map<Seq<char>, usize>, n: int) -> int
    decreases n,
{
    if n <= 0 {
        0
    } else {
        total_present(commits, m, n - 1) + count_in(commits[n - 1].parents, m)
    }
}

proof fn lemma_batch_count(commits: Seq<CommitView>, m: Map<Seq<char>, usize>, n: int)
    requires
        0 <= n <= commits.len(),
    ensures
        count_in(batch_cores(commits, n).map_values(|ec: EdgeCore| ec.to_sha), m) == total_present(
            commits,
            m,
            n,
        ),
    decreases n,
{
    let ts = (|ec: EdgeCore| ec.to_sha);
    if n > 0 {
        lemma_batch_count(commits, m, n - 1);
        let a = batch_cores(commits, n - 1);
        let b = commit_cores(commits[n - 1], n - 1);
        assert((a + b).map_values(ts) =~= a.map_values(ts) + b.map_values(ts));
        lemma_count_in_concat(a.map_values(ts), b.map_values(ts), m);
        assert(b.map_values(ts) =~= commits[n - 1].parents);
        assert(count_in(b.map_values(ts), m) == count_in(commits[n - 1].parents, m));
    }
}

/// Law: the finalized layout has exactly one edge for every parent link
/// whose target commit is present in the batch — for a merge commit, its
/// `Normal` first-parent edge plus one `Merge` edge per additional parent,
/// each kept exactly when that parent is in the batch.
pub proof fn lemma_merge_edge_count(commits: Seq<CommitView>)
    ensures
        spec_compute_layout(commits).edges.len() == total_present(
            commits,
            sha_index_map(commits),
            commits.len() as int,
        ),
{
    let n = commits.len() as int;
    let m = sha_index_map(commits);
    if n == 0 {
    } else {
        let st = layout_upto(commits, n);
        lemma_edge_structure(commits, n);
        lemma_resolve_len(st.edges, m, st.nodes);
        let cf = (|e: EdgeView| core_of(e));
        let ts = (|e: EdgeView| e.to_sha);
        let tsc = (|ec: EdgeCore| ec.to_sha);
        assert(st.edges.map_values(ts) =~= st.edges.map_values(cf).map_values(tsc));
        lemma_batch_count(commits, m, n);
    }
}

/// Merge-parent handling never touches the rows already emitted.
proof fn lemma_merge_scan_nodes(
    st: LaneState,
    c_sha: Seq<char>,
    lane: int,
    row: int,
    color: u32,
    rest: Seq<Seq<char>>,
)
    ensures
        merge_scan(st, c_sha, lane, row, color, rest).nodes == st.nodes,
    decreases rest.len(),
{
    if rest.len() > 0 {
        lemma_merge_scan_unfold(st, c_sha, lane, row, color, rest);
        lemma_merge_scan_nodes(
            merge_scan_first(st, c_sha, lane, row, color, rest),
            c_sha,
            lane,
            row,
            color,
            rest.skip(1),
        );
    }
}

/// The rows carry the commits' hashes, in batch order.
pub proof fn lemma_upto_node_shas(commits: Seq<CommitView>, n: int)
    requires
        0 <= n <= commits.len(),
    ensures
        layout_upto(commits, n).nodes.len() == n,
        forall|i: int|
            0 <= i < n ==> (#[trigger] layout_upto(commits, n).nodes[i]).sha == commits[i].sha,
    decreases n,
{
    if n > 0 {
        lemma_upto_node_shas(commits, n - 1);
        let st = layout_upto(commits, n - 1);
        let c = commits[n - 1];
        if c.parents.len() > 0 {
            lemma_step_unfold(st, c, n - 1);
            let lane = if st.reserved.contains_key(c.sha) {
                st.reserved[c.sha] as int
            } else {
                lowest_free(st.active)
            };
            let color = if st.reserved.contains_key(c.sha) {
                color_spec(c.refs, c.sha, st.colors, Some(st.reserved[c.sha] as int))
            } else {
                color_spec(
                    c.refs,
                    c.sha,
                    grow_colors(st.colors, lowest_free(st.active)),
                    Some(lowest_free(st.active)),
                )
            };
            lemma_merge_scan_nodes(
                layout_step_pre_merge(st, c, n - 1),
                c.sha,
                lane,
                n - 1,
                color,
                c.parents.skip(1),
            );
        }
    }
}

/// Every hash the index holds is some commit's hash, and every commit's
/// hash is held.
pub proof fn lemma_sha_index_keys(commits: Seq<CommitView>)
    ensures
        forall|i: int|
            0 <= i < commits.len() ==> sha_index_map(commits).contains_key(
                (#[trigger] commits[i]).sha,
            ),
        forall|k: Seq<char>|
            #[trigger] sha_index_map(commits).contains_key(k) ==> exists|i: int|
                0 <= i < commits.len() && commits[i].sha == k,
    decreases commits.len(),
{
    if commits.len() > 0 {
        lemma_sha_index_keys(commits.drop_last());
        let m0 = sha_index_map(commits.drop_last());
        let m = sha_index_map(commits);
        assert(forall|i: int| 0 <= i < commits.len() - 1 ==> commits.drop_last()[i] == commits[i]);
        assert forall|i: int| 0 <= i < commits.len() implies m.contains_key(
            (#[trigger] commits[i]).sha,
        ) by {
            if i < commits.len() - 1 {
                assert(m0.contains_key(commits.drop_last()[i].sha));
            }
        }
        assert forall|k: Seq<char>| #[trigger] m.contains_key(k) implies exists|i: int|
            0 <= i < commits.len() && commits[i].sha == k by {
            if k != commits.last().sha {
                assert(m0.contains_key(k));
                let i = choose|i: int|
                    0 <= i < commits.drop_last().len() && commits.drop_last()[i].sha == k;
                assert(commits[i].sha == k);
            } else {
                assert(commits[commits.len() - 1].sha == k);
            }
        }
    }
}

/// Every drafted edge leaves from some processed commit's hash.
proof fn lemma_batch_cores_from(commits: Seq<CommitView>, n: int)
    requires
        0 <= n <= commits.len(),
    ensures
        forall|j: int|
            0 <= j < batch_cores(commits, n).len() ==> exists|k: int|
                0 <= k < n && (#[trigger] batch_cores(commits, n)[j]).from_sha == commits[k].sha,
    decreases n,
{
    if n > 0 {
        lemma_batch_cores_from(commits, n - 1);
        let a = batch_cores(commits, n - 1);
        let b = commit_cores(commits[n - 1], n - 1);
        assert forall|j: int| 0 <= j < batch_cores(commits, n).len() implies exists|k: int|
            0 <= k < n && (#[trigger] batch_cores(commits, n)[j]).from_sha == commits[k].sha by {
            if j < a.len() {
                assert(batch_cores(commits, n)[j] == a[j]);
                let k = choose|k: int| 0 <= k < n - 1 && a[j].from_sha == commits[k].sha;
                assert(batch_cores(commits, n)[j].from_sha == commits[k].sha);
            } else {
                assert(batch_cores(commits, n)[j] == b[j - a.len()]);
                assert(b[j - a.len()].from_sha == commits[n - 1].sha);
            }
        }
    }
}

/// Each finalized edge keeps the hashes of a drafted edge whose target the
/// index holds.
proof fn lemma_resolve_elements(
    edges: Seq<EdgeView>,
    m: Map<Seq<char>, usize>,
    nodes: Seq<LayoutNodeView>,
)
    ensures
        forall|i: int|
            0 <= i < resolve_edges(edges, m, nodes).len() ==> exists|j: int|
                0 <= j < edges.len() && (#[trigger] resolve_edges(edges, m, nodes)[i]).from_sha
                    == edges[j].from_sha && resolve_edges(edges, m, nodes)[i].to_sha
                    == edges[j].to_sha && m.contains_key(edges[j].to_sha),
    decreases edges.len(),
{
    if edges.len() > 0 {
        lemma_resolve_elements(edges.skip(1), m, nodes);
        let res = resolve_edges(edges, m, nodes);
        let rest = resolve_edges(edges.skip(1), m, nodes);
        assert forall|i: int| 0 <= i < res.len() implies exists|j: int|
            0 <= j < edges.len() && (#[trigger] res[i]).from_sha == edges[j].from_sha
                && res[i].to_sha == edges[j].to_sha && m.contains_key(edges[j].to_sha) by {
            if m.contains_key(edges[0].to_sha) {
                if i == 0 {
                    assert(res[0].from_sha == edges[0].from_sha);
                    assert(res[0].to_sha == edges[0].to_sha);
                } else {
                    assert(res[i] == rest[i - 1]);
                    let j = choose|j: int|
                        0 <= j < edges.skip(1).len() && rest[i - 1].from_sha == edges.skip(
                            1,
                        )[j].from_sha && rest[i - 1].to_sha == edges.skip(1)[j].to_sha
                            && m.contains_key(edges.skip(1)[j].to_sha);
                    assert(edges.skip(1)[j] == edges[j + 1]);
                }
            } else {
                assert(res[i] == rest[i]);
                let j = choose|j: int|
                    0 <= j < edges.skip(1).len() && rest[i].from_sha == edges.skip(1)[j].from_sha
                        && rest[i].to_sha == edges.skip(1)[j].to_sha && m.contains_key(
                        edges.skip(1)[j].to_sha,
                    );
                assert(edges.skip(1)[j] == edges[j + 1]);
            }
        }
    }
}

/// Law: what the engine emits is closed — the cached count is the node
/// count, and every finalized edge joins hashes that appear among the
/// nodes. With the unconstrained-range law this gives the filter's
/// idempotence on every layout the engine computes.
pub proof fn lemma_compute_layout_closed(commits: Seq<CommitView>)
    ensures
        crate::filter::layout_closed(spec_compute_layout(commits)),
{
    let n = commits.len() as int;
    let lv = spec_compute_layout(commits);
    if n == 0 {
    } else {
        let st = layout_upto(commits, n);
        let m = sha_index_map(commits);
        lemma_upto_node_shas(commits, n);
        lemma_edge_structure(commits, n);
        lemma_batch_cores_from(commits, n);
        lemma_resolve_elements(st.edges, m, st.nodes);
        lemma_sha_index_keys(commits);
        let cf = (|e: EdgeView| core_of(e));
        assert forall|i: int| 0 <= i < lv.edges.len() implies crate::filter::node_sha_present(
            lv.nodes,
            (#[trigger] lv.edges[i]).from_sha,
        ) && crate::filter::node_sha_present(lv.nodes, lv.edges[i].to_sha) by {
            let j = choose|j: int|
                0 <= j < st.edges.len() && lv.edges[i].from_sha == st.edges[j].from_sha
                    && lv.edges[i].to_sha == st.edges[j].to_sha && m.contains_key(
                    st.edges[j].to_sha,
                );
            assert(st.edges.map_values(cf)[j] == batch_cores(commits, n)[j]);
            assert(core_of(st.edges[j]).from_sha == st.edges[j].from_sha);
            let k = choose|k: int|
                0 <= k < n && batch_cores(commits, n)[j].from_sha == commits[k].sha;
            assert(lv.nodes[k].sha == commits[k].sha);
            assert(lv.nodes[k].sha == lv.edges[i].from_sha);
            let t = choose|t: int| 0 <= t < commits.len() && commits[t].sha == st.edges[j].to_sha;
            assert(lv.nodes[t].sha == lv.edges[i].to_sha);
        }
    }
}

/// Law: a batch forming one linear chain — each commit's single parent is
/// the next commit, the last a root, hashes distinct — lays out every
/// commit on lane zero and yields exactly one edge per adjacent pair.
pub proof fn lemma_linear_chain(commits: Seq<CommitView>)
    requires
        commits.len() >= 1,
        forall|i: int, j: int| 0 <= i < j < commits.len() ==> commits[i].sha != commits[j].sha,
        forall|i: int|
            0 <= i < commits.len() - 1 ==> (#[trigger] commits[i].parents) == seq![
                commits[i + 1].sha,
            ],
        commits[commits.len() - 1].parents.len() == 0,
    ensures
        spec_compute_layout(commits).nodes.len() == commits.len(),
        forall|i: int|
            0 <= i < commits.len() ==> (#[trigger] spec_compute_layout(commits).nodes[i]).lane
                == 0,
        spec_compute_layout(commits).edges.len() == commits.len() - 1,
{
    let n = commits.len() as int;
    let m = sha_index_map(commits);
    if n == 1 {
        let st1 = layout_upto(commits, 1);
        assert(layout_upto(commits, 0) == init_state());
        assert(st1 == layout_step(init_state(), commits[0], 0));
        assert(st1.nodes.len() == 1);
        assert(st1.nodes[0].lane == clip32(0));
        assert(st1.edges.len() == 0);
        lemma_resolve_len(st1.edges, m, st1.nodes);
        assert(st1.edges.map_values(|e: EdgeView| e.to_sha) =~= Seq::<Seq<char>>::empty());
    } else {
        lemma_chain_state(commits, n - 1);
        let st = layout_upto(commits, n - 1);
        let c = commits[n - 1];
        assert(st.reserved.contains_key(c.sha));
        assert(st.reserved[c.sha] == 0usize);
        assert(c.parents.len() == 0);
        let stf = layout_upto(commits, n);
        assert(stf == layout_step(st, c, n - 1));
        assert(stf.nodes =~= st.nodes.push(layout_step_node(st, c, n - 1)));
        assert(stf.nodes.len() == n);
        assert forall|i: int| 0 <= i < n implies (#[trigger] stf.nodes[i]).lane == 0 by {
            if i < n - 1 {
                assert(stf.nodes[i] == st.nodes[i]);
            } else {
                assert(stf.nodes[i] == layout_step_node(st, c, n - 1));
                assert(clip32(0) == 0);
            }
        }
        assert(stf.edges == st.edges);
        assert(stf.edges.len() == n - 1);
        // Every edge aims at the next commit, which the index holds.
        lemma_resolve_len(stf.edges, m, stf.nodes);
        lemma_sha_index_keys(commits);
        lemma_chain_edges_count(stf.edges.map_values(|e: EdgeView| e.to_sha), m);
    }
}

/// If the index holds every hash in the list, it counts them all.
proof fn lemma_chain_edges_count(shas: Seq<Seq<char>>, m: Map<Seq<char>, usize>)
    requires
        forall|i: int| 0 <= i < shas.len() ==> m.contains_key(#[trigger] shas[i]),
    ensures
        count_in(shas, m) == shas.len(),
    decreases shas.len(),
{
    if shas.len() > 0 {
        assert(forall|i: int| 0 <= i < shas.skip(1).len() ==> shas.skip(1)[i] == shas[i + 1]);
        lemma_chain_edges_count(shas.skip(1), m);
    }
}

/// In a linear chain, after `k` of the commits are processed the single
/// lane is occupied, the next commit holds its reservation, every row sits
/// on lane zero, and each processed commit has drafted its one edge, aimed
/// at the commit after it.
proof fn lemma_chain_state(commits: Seq<CommitView>, k: int)
    requires
        commits.len() >= 2,
        1 <= k <= commits.len() - 1,
        forall|i: int, j: int| 0 <= i < j < commits.len() ==> commits[i].sha != commits[j].sha,
        forall|i: int|
            0 <= i < commits.len() - 1 ==> (#[trigger] commits[i].parents) == seq![
                commits[i + 1].sha,
            ],
        commits[commits.len() - 1].parents.len() == 0,
    ensures
        layout_upto(commits, k).reserved =~= Map::<Seq<char>, usize>::empty().insert(
            commits[k].sha,
            0usize,
        ),
        layout_upto(commits, k).active =~= seq![true],
        layout_upto(commits, k).nodes.len() == k,
        forall|i: int| 0 <= i < k ==> (#[trigger] layout_upto(commits, k).nodes[i]).lane == 0,
        layout_upto(commits, k).edges.len() == k,
        forall|i: int|
            0 <= i < k ==> (#[trigger] layout_upto(commits, k).edges[i]).to_sha == commits[i
                + 1].sha,
    decreases k,
{
    if k == 1 {
        let st1 = layout_upto(commits, 1);
        assert(layout_upto(commits, 0) == init_state());
        assert(st1 == layout_step(init_state(), commits[0], 0));
        assert(commits[0].parents == seq![commits[1].sha]);
        assert(commits[0].parents[0] == commits[1].sha);
        assert(commits[0].sha != commits[1].sha);
        assert(lowest_free(Seq::<bool>::empty()) == 0);
        assert(occupy(Seq::<bool>::empty(), 0) =~= seq![true]);
        assert(commits[0].parents.skip(1) =~= Seq::<Seq<char>>::empty());
        assert(st1.reserved =~= Map::<Seq<char>, usize>::empty().insert(commits[1].sha, 0usize));
        assert(st1.active =~= seq![true]);
        assert(st1.nodes.len() == 1);
        assert(st1.nodes[0].lane == clip32(0));
        assert(st1.edges.len() == 1);
        assert(st1.edges[0].to_sha == commits[1].sha);
    } else {
        lemma_chain_state(commits, k - 1);
        let st = layout_upto(commits, k - 1);
        let c = commits[k - 1];
        assert(st.reserved.contains_key(c.sha));
        assert(st.reserved[c.sha] == 0usize);
        assert(c.parents == seq![commits[k].sha]);
        assert(c.parents.len() == 1);
        assert(c.parents[0] == commits[k].sha);
        assert(c.sha != commits[k].sha);
        assert(!st.reserved.contains_key(commits[k].sha));
        let st2 = layout_upto(commits, k);
        assert(st2 == layout_step(st, c, k - 1));
        assert(c.parents.skip(1) =~= Seq::<Seq<char>>::empty());
        assert(st2.reserved =~= Map::<Seq<char>, usize>::empty().insert(commits[k].sha, 0usize));
        assert(st2.active =~= seq![true]);
        assert(st2.nodes.len() == k);
        assert forall|i: int| 0 <= i < k implies (#[trigger] st2.nodes[i]).lane == 0 by {
            if i < k - 1 {
                assert(st2.nodes[i] == st.nodes[i]);
            } else {
                assert(st2.nodes[i] == layout_step_node(st, c, k - 1));
                assert(clip32(0) == 0);
            }
        }
        assert(st2.edges.len() == k);
        assert forall|i: int| 0 <= i < k implies (#[trigger] st2.edges[i]).to_sha == commits[i
            + 1].sha by {
            if i < k - 1 {
                assert(st2.edges[i] == st.edges[i]);
            }
        }
    }
}

/// Resolve every edge against the hash-to-row index, dropping edges whose
/// target is outside the batch.
fn resolve_all(edges: &Vec<Edge>, m: &ShaMap, nodes: &Vec<LayoutNode>) -> (r: Vec<Edge>)
    requires
        m.wf(),
        forall|k: Seq<char>| #[trigger] m@.contains_key(k) ==> (m@[k] as int) < nodes@.len(),
    ensures
        r.deep_view() == resolve_edges(edges.deep_view(), m@, nodes.deep_view()),
{
    let ghost edv = edges.deep_view();
    let ghost ndv = nodes.deep_view();
    let mut out: Vec<Edge> = Vec::new();
    let ne = edges.len();
    let mut i: usize = 0;
    proof {
        assert(edv.len() == edges@.len());
        assert(ndv.len() == nodes@.len());
        assert(edv.skip(0) =~= edv);
        assert(out.deep_view() =~= Seq::<EdgeView>::empty());
        assert(out.deep_view() + resolve_edges(edv, m@, ndv) =~= resolve_edges(edv, m@, ndv));
    }
    while i < ne
        invariant
            i <= ne,
            ne == edges@.len(),
            edv == edges.deep_view(),
            ndv == nodes.deep_view(),
            ndv.len() == nodes@.len(),
            m.wf(),
            forall|k: Seq<char>| #[trigger] m@.contains_key(k) ==> (m@[k] as int) < ndv.len(),
            resolve_edges(edv, m@, ndv) == out.deep_view() + resolve_edges(
                edv.skip(i as int),
                m@,
                ndv,
            ),
        decreases ne - i,
    {
        let ghost rem = edv.skip(i as int);
        proof {
            assert(edges@[i as int]@ == edv[i as int]);
            assert(rem[0] == edv[i as int]);
            assert(rem.skip(1) =~= edv.skip(i + 1));
        }
        let e = &edges[i];
        let ghost before = out.deep_view();
        match m.get(e.to_sha.as_str()) {
            Some(r_row) => {
                proof {
                    assert((m@[e@.to_sha] as int) < ndv.len());
                    assert(nodes@[r_row as int]@ == ndv[r_row as int]);
                }
                let tl = nodes[r_row].lane;
                out.push(
                    Edge {
                        from_sha: e.from_sha.clone(),
                        to_sha: e.to_sha.clone(),
                        from_lane: e.from_lane,
                        to_lane: tl,
                        from_row: e.from_row,
                        to_row: #[verifier::truncate] (r_row as i32),
                        edge_type: e.edge_type,
                        color_index: e.color_index,
                    },
                );
                proof {
                    assert(out.deep_view() =~= before.push(
                        EdgeView {
                            to_row: clip32(r_row as int),
                            to_lane: ndv[m@[edv[i as int].to_sha] as int].lane,
                            ..edv[i as int]
                        },
                    ));
                    assert(out.deep_view() + resolve_edges(edv.skip(i + 1), m@, ndv)
                        =~= before + (seq![
                        EdgeView {
                            to_row: clip32(m@[edv[i as int].to_sha] as int),
                            to_lane: ndv[m@[edv[i as int].to_sha] as int].lane,
                            ..edv[i as int]
                        },
                    ] + resolve_edges(edv.skip(i + 1), m@, ndv)));
                }
            },
            None => {},
        }
        i += 1;
    }
    proof {
        assert(edv.skip(ne as int) =~= Seq::<EdgeView>::empty());
        assert(out.deep_view() + Seq::<EdgeView>::empty() =~= out.deep_view());
    }
    out
}

/// Compute the graph layout for commits already in display order: one row
/// per commit, lanes allocated lowest-free-first with reservations carrying
/// lanes to parents, and one resolved edge per parent present in the batch.
pub fn compute_layout(commits: &[CommitNode]) -> (r: LayoutResult)
    ensures
        r@ == spec_compute_layout(views_of(commits@)),
{
    let n = commits.len();
    if n == 0 {
        let r = LayoutResult { nodes: Vec::new(), edges: Vec::new(), total_count: 0 };
        proof {
            assert(r@.nodes =~= Seq::<LayoutNodeView>::empty());
            assert(r@.edges =~= Seq::<EdgeView>::empty());
        }
        return r;
    }
    let ghost cdv = views_of(commits@);
    let mut sha_lane = ShaMap::new();
    let mut active: Vec<bool> = Vec::new();
    let mut colors: Vec<Option<u32>> = Vec::new();
    let mut layout_nodes: Vec<LayoutNode> = Vec::new();
    let mut edges: Vec<Edge> = Vec::new();
    let mut row: usize = 0;
    proof {
        assert(active@ =~= init_state().active);
        assert(colors@ =~= init_state().colors);
        assert(layout_nodes.deep_view() =~= init_state().nodes);
        assert(edges.deep_view() =~= init_state().edges);
        assert(cdv.len() == commits@.len());
    }
    while row < n
        invariant
            row <= n,
            n == commits@.len(),
            cdv == views_of(commits@),
            cdv.len() == n,
            sha_lane.wf(),
            sha_lane@ == layout_upto(cdv, row as int).reserved,
            active@ == layout_upto(cdv, row as int).active,
            colors@ == layout_upto(cdv, row as int).colors,
            layout_nodes.deep_view() == layout_upto(cdv, row as int).nodes,
            edges.deep_view() == layout_upto(cdv, row as int).edges,
            state_wf(layout_upto(cdv, row as int)),
        decreases n - row,
    {
        let ghost st = layout_upto(cdv, row as int);
        let ghost c = cdv[row as int];
        proof {
            assert(commits@[row as int]@ == c);
            lemma_step_wf(st, c, row as int);
            lemma_lowest_free(st.active);
        }
        let commit = &commits[row];
        let lane: usize = match sha_lane.get(commit.sha.as_str()) {
            Some(l) => l,
            None => {
                let l = allocate_lane(&mut active, &mut colors);
                sha_lane.insert(commit.sha.as_str(), l);
                l
            },
        };
        let ghost pre_reserved = st.reserved.contains_key(c.sha);
        let ghost colors1 = if pre_reserved {
            st.colors
        } else {
            grow_colors(st.colors, lane as int)
        };
        proof {
            assert(lane as int == (if pre_reserved {
                st.reserved[c.sha] as int
            } else {
                lowest_free(st.active)
            }));
            assert(colors@ == colors1);
            assert(lane < colors@.len());
            assert(colors@.len() == active@.len());
        }
        let color_index = determine_color_index(commit, &colors, Some(lane));
        colors.set(lane, Some(color_index));
        let ghost colors2 = set_color_at(colors1, lane as int, color_index);
        proof {
            assert(colors@ == colors2);
        }
        let node_type = determine_node_type(commit);
        let ghost nodes_before = layout_nodes.deep_view();
        layout_nodes.push(
            LayoutNode {
                sha: commit.sha.clone(),
                short_sha: commit.short_sha.clone(),
                lane: #[verifier::truncate] (lane as i32),
                row: #[verifier::truncate] (row as i32),
                color_index,
                subject: commit.subject.clone(),
                author_name: commit.author_name.clone(),
                author_date: commit.author_date,
                refs: clone_ref_vec(&commit.refs),
                parents: clone_string_vec(&commit.parents),
                node_type,
            },
        );
        proof {
            assert(layout_nodes.deep_view() =~= nodes_before.push(layout_step_node(st, c, row as int)));
        }
        if commit.parents.len() == 0 {
            release_lane(&mut active, lane);
            sha_lane.remove(commit.sha.as_str());
            proof {
                assert(c.parents.len() == 0);
                assert(sha_lane@ == layout_step(st, c, row as int).reserved);
                assert(active@ == layout_step(st, c, row as int).active);
                assert(colors@ == layout_step(st, c, row as int).colors);
                assert(layout_nodes.deep_view() =~= layout_step(st, c, row as int).nodes);
                assert(edges.deep_view() == layout_step(st, c, row as int).edges);
            }
        } else {
            proof {
                assert(c.parents.len() > 0);
                assert(commit.parents@[0]@ == c.parents[0]);
            }
            let ghost edges_before = edges.deep_view();
            match sha_lane.get(commit.parents[0].as_str()) {
                Some(parent_lane) => {
                    let ec: u32 = if parent_lane < colors.len() {
                        match colors[parent_lane] {
                            Some(cc) => cc,
                            None => color_index,
                        }
                    } else {
                        color_index
                    };
                    edges.push(
                        Edge {
                            from_sha: commit.sha.clone(),
                            to_sha: commit.parents[0].clone(),
                            from_lane: #[verifier::truncate] (lane as i32),
                            to_lane: #[verifier::truncate] (parent_lane as i32),
                            from_row: #[verifier::truncate] (row as i32),
                            to_row: -1,
                            edge_type: EdgeType::Normal,
                            color_index: ec,
                        },
                    );
                    release_lane(&mut active, lane);
                    sha_lane.remove(commit.sha.as_str());
                },
                None => {
                    sha_lane.remove(commit.sha.as_str());
                    sha_lane.insert(commit.parents[0].as_str(), lane);
                    edges.push(
                        Edge {
                            from_sha: commit.sha.clone(),
                            to_sha: commit.parents[0].clone(),
                            from_lane: #[verifier::truncate] (lane as i32),
                            to_lane: #[verifier::truncate] (lane as i32),
                            from_row: #[verifier::truncate] (row as i32),
                            to_row: -1,
                            edge_type: EdgeType::Normal,
                            color_index,
                        },
                    );
                },
            }
            let ghost pm = layout_step_pre_merge(st, c, row as int);
            proof {
                assert(sha_lane@ == pm.reserved);
                assert(active@ == pm.active);
                assert(colors@ == pm.colors);
                assert(layout_nodes.deep_view() =~= pm.nodes);
                assert(edges.deep_view() =~= pm.edges);
                lemma_step_unfold(st, c, row as int);
            }
            let ghost pviews = c.parents;
            let np = commit.parents.len();
            let mut pi: usize = 1;
            proof {
                assert(state_wf(pm)) by {
                    lemma_step_wf(st, c, row as int);
                    lemma_lowest_free(st.active);
                }
                assert(LaneState {
                    reserved: sha_lane@,
                    active: active@,
                    colors: colors@,
                    nodes: layout_nodes.deep_view(),
                    edges: edges.deep_view(),
                } == pm);
            }
            while pi < np
                invariant
                    1 <= pi <= np,
                    row < n,
                    n == commits@.len(),
                    cdv == views_of(commits@),
                    cdv.len() == n,
                    c == cdv[row as int],
                    commits@[row as int]@ == c,
                    commit@ == c,
                    pviews == c.parents,
                    np == pviews.len(),
                    np == commit.parents@.len(),
                    sha_lane.wf(),
                    colors@.len() == active@.len(),
                    forall|k: Seq<char>|
                        #[trigger] sha_lane@.contains_key(k) ==> (sha_lane@[k] as int)
                            < active@.len(),
                    merge_scan(
                        LaneState {
                            reserved: sha_lane@,
                            active: active@,
                            colors: colors@,
                            nodes: layout_nodes.deep_view(),
                            edges: edges.deep_view(),
                        },
                        c.sha,
                        lane as int,
                        row as int,
                        color_index,
                        pviews.skip(pi as int),
                    ) == layout_upto(cdv, row + 1),
                decreases np - pi,
            {
                let ghost cur = LaneState {
                    reserved: sha_lane@,
                    active: active@,
                    colors: colors@,
                    nodes: layout_nodes.deep_view(),
                    edges: edges.deep_view(),
                };
                let ghost rest = pviews.skip(pi as int);
                proof {
                    assert(commit.parents@[pi as int]@ == pviews[pi as int]);
                    assert(rest[0] == pviews[pi as int]);
                    assert(rest.skip(1) =~= pviews.skip(pi + 1));
                    lemma_merge_scan_unfold(cur, c.sha, lane as int, row as int, color_index, rest);
                }
                let ghost edges_before2 = edges.deep_view();
                match sha_lane.get(commit.parents[pi].as_str()) {
                    Some(plane) => {
                        let ec: u32 = if plane < colors.len() {
                            match colors[plane] {
                                Some(cc) => cc,
                                None => color_index,
                            }
                        } else {
                            color_index
                        };
                        edges.push(
                            Edge {
                                from_sha: commit.sha.clone(),
                                to_sha: commit.parents[pi].clone(),
                                from_lane: #[verifier::truncate] (lane as i32),
                                to_lane: #[verifier::truncate] (plane as i32),
                                from_row: #[verifier::truncate] (row as i32),
                                to_row: -1,
                                edge_type: EdgeType::Merge,
                                color_index: ec,
                            },
                        );
                        proof {
                            assert(edges.deep_view() =~= edges_before2.push(
                                merge_scan_first(
                                    cur,
                                    c.sha,
                                    lane as int,
                                    row as int,
                                    color_index,
                                    rest,
                                ).edges.last(),
                            ));
                        }
                    },
                    None => {
                        let ml = allocate_lane(&mut active, &mut colors);
                        let mcolor = hash_branch_name(commit.parents[pi].as_str());
                        colors.set(ml, Some(mcolor));
                        sha_lane.insert(commit.parents[pi].as_str(), ml);
                        edges.push(
                            Edge {
                                from_sha: commit.sha.clone(),
                                to_sha: commit.parents[pi].clone(),
                                from_lane: #[verifier::truncate] (lane as i32),
                                to_lane: #[verifier::truncate] (ml as i32),
                                from_row: #[verifier::truncate] (row as i32),
                                to_row: -1,
                                edge_type: EdgeType::Merge,
                                color_index: mcolor,
                            },
                        );
                        proof {
                            assert(edges.deep_view() =~= edges_before2.push(
                                merge_scan_first(
                                    cur,
                                    c.sha,
                                    lane as int,
                                    row as int,
                                    color_index,
                                    rest,
                                ).edges.last(),
                            ));
                        }
                    },
                }
                proof {
                    assert(LaneState {
                        reserved: sha_lane@,
                        active: active@,
                        colors: colors@,
                        nodes: layout_nodes.deep_view(),
                        edges: edges.deep_view(),
                    } == merge_scan_first(cur, c.sha, lane as int, row as int, color_index, rest));
                }
                pi += 1;
            }
            proof {
                assert(pviews.skip(np as int) =~= Seq::<Seq<char>>::empty());
                assert(sha_lane@ == layout_upto(cdv, row + 1).reserved);
                assert(active@ == layout_upto(cdv, row + 1).active);
                assert(colors@ == layout_upto(cdv, row + 1).colors);
                assert(layout_nodes.deep_view() == layout_upto(cdv, row + 1).nodes);
                assert(edges.deep_view() == layout_upto(cdv, row + 1).edges);
            }
        }
        row += 1;
    }
    // Finalization: resolve each edge's target row and lane.
    let ghost stf = layout_upto(cdv, n as int);
    proof {
        lemma_upto_wf(cdv, n as int);
        assert(layout_nodes@.len() == stf.nodes.len());
    }
    let mut m = ShaMap::new();
    let cn = commits.len();
    let mut t: usize = 0;
    proof {
        assert(cdv.take(0) =~= Seq::<CommitView>::empty());
    }
    while t < cn
        invariant
            t <= cn,
            cn == commits@.len(),
            cdv == views_of(commits@),
            m.wf(),
            m@ == sha_index_map(cdv.take(t as int)),
        decreases cn - t,
    {
        proof {
            assert(commits@[t as int]@ == cdv[t as int]);
            assert(cdv.take(t + 1).drop_last() =~= cdv.take(t as int));
            assert(cdv.take(t + 1).last() == cdv[t as int]);
        }
        m.insert(commits[t].sha.as_str(), t);
        t += 1;
    }
    proof {
        assert(cdv.take(cn as int) =~= cdv);
        lemma_sha_index_range(cdv);
    }
    let resolved = resolve_all(&edges, &m, &layout_nodes);
    let r = LayoutResult { nodes: layout_nodes, edges: resolved, total_count: n };
    proof {
        assert(r@.nodes == stf.nodes);
        assert(r@.edges == resolve_edges(stf.edges, sha_index_map(cdv), stf.nodes));
    }
    r
}

} // verus!
