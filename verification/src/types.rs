//! The shared data model: parsed commits, references decorating them, and the
//! nodes, edges and aggregate result of a computed graph layout.
//!
//! Each executable type has a ghost view (`...View`) over `Seq<char>` and
//! mathematical integers; contracts throughout the crate speak of those views.

use vstd::prelude::*;

verus! {

/// The kind of a reference decorating a commit.
#[derive(Clone, Copy, Debug, PartialEq, Eq, Structural)]
pub enum RefType {
    Branch,
    RemoteBranch,
    Tag,
    Head,
    Stash,
}

/// The kind of a visual node in the graph layout. `WorkingTree` is reserved
/// for host-injected synthetic rows and is never produced by the engine.
#[derive(Clone, Copy, Debug, PartialEq, Eq, Structural)]
pub enum NodeType {
    Normal,
    Head,
    Stash,
    WorkingTree,
}

/// The kind of an edge connecting two commits: first-parent continuation
/// (`Normal`) or a link to an additional merge parent (`Merge`).
#[derive(Clone, Copy, Debug, PartialEq, Eq, Structural)]
pub enum EdgeType {
    Normal,
    Merge,
}

/// A single reference (branch, tag, HEAD, stash) decorating a commit.
#[derive(Debug)]
pub struct RefInfo {
    pub name: String,
    pub ref_type: RefType,
    pub is_head: bool,
}

/// Mathematical view of a `RefInfo`.
pub ghost struct RefView {
    pub name: Seq<char>,
    pub ref_type: RefType,
    pub is_head: bool,
}

impl View for RefInfo {
    type V = RefView;

    open spec fn view(&self) -> RefView {
        RefView { name: self.name@, ref_type: self.ref_type, is_head: self.is_head }
    }
}

impl DeepView for RefInfo {
    type V = RefView;

    open spec fn deep_view(&self) -> RefView {
        self@
    }
}

impl Clone for RefInfo {
    fn clone(&self) -> (r: Self)
        ensures
            r@ == self@,
    {
        RefInfo { name: self.name.clone(), ref_type: self.ref_type, is_head: self.is_head }
    }
}

/// Copy a vector of strings.
pub fn clone_string_vec(v: &Vec<String>) -> (r: Vec<String>)
    ensures
        r.deep_view() == v.deep_view(),
{
    let mut r: Vec<String> = Vec::new();
    let n = v.len();
    let mut i: usize = 0;
    while i < n
        invariant
            i <= n,
            n == v@.len(),
            r.deep_view() == v.deep_view().take(i as int),
        decreases n - i,
    {
        let ghost before = r.deep_view();
        r.push(v[i].clone());
        proof {
            assert(r.deep_view() =~= before.push(v@[i as int]@));
            assert(r.deep_view() =~= v.deep_view().take(i + 1));
        }
        i += 1;
    }
    proof {
        assert(v.deep_view().take(n as int) =~= v.deep_view());
    }
    r
}

/// Copy a vector of references.
pub fn clone_ref_vec(v: &Vec<RefInfo>) -> (r: Vec<RefInfo>)
    ensures
        r.deep_view() == v.deep_view(),
{
    let mut r: Vec<RefInfo> = Vec::new();
    let n = v.len();
    let mut i: usize = 0;
    while i < n
        invariant
            i <= n,
            n == v@.len(),
            r.deep_view() == v.deep_view().take(i as int),
        decreases n - i,
    {
        let ghost before = r.deep_view();
        r.push(v[i].clone());
        proof {
            assert(r.deep_view() =~= before.push(v@[i as int]@));
            assert(r.deep_view() =~= v.deep_view().take(i + 1));
        }
        i += 1;
    }
    proof {
        assert(v.deep_view().take(n as int) =~= v.deep_view());
    }
    r
}

/// A commit parsed from one log record.
#[derive(Debug)]
pub struct CommitNode {
    pub sha: String,
    pub short_sha: String,
    pub parents: Vec<String>,
    pub children: Vec<String>,
    pub author_name: String,
    pub author_email: String,
    pub author_date: u64,
    pub committer_name: String,
    pub committer_email: String,
    pub commit_date: u64,
    pub subject: String,
    pub refs: Vec<RefInfo>,
    pub lane: i32,
    pub row: i32,
}

/// Mathematical view of a `CommitNode`.
pub ghost struct CommitView {
    pub sha: Seq<char>,
    pub short_sha: Seq<char>,
    pub parents: Seq<Seq<char>>,
    pub children: Seq<Seq<char>>,
    pub author_name: Seq<char>,
    pub author_email: Seq<char>,
    pub author_date: u64,
    pub committer_name: Seq<char>,
    pub committer_email: Seq<char>,
    pub commit_date: u64,
    pub subject: Seq<char>,
    pub refs: Seq<RefView>,
    pub lane: int,
    pub row: int,
}

impl View for CommitNode {
    type V = CommitView;

    open spec fn view(&self) -> CommitView {
        CommitView {
            sha: self.sha@,
            short_sha: self.short_sha@,
            parents: self.parents.deep_view(),
            children: self.children.deep_view(),
            author_name: self.author_name@,
            author_email: self.author_email@,
            author_date: self.author_date,
            committer_name: self.committer_name@,
            committer_email: self.committer_email@,
            commit_date: self.commit_date,
            subject: self.subject@,
            refs: self.refs.deep_view(),
            lane: self.lane as int,
            row: self.row as int,
        }
    }
}

impl DeepView for CommitNode {
    type V = CommitView;

    open spec fn deep_view(&self) -> CommitView {
        self@
    }
}

impl Clone for CommitNode {
    fn clone(&self) -> (r: Self)
        ensures
            r@ == self@,
    {
        CommitNode {
            sha: self.sha.clone(),
            short_sha: self.short_sha.clone(),
            parents: clone_string_vec(&self.parents),
            children: clone_string_vec(&self.children),
            author_name: self.author_name.clone(),
            author_email: self.author_email.clone(),
            author_date: self.author_date,
            committer_name: self.committer_name.clone(),
            committer_email: self.committer_email.clone(),
            commit_date: self.commit_date,
            subject: self.subject.clone(),
            refs: clone_ref_vec(&self.refs),
            lane: self.lane,
            row: self.row,
        }
    }
}

/// One visual row of the layout: commit identity and metadata together with
/// the assigned lane, row and color.
#[derive(Debug)]
pub struct LayoutNode {
    pub sha: String,
    pub short_sha: String,
    pub lane: i32,
    pub row: i32,
    pub color_index: u32,
    pub subject: String,
    pub author_name: String,
    pub author_date: u64,
    pub refs: Vec<RefInfo>,
    pub parents: Vec<String>,
    pub node_type: NodeType,
}

/// Mathematical view of a `LayoutNode`.
pub ghost struct LayoutNodeView {
    pub sha: Seq<char>,
    pub short_sha: Seq<char>,
    pub lane: int,
    pub row: int,
    pub color_index: u32,
    pub subject: Seq<char>,
    pub author_name: Seq<char>,
    pub author_date: u64,
    pub refs: Seq<RefView>,
    pub parents: Seq<Seq<char>>,
    pub node_type: NodeType,
}

impl View for LayoutNode {
    type V = LayoutNodeView;

    open spec fn view(&self) -> LayoutNodeView {
        LayoutNodeView {
            sha: self.sha@,
            short_sha: self.short_sha@,
            lane: self.lane as int,
            row: self.row as int,
            color_index: self.color_index,
            subject: self.subject@,
            author_name: self.author_name@,
            author_date: self.author_date,
            refs: self.refs.deep_view(),
            parents: self.parents.deep_view(),
            node_type: self.node_type,
        }
    }
}

impl DeepView for LayoutNode {
    type V = LayoutNodeView;

    open spec fn deep_view(&self) -> LayoutNodeView {
        self@
    }
}

impl Clone for LayoutNode {
    fn clone(&self) -> (r: Self)
        ensures
            r@ == self@,
    {
        LayoutNode {
            sha: self.sha.clone(),
            short_sha: self.short_sha.clone(),
            lane: self.lane,
            row: self.row,
            color_index: self.color_index,
            subject: self.subject.clone(),
            author_name: self.author_name.clone(),
            author_date: self.author_date,
            refs: clone_ref_vec(&self.refs),
            parents: clone_string_vec(&self.parents),
            node_type: self.node_type,
        }
    }
}

/// A directed parent-link between two commits, with fully resolved rows and
/// lanes at both endpoints.
#[derive(Debug)]
pub struct Edge {
    pub from_sha: String,
    pub to_sha: String,
    pub from_lane: i32,
    pub to_lane: i32,
    pub from_row: i32,
    pub to_row: i32,
    pub edge_type: EdgeType,
    pub color_index: u32,
}

/// Mathematical view of an `Edge`.
pub ghost struct EdgeView {
    pub from_sha: Seq<char>,
    pub to_sha: Seq<char>,
    pub from_lane: int,
    pub to_lane: int,
    pub from_row: int,
    pub to_row: int,
    pub edge_type: EdgeType,
    pub color_index: u32,
}

impl View for Edge {
    type V = EdgeView;

    open spec fn view(&self) -> EdgeView {
        EdgeView {
            from_sha: self.from_sha@,
            to_sha: self.to_sha@,
            from_lane: self.from_lane as int,
            to_lane: self.to_lane as int,
            from_row: self.from_row as int,
            to_row: self.to_row as int,
            edge_type: self.edge_type,
            color_index: self.color_index,
        }
    }
}

impl DeepView for Edge {
    type V = EdgeView;

    open spec fn deep_view(&self) -> EdgeView {
        self@
    }
}

impl Clone for Edge {
    fn clone(&self) -> (r: Self)
        ensures
            r@ == self@,
    {
        Edge {
            from_sha: self.from_sha.clone(),
            to_sha: self.to_sha.clone(),
            from_lane: self.from_lane,
            to_lane: self.to_lane,
            from_row: self.from_row,
            to_row: self.to_row,
            edge_type: self.edge_type,
            color_index: self.color_index,
        }
    }
}

/// Copy a vector of layout nodes.
pub fn clone_node_vec(v: &Vec<LayoutNode>) -> (r: Vec<LayoutNode>)
    ensures
        r.deep_view() == v.deep_view(),
{
    let mut r: Vec<LayoutNode> = Vec::new();
    let n = v.len();
    let mut i: usize = 0;
    while i < n
        invariant
            i <= n,
            n == v@.len(),
            r.deep_view() == v.deep_view().take(i as int),
        decreases n - i,
    {
        let ghost before = r.deep_view();
        r.push(v[i].clone());
        proof {
            assert(r.deep_view() =~= before.push(v@[i as int]@));
            assert(r.deep_view() =~= v.deep_view().take(i + 1));
        }
        i += 1;
    }
    proof {
        assert(v.deep_view().take(n as int) =~= v.deep_view());
    }
    r
}

/// Copy a vector of edges.
pub fn clone_edge_vec(v: &Vec<Edge>) -> (r: Vec<Edge>)
    ensures
        r.deep_view() == v.deep_view(),
{
    let mut r: Vec<Edge> = Vec::new();
    let n = v.len();
    let mut i: usize = 0;
    while i < n
        invariant
            i <= n,
            n == v@.len(),
            r.deep_view() == v.deep_view().take(i as int),
        decreases n - i,
    {
        let ghost before = r.deep_view();
        r.push(v[i].clone());
        proof {
            assert(r.deep_view() =~= before.push(v@[i as int]@));
            assert(r.deep_view() =~= v.deep_view().take(i + 1));
        }
        i += 1;
    }
    proof {
        assert(v.deep_view().take(n as int) =~= v.deep_view());
    }
    r
}

/// The complete result of a layout computation: ordered nodes, resolved
/// edges, and the cached node count.
#[derive(Debug)]
pub struct LayoutResult {
    pub nodes: Vec<LayoutNode>,
    pub edges: Vec<Edge>,
    pub total_count: usize,
}

/// Mathematical view of a `LayoutResult`.
pub ghost struct LayoutResultView {
    pub nodes: Seq<LayoutNodeView>,
    pub edges: Seq<EdgeView>,
    pub total_count: int,
}

impl View for LayoutResult {
    type V = LayoutResultView;

    open spec fn view(&self) -> LayoutResultView {
        LayoutResultView {
            nodes: self.nodes.deep_view(),
            edges: self.edges.deep_view(),
            total_count: self.total_count as int,
        }
    }
}

impl DeepView for LayoutResult {
    type V = LayoutResultView;

    open spec fn deep_view(&self) -> LayoutResultView {
        self@
    }
}

impl Clone for LayoutResult {
    fn clone(&self) -> (r: Self)
        ensures
            r@ == self@,
    {
        LayoutResult {
            nodes: clone_node_vec(&self.nodes),
            edges: clone_edge_vec(&self.edges),
            total_count: self.total_count,
        }
    }
}

} // verus!
