//! A commit-graph engine: parsers for delimiter-encoded log text and
//! line-attribution ("blame") text, a lane-allocation layout algorithm that
//! turns an ordered commit batch into positioned nodes and edges, filters
//! that reduce a computed layout, and a handle-keyed store of layouts.

pub mod blame;
pub mod filter;
pub mod layout;
pub mod log_parser;
pub mod sha_map;
pub mod store;
pub mod strutil;
pub mod types;

pub use blame::{is_sha_header, parse_blame_output, BlameEntry};
pub use filter::{filter_commits_by_date, filter_commits_by_field};
pub use layout::{compute_layout, hash_branch_name};
pub use log_parser::{parse_log, parse_refs};
pub use store::{
    append_to_layout, compute_graph_layout, filter_by_date, filter_commits, free_layout,
    LayoutStore, StoreError,
};
pub use types::{
    CommitNode, Edge, EdgeType, LayoutNode, LayoutResult, NodeType, RefInfo, RefType,
};
