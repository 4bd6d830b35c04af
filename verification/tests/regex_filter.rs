use commit_graph::{
    filter_commits_by_field, Edge, EdgeType, LayoutNode, LayoutResult, NodeType,
};

fn make_test_layout() -> LayoutResult {
    LayoutResult {
        nodes: vec![
            LayoutNode {
                sha: "aaa111".to_string(),
                short_sha: "aaa".to_string(),
                lane: 0,
                row: 0,
                color_index: 0,
                subject: "Fix critical bug in parser".to_string(),
                author_name: "Alice".to_string(),
                author_date: 1700000000,
                refs: vec![],
                parents: vec!["bbb222".to_string()],
                node_type: NodeType::Normal,
            },
            LayoutNode {
                sha: "bbb222".to_string(),
                short_sha: "bbb".to_string(),
                lane: 0,
                row: 1,
                color_index: 0,
                subject: "Add new feature for graph layout".to_string(),
                author_name: "Bob".to_string(),
                author_date: 1699999000,
                refs: vec![],
                parents: vec![],
                node_type: NodeType::Normal,
            },
        ],
        edges: vec![Edge {
            from_sha: "aaa111".to_string(),
            to_sha: "bbb222".to_string(),
            from_lane: 0,
            to_lane: 0,
            from_row: 0,
            to_row: 1,
            edge_type: EdgeType::Normal,
            color_index: 0,
        }],
        total_count: 2,
    }
}

#[test]
fn test_filter_by_author() {
    let layout = make_test_layout();
    let result = filter_commits_by_field(&layout, "author", "Alice").unwrap();
    assert_eq!(result.total_count, 1);
    assert_eq!(result.nodes[0].author_name, "Alice");
}

#[test]
fn test_filter_by_message() {
    let layout = make_test_layout();
    let result = filter_commits_by_field(&layout, "message", "(?i)bug").unwrap();
    assert_eq!(result.total_count, 1);
    assert_eq!(result.nodes[0].sha, "aaa111");
}

#[test]
fn test_filter_by_sha() {
    let layout = make_test_layout();
    let result = filter_commits_by_field(&layout, "sha", "bbb").unwrap();
    assert_eq!(result.total_count, 1);
    assert_eq!(result.nodes[0].sha, "bbb222");
}

#[test]
fn regex_filter_test_filter_no_match() {
    let layout = make_test_layout();
    let result = filter_commits_by_field(&layout, "author", "Charlie").unwrap();
    assert_eq!(result.total_count, 0);
}

#[test]
fn test_filter_invalid_regex() {
    let layout = make_test_layout();
    let result = filter_commits_by_field(&layout, "author", "[invalid");
    assert!(result.is_err());
}

#[test]
fn test_filter_unknown_field_matches_nothing() {
    // An unrecognized selector is not an error; it just matches nothing.
    let layout = make_test_layout();
    let result = filter_commits_by_field(&layout, "committer", ".*").unwrap();
    assert_eq!(result.total_count, 0);
    assert!(result.nodes.is_empty());
    assert!(result.edges.is_empty());
}

#[test]
fn test_filter_keeps_edges_between_survivors() {
    // A pattern matching both subjects keeps both nodes and their edge.
    let layout = make_test_layout();
    let result = filter_commits_by_field(&layout, "message", "a").unwrap();
    assert_eq!(result.total_count, 2);
    assert_eq!(result.edges.len(), 1);
}
