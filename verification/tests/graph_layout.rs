use commit_graph::{compute_layout, hash_branch_name, parse_log, EdgeType};

#[test]
fn test_compute_layout_empty() {
    let result = compute_layout(&[]);
    assert_eq!(result.total_count, 0);
    assert!(result.nodes.is_empty());
    assert!(result.edges.is_empty());
}

#[test]
fn test_compute_layout_linear() {
    // Three linear commits: A -> B -> C
    let raw = b"aaa\x00aa\x00bbb\x00Alice\x00a@e.com\x001700000000\x00Alice\x00a@e.com\x001700000000\x00Third\x00\x1ebbb\x00bb\x00ccc\x00Alice\x00a@e.com\x001699999000\x00Alice\x00a@e.com\x001699999000\x00Second\x00\x1eccc\x00cc\x00\x00Alice\x00a@e.com\x001699998000\x00Alice\x00a@e.com\x001699998000\x00First\x00\x1e";
    let commits = parse_log(raw);
    assert_eq!(commits.len(), 3);

    let result = compute_layout(&commits);
    assert_eq!(result.total_count, 3);
    assert_eq!(result.nodes.len(), 3);
    // Linear commits should all be on lane 0
    assert_eq!(result.nodes[0].lane, 0);
    assert_eq!(result.nodes[1].lane, 0);
    assert_eq!(result.nodes[2].lane, 0);

    // Should have 2 edges: A->B and B->C
    assert_eq!(result.edges.len(), 2);
}

#[test]
fn test_compute_layout_merge() {
    // Merge commit: M has parents A and B. Then A -> C (root), B -> C (root)
    // Topological order: M, A, B, C
    let raw = "mmm\x00mm\x00aaa bbb\x00Alice\x00a@e.com\x001700003000\x00Alice\x00a@e.com\x001700003000\x00Merge\x00\x1eaaa\x00aa\x00ccc\x00Alice\x00a@e.com\x001700002000\x00Alice\x00a@e.com\x001700002000\x00On main\x00\x1ebbb\x00bb\x00ccc\x00Bob\x00b@e.com\x001700001000\x00Bob\x00b@e.com\x001700001000\x00On branch\x00\x1eccc\x00cc\x00\x00Alice\x00a@e.com\x001700000000\x00Alice\x00a@e.com\x001700000000\x00Root\x00\x1e";
    let commits = parse_log(raw.as_bytes());
    assert_eq!(commits.len(), 4);

    let result = compute_layout(&commits);
    assert_eq!(result.total_count, 4);

    // M->A (normal), M->B (merge), A->C (normal), B->C (normal) = 4 edges
    assert!(result.edges.len() >= 3);
}

#[test]
fn test_compute_layout_merge_edge_kinds() {
    // Same batch as above: every parent is present, so every parent link
    // yields exactly one edge, the merge parent's a Merge edge.
    let raw = "mmm\x00mm\x00aaa bbb\x00Alice\x00a@e.com\x001700003000\x00Alice\x00a@e.com\x001700003000\x00Merge\x00\x1eaaa\x00aa\x00ccc\x00Alice\x00a@e.com\x001700002000\x00Alice\x00a@e.com\x001700002000\x00On main\x00\x1ebbb\x00bb\x00ccc\x00Bob\x00b@e.com\x001700001000\x00Bob\x00b@e.com\x001700001000\x00On branch\x00\x1eccc\x00cc\x00\x00Alice\x00a@e.com\x001700000000\x00Alice\x00a@e.com\x001700000000\x00Root\x00\x1e";
    let commits = parse_log(raw.as_bytes());
    let result = compute_layout(&commits);
    assert_eq!(result.edges.len(), 4);
    let normal = result
        .edges
        .iter()
        .filter(|e| e.edge_type == EdgeType::Normal)
        .count();
    let merge = result
        .edges
        .iter()
        .filter(|e| e.edge_type == EdgeType::Merge)
        .count();
    assert_eq!(normal, 3);
    assert_eq!(merge, 1);
    assert_eq!(result.edges[0].from_sha, "mmm");
    assert_eq!(result.edges[0].to_sha, "aaa");
    assert_eq!(result.edges[0].edge_type, EdgeType::Normal);
    assert_eq!(result.edges[1].from_sha, "mmm");
    assert_eq!(result.edges[1].to_sha, "bbb");
    assert_eq!(result.edges[1].edge_type, EdgeType::Merge);
}

#[test]
fn test_compute_layout_child_then_root() {
    // Two records: the child first, then the root it names as parent. The
    // child sits at row 0, the root at row 1, both on lane 0, and the one
    // edge resolves its target row.
    let raw = b"bbb\x00bb\x00aaa\x00Alice\x00a@e.com\x001700000001\x00Alice\x00a@e.com\x001700000001\x00Child\x00\x1eaaa\x00aa\x00\x00Alice\x00a@e.com\x001700000000\x00Alice\x00a@e.com\x001700000000\x00Root\x00\x1e";
    let commits = parse_log(raw);
    assert_eq!(commits.len(), 2);
    let result = compute_layout(&commits);
    assert_eq!(result.nodes.len(), 2);
    assert_eq!(result.nodes[0].sha, "bbb");
    assert_eq!(result.nodes[0].row, 0);
    assert_eq!(result.nodes[0].lane, 0);
    assert_eq!(result.nodes[1].sha, "aaa");
    assert_eq!(result.nodes[1].row, 1);
    assert_eq!(result.nodes[1].lane, 0);
    assert_eq!(result.edges.len(), 1);
    assert_eq!(result.edges[0].from_sha, "bbb");
    assert_eq!(result.edges[0].to_sha, "aaa");
    assert_eq!(result.edges[0].edge_type, EdgeType::Normal);
    assert_eq!(result.edges[0].from_row, 0);
    assert_eq!(result.edges[0].to_row, 1);
    assert_eq!(result.edges[0].to_lane, 0);
}

#[test]
fn test_compute_layout_boundary_parent_no_edge() {
    // A parent hash outside the batch stays on the parent list but yields
    // no edge.
    let raw = b"aaa\x00aa\x00zzz\x00Alice\x00a@e.com\x001700000000\x00Alice\x00a@e.com\x001700000000\x00Tip\x00\x1e";
    let commits = parse_log(raw);
    assert_eq!(commits.len(), 1);
    assert_eq!(commits[0].parents, vec!["zzz".to_string()]);
    let result = compute_layout(&commits);
    assert_eq!(result.nodes.len(), 1);
    assert!(result.edges.is_empty());
}

#[test]
fn test_hash_branch_name_values() {
    // The palette hash folds the name's bytes: start 5381, times 33 plus
    // each byte, modulo 2^32, folded into twelve colors.
    assert_eq!(hash_branch_name("main"), 10);
    assert_eq!(hash_branch_name("abc123"), 5);
    assert_eq!(hash_branch_name(""), 5381 % 12);
}

#[test]
fn test_compute_layout_branch_ref_colors_node() {
    // A commit decorated with a branch ref takes its color from the branch
    // name's hash.
    let raw = b"abc123\x00abc\x00\x00Alice\x00a@e.com\x001700000000\x00Alice\x00a@e.com\x001700000000\x00Tip\x00 (HEAD -> main)\x1e";
    let commits = parse_log(raw);
    let result = compute_layout(&commits);
    assert_eq!(result.nodes.len(), 1);
    assert_eq!(result.nodes[0].color_index, hash_branch_name("main"));
}
