use commit_graph::{parse_log, parse_refs, NodeType, RefType};

#[test]
fn test_parse_refs_empty() {
    let refs = parse_refs("");
    assert!(refs.is_empty());
}

#[test]
fn test_parse_refs_head_and_branch() {
    let refs = parse_refs(" (HEAD -> main, origin/main)");
    assert!(refs.len() >= 2);
    // Should have HEAD and main branch
    assert!(refs.iter().any(|r| r.ref_type == RefType::Head && r.is_head));
    assert!(refs
        .iter()
        .any(|r| r.name == "main" && r.ref_type == RefType::Branch && r.is_head));
}

#[test]
fn test_parse_refs_tag() {
    let refs = parse_refs(" (tag: v1.0)");
    assert_eq!(refs.len(), 1);
    assert_eq!(refs[0].name, "v1.0");
    assert_eq!(refs[0].ref_type, RefType::Tag);
}

#[test]
fn test_parse_log_single_record() {
    let raw = b"abc123\x00abc\x00def456 ghi789\x00Alice\x00alice@example.com\x001700000000\x00Alice\x00alice@example.com\x001700000000\x00Initial commit\x00 (HEAD -> main)\x1e";
    let commits = parse_log(raw);
    assert_eq!(commits.len(), 1);
    assert_eq!(commits[0].sha, "abc123");
    assert_eq!(commits[0].parents.len(), 2);
    assert_eq!(commits[0].parents[0], "def456");
    assert_eq!(commits[0].parents[1], "ghi789");
    assert_eq!(commits[0].author_name, "Alice");
}

#[test]
fn test_parse_log_empty() {
    let raw = b"";
    let commits = parse_log(raw);
    assert!(commits.is_empty());
}

#[test]
fn test_parse_refs_remote_and_stash() {
    let refs = parse_refs("(refs/remotes/origin/dev, refs/stash, tag: v2)");
    assert_eq!(refs.len(), 3);
    assert_eq!(refs[0].name, "origin/dev");
    assert_eq!(refs[0].ref_type, RefType::RemoteBranch);
    assert_eq!(refs[1].name, "refs/stash");
    assert_eq!(refs[1].ref_type, RefType::Stash);
    assert_eq!(refs[2].name, "v2");
    assert_eq!(refs[2].ref_type, RefType::Tag);
}

#[test]
fn test_parse_refs_detached_head() {
    let refs = parse_refs("(HEAD)");
    assert_eq!(refs.len(), 1);
    assert_eq!(refs[0].name, "HEAD");
    assert_eq!(refs[0].ref_type, RefType::Head);
    assert!(refs[0].is_head);
}

#[test]
fn test_parse_refs_local_branch_current_via_head() {
    // `HEAD -> dev` marks the separately listed `refs/heads/dev` current.
    let refs = parse_refs("(HEAD -> dev, refs/heads/dev, refs/heads/other)");
    let dev: Vec<_> = refs
        .iter()
        .filter(|r| r.name == "dev" && r.ref_type == RefType::Branch)
        .collect();
    assert!(dev.iter().all(|r| r.is_head));
    assert!(refs
        .iter()
        .any(|r| r.name == "other" && r.ref_type == RefType::Branch && !r.is_head));
}

#[test]
fn test_parse_log_children_derived() {
    // The root's child list is rebuilt from the child's parent list.
    let raw = b"bbb\x00bb\x00aaa\x00Alice\x00a@e.com\x002\x00Alice\x00a@e.com\x002\x00Child\x00\x1eaaa\x00aa\x00\x00Alice\x00a@e.com\x001\x00Alice\x00a@e.com\x001\x00Root\x00\x1e";
    let commits = parse_log(raw);
    assert_eq!(commits.len(), 2);
    assert!(commits[0].children.is_empty());
    assert_eq!(commits[1].children, vec!["bbb".to_string()]);
}

#[test]
fn test_parse_log_skips_malformed_records() {
    // A record with fewer than ten fields, and one with an empty hash, are
    // skipped; the valid record survives.
    let raw = b"short record\x1e\x00aa\x00\x00A\x00a@e\x001\x00A\x00a@e\x001\x00Empty sha\x00\x1eccc\x00cc\x00\x00Alice\x00a@e\x005\x00Alice\x00a@e\x005\x00Good\x00\x1e";
    let commits = parse_log(raw);
    assert_eq!(commits.len(), 1);
    assert_eq!(commits[0].sha, "ccc");
    assert_eq!(commits[0].author_date, 5);
}

#[test]
fn test_parse_log_invalid_utf8() {
    let commits = parse_log(&[0xc3, 0x28]);
    assert!(commits.is_empty());
}

#[test]
fn test_parse_log_bad_timestamp_reads_zero() {
    let raw = b"ddd\x00dd\x00\x00Alice\x00a@e\x00notanumber\x00Alice\x00a@e\x00\x00Subject\x00\x1e";
    let commits = parse_log(raw);
    assert_eq!(commits.len(), 1);
    assert_eq!(commits[0].author_date, 0);
    assert_eq!(commits[0].commit_date, 0);
}

#[test]
fn test_stash_ref_gives_stash_node() {
    let refs = parse_refs("(refs/stash)");
    assert_eq!(refs[0].ref_type, RefType::Stash);
    let raw = b"eee\x00ee\x00\x00Alice\x00a@e\x001\x00Alice\x00a@e\x001\x00WIP\x00 (refs/stash)\x1e";
    let commits = parse_log(raw);
    let result = commit_graph::compute_layout(&commits);
    assert_eq!(result.nodes[0].node_type, NodeType::Stash);
}
