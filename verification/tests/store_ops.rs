use commit_graph::{
    append_to_layout, compute_graph_layout, filter_by_date, filter_commits, free_layout,
    LayoutStore, StoreError,
};

const TWO_COMMITS: &[u8] = b"aaa\x00aa\x00bbb\x00Alice\x00a@e.com\x001700000000\x00Alice\x00a@e.com\x001700000000\x00Second\x00\x1ebbb\x00bb\x00\x00Bob\x00b@e.com\x001600000000\x00Bob\x00b@e.com\x001600000000\x00First\x00\x1e";

#[test]
fn test_store_compute_and_free() {
    let mut store = LayoutStore::new();
    let (handle, layout) = compute_graph_layout(&mut store, TWO_COMMITS);
    assert!(handle != 0);
    assert_eq!(layout.total_count, 2);
    assert_eq!(layout.nodes.len(), 2);
    assert_eq!(layout.edges.len(), 1);

    // Filtering on a live handle succeeds.
    let filtered = filter_commits(&store, handle, "author", "Alice").unwrap();
    assert_eq!(filtered.total_count, 1);

    // After freeing, the handle is invalid.
    free_layout(&mut store, handle);
    let err = filter_commits(&store, handle, "author", "Alice");
    assert!(matches!(err, Err(StoreError::InvalidHandle(h)) if h == handle));
}

#[test]
fn test_store_free_is_idempotent() {
    let mut store = LayoutStore::new();
    let (handle, _) = compute_graph_layout(&mut store, TWO_COMMITS);
    free_layout(&mut store, handle);
    // Freeing again, or freeing a never-issued handle, does not fail.
    free_layout(&mut store, handle);
    free_layout(&mut store, 9999);
}

#[test]
fn test_store_filter_by_date() {
    let mut store = LayoutStore::new();
    let (handle, _) = compute_graph_layout(&mut store, TWO_COMMITS);
    let filtered = filter_by_date(&store, handle, 1650000000, 0).unwrap();
    assert_eq!(filtered.total_count, 1);
    assert_eq!(filtered.nodes[0].subject, "Second");
    free_layout(&mut store, handle);
}

#[test]
fn test_store_filter_by_date_invalid_handle() {
    let store = LayoutStore::new();
    let err = filter_by_date(&store, 42, 0, 0);
    assert!(matches!(err, Err(StoreError::InvalidHandle(42))));
}

#[test]
fn test_store_filter_invalid_pattern() {
    let mut store = LayoutStore::new();
    let (handle, _) = compute_graph_layout(&mut store, TWO_COMMITS);
    let err = filter_commits(&store, handle, "author", "[oops");
    assert!(matches!(err, Err(StoreError::InvalidPattern(_))));
}

#[test]
fn test_store_append_new_commits() {
    let mut store = LayoutStore::new();
    let (handle, layout) = compute_graph_layout(&mut store, TWO_COMMITS);
    assert_eq!(layout.total_count, 2);

    // A third commit, child of nothing in the batch order tail.
    let more = b"ccc\x00cc\x00\x00Carol\x00c@e.com\x001500000000\x00Carol\x00c@e.com\x001500000000\x00Older\x00\x1e";
    let appended = append_to_layout(&mut store, handle, more).unwrap();
    assert_eq!(appended.total_count, 3);

    // The stored layout was replaced in place: a later filter sees it.
    let all = filter_by_date(&store, handle, 0, 0).unwrap();
    assert_eq!(all.total_count, 3);
}

#[test]
fn test_store_append_duplicates_unchanged() {
    let mut store = LayoutStore::new();
    let (handle, _) = compute_graph_layout(&mut store, TWO_COMMITS);
    // Appending the same commits again changes nothing.
    let appended = append_to_layout(&mut store, handle, TWO_COMMITS).unwrap();
    assert_eq!(appended.total_count, 2);
}

#[test]
fn test_store_append_empty_input_returns_existing() {
    let mut store = LayoutStore::new();
    let (handle, _) = compute_graph_layout(&mut store, TWO_COMMITS);
    let appended = append_to_layout(&mut store, handle, b"").unwrap();
    assert_eq!(appended.total_count, 2);
}

#[test]
fn test_store_append_invalid_handle() {
    let mut store = LayoutStore::new();
    let err = append_to_layout(&mut store, 7, TWO_COMMITS);
    assert!(matches!(err, Err(StoreError::InvalidHandle(7))));
}

#[test]
fn test_store_handles_are_distinct() {
    let mut store = LayoutStore::new();
    let (h1, _) = compute_graph_layout(&mut store, TWO_COMMITS);
    let (h2, _) = compute_graph_layout(&mut store, TWO_COMMITS);
    assert_ne!(h1, h2);
    // Freeing one leaves the other usable.
    free_layout(&mut store, h1);
    assert!(filter_by_date(&store, h2, 0, 0).is_ok());
    assert!(matches!(
        filter_by_date(&store, h1, 0, 0),
        Err(StoreError::InvalidHandle(_))
    ));
}
