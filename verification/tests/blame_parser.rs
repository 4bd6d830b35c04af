use commit_graph::{is_sha_header, parse_blame_output};

#[test]
fn test_is_sha_header() {
    assert!(is_sha_header(
        "abcdef0123456789abcdef0123456789abcdef01 1 1 3"
    ));
    assert!(is_sha_header(
        "abcdef0123456789abcdef0123456789abcdef01 10 20 5"
    ));
    assert!(!is_sha_header("author John Doe"));
    assert!(!is_sha_header("summary Fix bug"));
    assert!(!is_sha_header("short 1 1 1")); // too short SHA
}

#[test]
fn test_parse_blame_single_entry() {
    let raw = b"abcdef0123456789abcdef0123456789abcdef01 1 1 3\nauthor Alice\nauthor-mail <alice@example.com>\nauthor-time 1700000000\nauthor-tz +0000\ncommitter Bob\ncommitter-mail <bob@example.com>\ncommitter-time 1700000100\ncommitter-tz +0000\nsummary Initial commit\nfilename src/main.rs\n";
    let entries = parse_blame_output(raw);
    assert_eq!(entries.len(), 1);
    assert_eq!(entries[0].sha, "abcdef0123456789abcdef0123456789abcdef01");
    assert_eq!(entries[0].short_sha, "abcdef0");
    assert_eq!(entries[0].orig_line, 1);
    assert_eq!(entries[0].final_line, 1);
    assert_eq!(entries[0].num_lines, 3);
    assert_eq!(entries[0].author_name, "Alice");
    assert_eq!(entries[0].author_email, "alice@example.com");
    assert_eq!(entries[0].committer_name, "Bob");
    assert_eq!(entries[0].summary, "Initial commit");
    assert_eq!(entries[0].filename, "src/main.rs");
}

#[test]
fn test_parse_blame_empty() {
    let entries = parse_blame_output(b"");
    assert!(entries.is_empty());
}

#[test]
fn test_parse_blame_missing_filename_dropped() {
    // A chunk with a valid header and metadata but no filename line is
    // dropped even at end of input.
    let raw = b"abcdef0123456789abcdef0123456789abcdef01 1 1 3\nauthor Alice\nauthor-time 1700000000\nsummary No file\n";
    let entries = parse_blame_output(raw);
    assert!(entries.is_empty());
}

#[test]
fn test_parse_blame_two_chunks_one_incomplete() {
    // The first chunk lacks a filename and is dropped when the second
    // header arrives; the second chunk is kept.
    let raw = b"abcdef0123456789abcdef0123456789abcdef01 1 1 1\nauthor Alice\nsummary First\nfeedfacefeedfacefeedfacefeedfacefeedface 2 2 1\nauthor Bob\nfilename lib.rs\n";
    let entries = parse_blame_output(raw);
    assert_eq!(entries.len(), 1);
    assert_eq!(entries[0].sha, "feedfacefeedfacefeedfacefeedfacefeedface");
    assert_eq!(entries[0].short_sha, "feedfac");
    assert_eq!(entries[0].author_name, "Bob");
    assert_eq!(entries[0].filename, "lib.rs");
}

#[test]
fn test_parse_blame_header_defaults() {
    // A header with only two numbers: the line count defaults to one.
    let raw =
        b"abcdef0123456789abcdef0123456789abcdef01 4 9 zz\nauthor Alice\nfilename a.rs\n";
    let entries = parse_blame_output(raw);
    assert_eq!(entries.len(), 1);
    assert_eq!(entries[0].orig_line, 4);
    assert_eq!(entries[0].final_line, 9);
    assert_eq!(entries[0].num_lines, 1);
}

#[test]
fn test_parse_blame_invalid_utf8() {
    let entries = parse_blame_output(&[0xff, 0xfe, 0x41]);
    assert!(entries.is_empty());
}

#[test]
fn test_parse_blame_tab_lines_ignored() {
    let raw = b"abcdef0123456789abcdef0123456789abcdef01 1 1 1\nauthor Alice\n\tsome content line\nfilename f.rs\n";
    let entries = parse_blame_output(raw);
    assert_eq!(entries.len(), 1);
    assert_eq!(entries[0].filename, "f.rs");
}
