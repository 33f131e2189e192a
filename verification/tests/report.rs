use file_duplicate_finder::digest::content_digest;
use file_duplicate_finder::entry::Entry;
use file_duplicate_finder::index::{DuplicateGroup, DuplicateIndex};
use file_duplicate_finder::report::{format_log, format_summary, normalise_paths};

#[test]
fn no_group_gives_the_line_that_says_so() {
    assert_eq!(format_log(&vec![], false), "No duplicates found\n");
    assert_eq!(format_log(&vec![], true), "No duplicates found\n");
}

#[test]
fn a_group_gets_a_header_and_a_line_per_path() {
    let group = DuplicateGroup {
        digest: 0x5eb63bbbe01eeed093cb22bb8f5acdc3,
        entries: vec![Entry::file("x.txt", "/r/A/x.txt"), Entry::file("x.txt", "/r/B/x.txt")],
    };
    let text = format_log(&vec![group], false);
    assert_eq!(
        text,
        "\"x.txt\" (with hash 5eb63bbbe01eeed093cb22bb8f5acdc3):\n  /r/A/x.txt\n  /r/B/x.txt\n"
    );
}

#[test]
fn the_header_names_the_first_file_of_the_group() {
    let group = DuplicateGroup {
        digest: 1,
        entries: vec![Entry::file("first", "/a/first"), Entry::file("second", "/b/second")],
    };
    let text = format_log(&vec![group], false);
    assert!(text.starts_with("\"first\" (with hash 00000000000000000000000000000001):\n"));
}

#[test]
fn names_are_quoted_as_debug_prints_them() {
    let group = DuplicateGroup {
        digest: 2,
        entries: vec![Entry::file("a \"b\"\n", "/p"), Entry::file("c", "/q")],
    };
    let text = format_log(&vec![group], false);
    assert_eq!(
        text,
        "\"a \\\"b\\\"\\n\" (with hash 00000000000000000000000000000002):\n  /p\n  /q\n"
    );
}

#[test]
fn blocks_follow_each_other_in_the_order_of_the_groups() {
    let mut index = DuplicateIndex::new();
    index.insert(content_digest(b"one"), Entry::file("a", "/1/a"));
    index.insert(content_digest(b"two"), Entry::file("b", "/1/b"));
    index.insert(content_digest(b"three"), Entry::file("c", "/1/c"));
    index.insert(content_digest(b"two"), Entry::file("b", "/2/b"));
    index.insert(content_digest(b"one"), Entry::file("a", "/2/a"));
    let groups = index.duplicate_groups();
    let text = format_log(&groups, false);
    let expected = format!(
        "\"a\" (with hash {:x}):\n  /1/a\n  /2/a\n\"b\" (with hash {:x}):\n  /1/b\n  /2/b\n",
        md5::compute(b"one"),
        md5::compute(b"two")
    );
    assert_eq!(text, expected);
}

#[test]
fn verbatim_prefixes_are_stripped_on_request() {
    let group = DuplicateGroup {
        digest: 3,
        entries: vec![
            Entry::file("f", "\\\\?\\C:\\data\\f"),
            Entry::file("f", "C:\\other\\f"),
        ],
    };
    let stripped = format_log(&vec![group], true);
    assert_eq!(
        stripped,
        "\"f\" (with hash 00000000000000000000000000000003):\n  C:\\data\\f\n  C:\\other\\f\n"
    );
    let group = DuplicateGroup {
        digest: 3,
        entries: vec![
            Entry::file("f", "\\\\?\\C:\\data\\f"),
            Entry::file("f", "C:\\other\\f"),
        ],
    };
    let kept = format_log(&vec![group], false);
    assert_eq!(
        kept,
        "\"f\" (with hash 00000000000000000000000000000003):\n  \\\\?\\C:\\data\\f\n  C:\\other\\f\n"
    );
}

#[test]
fn normalise_paths_takes_the_verbatim_prefix_away() {
    assert_eq!(normalise_paths("\\\\?\\C:\\Users\\me".to_string()), "C:\\Users\\me");
    assert_eq!(normalise_paths("\\\\?\\".to_string()), "");
}

#[test]
fn normalise_paths_leaves_other_paths_alone() {
    assert_eq!(normalise_paths("C:\\Users\\me".to_string()), "C:\\Users\\me");
    assert_eq!(normalise_paths("/home/me".to_string()), "/home/me");
    assert_eq!(normalise_paths("\\\\?".to_string()), "\\\\?");
    assert_eq!(normalise_paths("".to_string()), "");
    assert_eq!(normalise_paths("\\\\server\\share".to_string()), "\\\\server\\share");
    assert_eq!(normalise_paths("a\\\\?\\b".to_string()), "a\\\\?\\b");
}

#[test]
fn normalise_paths_counts_characters_not_bytes() {
    assert_eq!(normalise_paths("\\\\?\\D:\\données\\été".to_string()), "D:\\données\\été");
    assert_eq!(normalise_paths("été\\\\?\\".to_string()), "été\\\\?\\");
}

#[test]
fn the_summary_counts_the_groups() {
    assert_eq!(format_summary(0), "Found 0 duplicates");
    assert_eq!(format_summary(7), "Found 7 duplicates");
    assert_eq!(format_summary(10), "Found 10 duplicates");
    assert_eq!(format_summary(1234567), "Found 1234567 duplicates");
}
