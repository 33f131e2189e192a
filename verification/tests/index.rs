use file_duplicate_finder::entry::Entry;
use file_duplicate_finder::index::DuplicateIndex;

fn paths(entries: &Vec<Entry>) -> Vec<String> {
    entries.iter().map(|e| e.path.clone()).collect()
}

#[test]
fn new_index_is_empty() {
    let index = DuplicateIndex::new();
    assert!(index.digests().is_empty());
    assert!(index.duplicate_groups().is_empty());
    assert!(index.bucket(7).is_empty());
}

#[test]
fn insert_appends_to_the_bucket_of_the_hash() {
    let mut index = DuplicateIndex::new();
    index.insert(1, Entry::file("a", "/r/a"));
    index.insert(2, Entry::file("b", "/r/b"));
    index.insert(1, Entry::file("c", "/r/c"));
    assert_eq!(index.digests(), vec![1, 2]);
    assert_eq!(paths(&index.bucket(1)), vec!["/r/a", "/r/c"]);
    assert_eq!(paths(&index.bucket(2)), vec!["/r/b"]);
    assert!(index.bucket(3).is_empty());
}

#[test]
fn groups_are_the_buckets_of_two_or_more() {
    let mut index = DuplicateIndex::new();
    index.insert(10, Entry::file("one", "/r/one"));
    index.insert(20, Entry::file("x", "/r/A/x"));
    index.insert(30, Entry::file("y", "/r/A/y"));
    index.insert(20, Entry::file("x", "/r/B/x"));
    index.insert(30, Entry::file("y", "/r/B/y"));
    index.insert(30, Entry::file("y", "/r/C/y"));
    let groups = index.duplicate_groups();
    assert_eq!(groups.len(), 2);
    assert_eq!(groups[0].digest, 20);
    assert_eq!(paths(&groups[0].entries), vec!["/r/A/x", "/r/B/x"]);
    assert_eq!(groups[1].digest, 30);
    assert_eq!(paths(&groups[1].entries), vec!["/r/A/y", "/r/B/y", "/r/C/y"]);
}

#[test]
fn a_bucket_of_one_is_no_group() {
    let mut index = DuplicateIndex::new();
    index.insert(1, Entry::file("a", "/a"));
    index.insert(2, Entry::file("b", "/b"));
    index.insert(3, Entry::file("c", "/c"));
    assert!(index.duplicate_groups().is_empty());
    assert_eq!(index.digests().len(), 3);
}

#[test]
fn groups_keep_the_entries_whole() {
    let mut index = DuplicateIndex::new();
    index.insert(5, Entry::file("n.txt", "/p/n.txt"));
    index.insert(5, Entry::file("m.txt", "/q/m.txt"));
    let groups = index.duplicate_groups();
    assert_eq!(groups[0].entries[0], Entry::file("n.txt", "/p/n.txt"));
    assert_eq!(groups[0].entries[1], Entry::file("m.txt", "/q/m.txt"));
    assert!(!groups[0].entries[0].is_dir);
}

#[test]
fn the_order_of_insertion_decides_only_the_order() {
    let mut first = DuplicateIndex::new();
    first.insert(1, Entry::file("a", "/a"));
    first.insert(2, Entry::file("b", "/b"));
    first.insert(1, Entry::file("c", "/c"));
    let mut second = DuplicateIndex::new();
    second.insert(1, Entry::file("c", "/c"));
    second.insert(2, Entry::file("b", "/b"));
    second.insert(1, Entry::file("a", "/a"));
    for digest in [1u128, 2, 3] {
        let mut left = paths(&first.bucket(digest));
        let mut right = paths(&second.bucket(digest));
        left.sort();
        right.sort();
        assert_eq!(left, right);
    }
}

#[test]
fn entry_clone_keeps_every_field() {
    let dir = Entry::directory("sub", "/r/sub");
    let copy = dir.clone();
    assert_eq!(copy, dir);
    assert!(copy.is_dir);
    assert_eq!(copy.name, "sub");
    assert_eq!(copy.path, "/r/sub");
}
