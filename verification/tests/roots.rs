use file_duplicate_finder::entry::Entry;
use file_duplicate_finder::error::ScanError;
use file_duplicate_finder::roots::{normalise_roots, root_entries, Root};

fn root(path: &str) -> Root {
    let mut components: Vec<String> = vec!["/".to_string()];
    for part in path.split('/') {
        if !part.is_empty() {
            components.push(part.to_string());
        }
    }
    let name = if components.len() > 1 { components.last().cloned() } else { None };
    Root { path: path.to_string(), components, name, is_dir: true }
}

fn root_paths(roots: &Vec<Root>) -> Vec<String> {
    roots.iter().map(|r| r.path.clone()).collect()
}

#[test]
fn a_nested_root_collapses_into_the_outer_one() {
    let kept = normalise_roots(&vec![root("/data/R"), root("/data/R/sub")]).unwrap();
    assert_eq!(root_paths(&kept.roots), vec!["/data/R"]);
    assert!(kept.collapsed);
}

#[test]
fn the_order_of_the_arguments_does_not_matter_for_nesting() {
    let kept = normalise_roots(&vec![root("/data/R/sub"), root("/data/R")]).unwrap();
    assert_eq!(root_paths(&kept.roots), vec!["/data/R"]);
    assert!(kept.collapsed);
}

#[test]
fn independent_roots_all_stay() {
    let kept = normalise_roots(&vec![root("/a/b"), root("/c"), root("/a/d")]).unwrap();
    assert_eq!(root_paths(&kept.roots), vec!["/c", "/a/b", "/a/d"]);
    assert!(!kept.collapsed);
}

#[test]
fn roots_of_one_depth_keep_their_order() {
    let kept = normalise_roots(&vec![root("/z"), root("/y"), root("/x")]).unwrap();
    assert_eq!(root_paths(&kept.roots), vec!["/z", "/y", "/x"]);
    assert!(!kept.collapsed);
}

#[test]
fn a_root_given_twice_is_scanned_once() {
    let kept = normalise_roots(&vec![root("/a"), root("/a")]).unwrap();
    assert_eq!(root_paths(&kept.roots), vec!["/a"]);
    assert!(kept.collapsed);
}

#[test]
fn a_name_that_only_begins_alike_is_not_nested() {
    let kept = normalise_roots(&vec![root("/data/R"), root("/data/Rest")]).unwrap();
    assert_eq!(root_paths(&kept.roots), vec!["/data/R", "/data/Rest"]);
    assert!(!kept.collapsed);
}

#[test]
fn deep_nesting_collapses_to_the_top_most_root() {
    let kept = normalise_roots(&vec![
        root("/a/b/c/d"),
        root("/a/b"),
        root("/q"),
        root("/a/b/c"),
        root("/q/r/s"),
    ])
    .unwrap();
    assert_eq!(root_paths(&kept.roots), vec!["/q", "/a/b"]);
    assert!(kept.collapsed);
}

#[test]
fn the_file_system_root_covers_everything() {
    let kept = normalise_roots(&vec![root("/a"), root("/"), root("/b/c")]).unwrap();
    assert_eq!(root_paths(&kept.roots), vec!["/"]);
    assert!(kept.collapsed);
}

#[test]
fn a_single_root_stays() {
    let kept = normalise_roots(&vec![root("/only")]).unwrap();
    assert_eq!(root_paths(&kept.roots), vec!["/only"]);
    assert!(!kept.collapsed);
}

#[test]
fn no_root_at_all_is_invalid_input() {
    let refused = normalise_roots(&vec![]);
    assert!(matches!(refused, Err(ScanError::InvalidInput)));
}

#[test]
fn is_within_goes_by_whole_components() {
    assert!(root("/a/b").is_within(&root("/a")));
    assert!(root("/a").is_within(&root("/a")));
    assert!(!root("/a").is_within(&root("/a/b")));
    assert!(!root("/ab").is_within(&root("/a")));
    assert!(root("/a/b/c").is_within(&root("/")));
}

#[test]
fn roots_become_directory_entries() {
    let entries = root_entries(&vec![root("/data/R"), root("/x")]).unwrap();
    assert_eq!(entries, vec![Entry::directory("R", "/data/R"), Entry::directory("x", "/x")]);
}

#[test]
fn a_root_that_is_no_directory_is_invalid_input() {
    let mut file = root("/data/file.txt");
    file.is_dir = false;
    let refused = root_entries(&vec![root("/data/R"), file]);
    assert!(matches!(refused, Err(ScanError::InvalidInput)));
}

#[test]
fn a_root_without_a_name_is_seeded_under_an_empty_name() {
    let entries = root_entries(&vec![root("/"), root("/data")]).unwrap();
    assert_eq!(entries, vec![Entry::directory("", "/"), Entry::directory("data", "/data")]);
}

#[test]
fn the_file_system_root_can_be_walked() {
    let kept = normalise_roots(&vec![root("/")]).unwrap();
    let entries = root_entries(&kept.roots).unwrap();
    assert_eq!(entries.len(), 1);
    assert!(entries[0].is_dir);
    assert_eq!(entries[0].path, "/");
}

#[test]
fn no_roots_give_no_entries() {
    assert_eq!(root_entries(&vec![]).unwrap(), Vec::<Entry>::new());
}

#[test]
fn root_clone_keeps_every_field() {
    let first = root("/a/b/c");
    let copy = first.clone();
    assert_eq!(copy, first);
    assert_eq!(copy.components, vec!["/", "a", "b", "c"]);
    assert_eq!(copy.name, Some("c".to_string()));
}
