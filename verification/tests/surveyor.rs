use file_duplicate_finder::entry::Entry;
use file_duplicate_finder::error::ScanError;
use file_duplicate_finder::surveyor::{
    use_parallelism, walk_in_parallel, Survey, Surveyor, PARALLELISM_THRESHOLD,
};

/// A directory of a tree held in memory.
struct Dir {
    path: String,
    files: usize,
    dirs: Vec<Dir>,
}

fn listing(dir: &Dir) -> Vec<Entry> {
    let mut entries = Vec::new();
    for i in 0..dir.files {
        let name = format!("f{}", i);
        entries.push(Entry::file(&name, &format!("{}/{}", dir.path, name)));
    }
    for sub in &dir.dirs {
        entries.push(Entry::directory("d", &sub.path));
    }
    entries
}

fn find<'a>(dir: &'a Dir, path: &str) -> Option<&'a Dir> {
    if dir.path == path {
        return Some(dir);
    }
    for sub in &dir.dirs {
        if let Some(found) = find(sub, path) {
            return Some(found);
        }
    }
    None
}

/// Runs a probe over the tree and says what it decided and how many
/// directories it listed.
fn probe(root: &Dir) -> (bool, usize) {
    let mut surveyor = Surveyor::new(Entry::directory("root", &root.path)).unwrap();
    let mut event: Option<Vec<Entry>> = None;
    let mut listed = 0;
    loop {
        match surveyor.scan_dirs(event.take()) {
            Survey::Decided(parallel) => return (parallel, listed),
            Survey::List(dir) => {
                listed += 1;
                event = Some(listing(find(root, &dir.path).unwrap()));
            }
        }
    }
}

fn flat(path: &str, files: usize) -> Dir {
    Dir { path: path.to_string(), files, dirs: Vec::new() }
}

#[test]
fn threshold_is_one_hundred() {
    assert_eq!(PARALLELISM_THRESHOLD, 100);
    assert!(!use_parallelism(99));
    assert!(use_parallelism(100));
    assert!(use_parallelism(usize::MAX));
    assert!(!use_parallelism(0));
}

#[test]
fn one_entry_below_the_threshold_is_sequential() {
    assert_eq!(probe(&flat("/r", 99)), (false, 1));
}

#[test]
fn exactly_the_threshold_is_parallel() {
    assert_eq!(probe(&flat("/r", 100)), (true, 1));
}

#[test]
fn directories_count_as_entries() {
    let mut root = flat("/r", 0);
    for i in 0..100 {
        root.dirs.push(flat(&format!("/r/d{}", i), 0));
    }
    assert_eq!(probe(&root), (true, 1));
    root.dirs.pop();
    assert_eq!(probe(&root), (false, 100));
}

#[test]
fn the_count_runs_over_the_whole_tree() {
    let root = Dir {
        path: "/r".to_string(),
        files: 40,
        dirs: vec![
            Dir { path: "/r/a".to_string(), files: 28, dirs: vec![flat("/r/a/deep", 29)] },
            flat("/r/b", 0),
        ],
    };
    // 40 + 2 below the root, 28 + 1 below a, 29 below deep: 100 in all.
    assert_eq!(probe(&root), (true, 4));
    let smaller = Dir {
        path: "/r".to_string(),
        files: 40,
        dirs: vec![
            Dir { path: "/r/a".to_string(), files: 28, dirs: vec![flat("/r/a/deep", 28)] },
            flat("/r/b", 0),
        ],
    };
    assert_eq!(probe(&smaller), (false, 4));
}

#[test]
fn the_probe_stops_as_soon_as_the_threshold_is_reached() {
    let root = Dir {
        path: "/r".to_string(),
        files: 150,
        dirs: vec![flat("/r/a", 500), flat("/r/b", 500)],
    };
    assert_eq!(probe(&root), (true, 1));
}

#[test]
fn the_probe_goes_breadth_first() {
    let root = Dir {
        path: "/r".to_string(),
        files: 0,
        dirs: vec![
            Dir { path: "/r/a".to_string(), files: 0, dirs: vec![flat("/r/a/x", 0)] },
            flat("/r/b", 0),
        ],
    };
    let mut surveyor = Surveyor::new(Entry::directory("r", "/r")).unwrap();
    let mut order = Vec::new();
    let mut event: Option<Vec<Entry>> = None;
    loop {
        match surveyor.scan_dirs(event.take()) {
            Survey::Decided(parallel) => {
                assert!(!parallel);
                break;
            }
            Survey::List(dir) => {
                event = Some(listing(find(&root, &dir.path).unwrap()));
                order.push(dir.path);
            }
        }
    }
    assert_eq!(order, vec!["/r", "/r/a", "/r/b", "/r/a/x"]);
    assert_eq!(surveyor.count(), 3);
}

#[test]
fn an_empty_tree_is_sequential() {
    assert_eq!(probe(&flat("/r", 0)), (false, 1));
}

#[test]
fn a_root_that_is_no_directory_is_refused() {
    assert!(matches!(Surveyor::new(Entry::file("f", "/f")), Err(ScanError::InvalidInput)));
    assert!(Surveyor::new(Entry::directory("d", "/d")).is_ok());
}

#[test]
fn a_fresh_probe_asks_for_the_listing_of_its_root() {
    let mut surveyor = Surveyor::new(Entry::directory("", "/")).unwrap();
    assert_eq!(surveyor.count(), 0);
    match surveyor.scan_dirs(None) {
        Survey::List(dir) => assert_eq!(dir, Entry::directory("", "/")),
        Survey::Decided(_) => panic!("nothing was listed yet"),
    }
}

#[test]
fn the_count_stops_at_the_largest_number() {
    let mut surveyor = Surveyor::new(Entry::directory("r", "/r")).unwrap();
    assert!(matches!(surveyor.scan_dirs(None), Survey::List(_)));
    let many: Vec<Entry> = (0..120).map(|i| Entry::file("f", &format!("/r/{}", i))).collect();
    assert!(matches!(surveyor.scan_dirs(Some(many)), Survey::Decided(true)));
    assert_eq!(surveyor.count(), 120);
}

#[test]
fn one_large_root_makes_the_walk_parallel() {
    assert!(!walk_in_parallel(&vec![]));
    assert!(!walk_in_parallel(&vec![false, false]));
    assert!(walk_in_parallel(&vec![false, true, false]));
    assert!(walk_in_parallel(&vec![true]));
}
