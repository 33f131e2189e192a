use file_duplicate_finder::digest::content_digest;
use file_duplicate_finder::entry::Entry;
use file_duplicate_finder::error::ScanError;
use file_duplicate_finder::index::DuplicateIndex;
use file_duplicate_finder::pool::{Claim, Phase, WorkerPool};
use file_duplicate_finder::report::format_log;
use file_duplicate_finder::walker::SequentialWalker;

/// A tree held in memory: what a listing of each directory reports, and
/// what a read of each file gives. A file without content cannot be read.
struct Tree {
    dirs: Vec<(String, Vec<Entry>)>,
    files: Vec<(String, Option<Vec<u8>>)>,
}

impl Tree {
    fn new() -> Tree {
        Tree { dirs: Vec::new(), files: Vec::new() }
    }

    fn dir(&mut self, parent: &str, name: &str) -> String {
        let path = format!("{}/{}", parent, name);
        self.dirs.push((path.clone(), Vec::new()));
        for (p, listing) in self.dirs.iter_mut() {
            if p == parent {
                listing.push(Entry::directory(name, &path));
            }
        }
        path
    }

    fn root(&mut self, path: &str) -> Entry {
        self.dirs.push((path.to_string(), Vec::new()));
        Entry::directory(path.trim_start_matches('/'), path)
    }

    fn put(&mut self, parent: &str, name: &str, content: Option<&[u8]>) {
        let path = format!("{}/{}", parent, name);
        self.files.push((path.clone(), content.map(|c| c.to_vec())));
        for (p, listing) in self.dirs.iter_mut() {
            if p == parent {
                listing.push(Entry::file(name, &path));
            }
        }
    }

    fn file(&mut self, parent: &str, name: &str, content: &[u8]) {
        self.put(parent, name, Some(content));
    }

    fn list(&self, path: &str) -> Vec<Entry> {
        for (p, listing) in &self.dirs {
            if p == path {
                return listing.clone();
            }
        }
        panic!("no such directory: {}", path);
    }

    fn read(&self, path: &str) -> Option<Vec<u8>> {
        for (p, content) in &self.files {
            if p == path {
                return content.clone();
            }
        }
        panic!("no such file: {}", path);
    }
}

/// What one simulated worker holds: the rest of the listing of its task.
struct Worker {
    job: Option<Vec<Entry>>,
    stopped: bool,
}

/// Walks the tree with the pool. The workers take their steps in the order
/// that `pick` gives: it is called with the number of the step and says
/// which worker moves.
fn parallel_walk(
    tree: &Tree,
    roots: &Vec<Entry>,
    workers: usize,
    pick: &dyn Fn(usize) -> usize,
) -> Result<DuplicateIndex, ScanError> {
    let mut pool = WorkerPool::new(workers, roots)?;
    let mut team: Vec<Worker> =
        (0..workers).map(|_| Worker { job: None, stopped: false }).collect();
    let mut step = 0;
    let mut broadcasts = 0;
    while team.iter().any(|w| !w.stopped) {
        step += 1;
        assert!(step < 100_000, "the walk does not end");
        let w = pick(step) % workers;
        if team[w].stopped {
            continue;
        }
        match team[w].job.take() {
            None => match pool.claim() {
                Claim::Stop => team[w].stopped = true,
                Claim::Wait => {
                    assert_eq!(pool.phase(), Phase::Running);
                    assert!(team.iter().any(|other| other.job.is_some()));
                }
                Claim::Task(dir) => {
                    assert!(dir.is_dir);
                    let mut listing = tree.list(&dir.path);
                    listing.reverse();
                    team[w].job = Some(listing);
                }
            },
            Some(mut rest) => match rest.pop() {
                Some(entry) => {
                    if entry.is_dir {
                        assert!(pool.outstanding() < usize::MAX);
                        pool.discover(entry);
                        team[w].job = Some(rest);
                    } else {
                        match tree.read(&entry.path) {
                            Some(bytes) => {
                                pool.record(content_digest(&bytes), entry);
                                team[w].job = Some(rest);
                            }
                            None => {
                                pool.abort();
                                team[w].stopped = true;
                            }
                        }
                    }
                }
                None => {
                    let was_running = pool.phase() == Phase::Running;
                    let sentinels = pool.complete();
                    if sentinels > 0 {
                        broadcasts += 1;
                        assert_eq!(sentinels, workers);
                        assert_eq!(pool.outstanding(), 0);
                        assert_eq!(pool.phase(), Phase::Done);
                    } else if was_running {
                        assert!(pool.outstanding() > 0);
                    }
                }
            },
        }
    }
    assert_ne!(pool.phase(), Phase::Running);
    if pool.phase() == Phase::Done {
        assert_eq!(broadcasts, 1);
        assert!(matches!(pool.claim(), Claim::Wait));
    } else {
        assert_eq!(broadcasts, 0);
    }
    pool.finish()
}

fn sequential_walk(tree: &Tree, roots: &Vec<Entry>) -> Result<DuplicateIndex, ScanError> {
    let mut walker = SequentialWalker::new(roots)?;
    let mut order = Vec::new();
    while let Some(dir) = walker.next_dir() {
        order.push(dir.path.clone());
        for entry in tree.list(&dir.path) {
            if entry.is_dir {
                walker.discover(entry);
            } else {
                match tree.read(&entry.path) {
                    Some(bytes) => walker.record(content_digest(&bytes), entry),
                    None => {
                        walker.abort();
                        break;
                    }
                }
            }
        }
    }
    assert_eq!(walker.pending(), 0);
    walker.finish()
}

/// The content of an index as pairs of a hash and the sorted paths under it,
/// sorted by hash.
fn content(index: &DuplicateIndex) -> Vec<(u128, Vec<String>)> {
    let mut pairs: Vec<(u128, Vec<String>)> = index
        .digests()
        .into_iter()
        .map(|digest| {
            let mut paths: Vec<String> =
                index.bucket(digest).into_iter().map(|e| e.path).collect();
            paths.sort();
            (digest, paths)
        })
        .collect();
    pairs.sort();
    pairs
}

fn groups(index: &DuplicateIndex) -> Vec<(u128, Vec<String>)> {
    let mut pairs: Vec<(u128, Vec<String>)> = index
        .duplicate_groups()
        .into_iter()
        .map(|group| {
            let mut paths: Vec<String> = group.entries.into_iter().map(|e| e.path).collect();
            paths.sort();
            (group.digest, paths)
        })
        .collect();
    pairs.sort();
    pairs
}

fn two_identical_files() -> (Tree, Vec<Entry>) {
    let mut tree = Tree::new();
    let root = tree.root("/t");
    let a = tree.dir("/t", "A");
    let b = tree.dir("/t", "B");
    tree.file(&a, "x.txt", b"the same bytes");
    tree.file(&a, "y.txt", b"one content");
    tree.file(&b, "x.txt", b"the same bytes");
    tree.file(&b, "y.txt", b"another content");
    (tree, vec![root])
}

fn larger_tree() -> (Tree, Vec<Entry>) {
    let mut tree = Tree::new();
    let first = tree.root("/one");
    let second = tree.root("/two");
    tree.file("/one", "top", b"top");
    let a = tree.dir("/one", "a");
    let b = tree.dir("/one", "b");
    let deep = tree.dir(&a, "deep");
    let deeper = tree.dir(&deep, "deeper");
    tree.dir(&b, "empty");
    tree.file(&a, "dup1", b"shared");
    tree.file(&deep, "dup2", b"shared");
    tree.file(&deeper, "dup3", b"shared");
    tree.file(&deeper, "unique", b"unique");
    tree.file(&b, "pair1", b"pair");
    let c = tree.dir("/two", "c");
    tree.file(&c, "pair2", b"pair");
    tree.file(&c, "top-again", b"top");
    tree.file("/two", "empty1", b"");
    tree.file(&c, "empty2", b"");
    tree.file(&c, "lonely", b"lonely");
    (tree, vec![first, second])
}

fn round_robin(step: usize) -> usize {
    step
}

fn scrambled(step: usize) -> usize {
    (step * 7919 + step / 3) % 1009
}

fn lopsided(step: usize) -> usize {
    if step % 5 == 0 {
        step / 5
    } else {
        0
    }
}

#[test]
fn two_identical_files_form_one_group() {
    let (tree, roots) = two_identical_files();
    let index = parallel_walk(&tree, &roots, 3, &round_robin).unwrap();
    let found = groups(&index);
    assert_eq!(
        found,
        vec![(
            content_digest(b"the same bytes"),
            vec!["/t/A/x.txt".to_string(), "/t/B/x.txt".to_string()]
        )]
    );
    assert_eq!(index.bucket(content_digest(b"one content")).len(), 1);
    assert_eq!(index.bucket(content_digest(b"another content")).len(), 1);
    assert_eq!(index.digests().len(), 3);
}

#[test]
fn two_identical_files_form_one_group_sequentially() {
    let (tree, roots) = two_identical_files();
    let index = sequential_walk(&tree, &roots).unwrap();
    assert_eq!(
        groups(&index),
        vec![(
            content_digest(b"the same bytes"),
            vec!["/t/A/x.txt".to_string(), "/t/B/x.txt".to_string()]
        )]
    );
}

#[test]
fn the_log_of_two_identical_files() {
    let (tree, roots) = two_identical_files();
    let index = sequential_walk(&tree, &roots).unwrap();
    let text = format_log(&index.duplicate_groups(), false);
    let header = format!("\"x.txt\" (with hash {:x}):\n", md5::compute(b"the same bytes"));
    assert!(text.starts_with(&header));
    assert!(text.contains("  /t/A/x.txt\n"));
    assert!(text.contains("  /t/B/x.txt\n"));
    assert!(!text.contains("y.txt"));
    assert_eq!(text.lines().count(), 3);
}

#[test]
fn both_engines_find_the_same_content() {
    let (tree, roots) = larger_tree();
    let sequential = sequential_walk(&tree, &roots).unwrap();
    for workers in [1usize, 2, 3, 8] {
        let parallel = parallel_walk(&tree, &roots, workers, &round_robin).unwrap();
        assert_eq!(content(&parallel), content(&sequential));
        assert_eq!(groups(&parallel), groups(&sequential));
    }
}

#[test]
fn the_schedule_does_not_change_the_content() {
    let (tree, roots) = larger_tree();
    let reference = content(&parallel_walk(&tree, &roots, 4, &round_robin).unwrap());
    assert_eq!(content(&parallel_walk(&tree, &roots, 4, &scrambled).unwrap()), reference);
    assert_eq!(content(&parallel_walk(&tree, &roots, 4, &lopsided).unwrap()), reference);
    assert_eq!(content(&parallel_walk(&tree, &roots, 2, &lopsided).unwrap()), reference);
}

#[test]
fn a_second_scan_finds_the_same_groups() {
    let (tree, roots) = larger_tree();
    let first = parallel_walk(&tree, &roots, 3, &scrambled).unwrap();
    let second = parallel_walk(&tree, &roots, 3, &scrambled).unwrap();
    assert_eq!(groups(&first), groups(&second));
    let third = sequential_walk(&tree, &roots).unwrap();
    let fourth = sequential_walk(&tree, &roots).unwrap();
    assert_eq!(groups(&third), groups(&fourth));
    assert_eq!(groups(&first), groups(&third));
}

#[test]
fn the_larger_tree_has_four_groups() {
    let (tree, roots) = larger_tree();
    let index = sequential_walk(&tree, &roots).unwrap();
    let mut expected = vec![
        (
            content_digest(b"shared"),
            vec![
                "/one/a/deep/deeper/dup3".to_string(),
                "/one/a/deep/dup2".to_string(),
                "/one/a/dup1".to_string(),
            ],
        ),
        (
            content_digest(b"pair"),
            vec!["/one/b/pair1".to_string(), "/two/c/pair2".to_string()],
        ),
        (content_digest(b"top"), vec!["/one/top".to_string(), "/two/c/top-again".to_string()]),
        (content_digest(b""), vec!["/two/c/empty2".to_string(), "/two/empty1".to_string()]),
    ];
    expected.sort();
    assert_eq!(groups(&index), expected);
    assert_eq!(index.digests().len(), 6);
}

#[test]
fn every_file_is_indexed_once() {
    let (tree, roots) = larger_tree();
    let index = parallel_walk(&tree, &roots, 5, &scrambled).unwrap();
    let mut indexed: Vec<String> = Vec::new();
    for digest in index.digests() {
        for entry in index.bucket(digest) {
            assert!(!entry.is_dir);
            assert_eq!(content_digest(&tree.read(&entry.path).unwrap()), digest);
            indexed.push(entry.path);
        }
    }
    indexed.sort();
    let mut all: Vec<String> = tree.files.iter().map(|(p, _)| p.clone()).collect();
    all.sort();
    assert_eq!(indexed, all);
}

#[test]
fn distinct_contents_give_no_group() {
    let mut tree = Tree::new();
    let root = tree.root("/d");
    let sub = tree.dir("/d", "sub");
    tree.file("/d", "a", b"1");
    tree.file("/d", "b", b"2");
    tree.file(&sub, "a", b"3");
    tree.file(&sub, "c", b"4");
    let roots = vec![root];
    let sequential = sequential_walk(&tree, &roots).unwrap();
    let parallel = parallel_walk(&tree, &roots, 2, &round_robin).unwrap();
    assert!(sequential.duplicate_groups().is_empty());
    assert!(parallel.duplicate_groups().is_empty());
    assert_eq!(format_log(&sequential.duplicate_groups(), false), "No duplicates found\n");
    assert_eq!(format_log(&parallel.duplicate_groups(), false), "No duplicates found\n");
    assert_eq!(parallel.digests().len(), 4);
}

#[test]
fn an_empty_directory_is_walked_to_an_empty_index() {
    let mut tree = Tree::new();
    let roots = vec![tree.root("/nothing")];
    let sequential = sequential_walk(&tree, &roots).unwrap();
    let parallel = parallel_walk(&tree, &roots, 4, &round_robin).unwrap();
    assert!(sequential.digests().is_empty());
    assert!(parallel.digests().is_empty());
}

#[test]
fn an_unreadable_file_fails_the_parallel_walk() {
    let (mut tree, roots) = larger_tree();
    tree.put("/one/a/deep", "locked", None);
    for workers in [1usize, 2, 4] {
        let result = parallel_walk(&tree, &roots, workers, &scrambled);
        assert!(matches!(result, Err(ScanError::IoFailure)));
    }
}

#[test]
fn an_unreadable_file_fails_the_sequential_walk() {
    let (mut tree, roots) = larger_tree();
    tree.put("/one/a/deep", "locked", None);
    let result = sequential_walk(&tree, &roots);
    assert!(matches!(result, Err(ScanError::IoFailure)));
}

#[test]
fn after_a_failure_every_worker_is_told_to_stop() {
    let (tree, roots) = two_identical_files();
    let mut pool = WorkerPool::new(2, &roots).unwrap();
    let dir = match pool.claim() {
        Claim::Task(dir) => dir,
        other => panic!("expected a task, got {:?}", other),
    };
    for entry in tree.list(&dir.path) {
        pool.discover(entry);
    }
    assert_eq!(pool.outstanding(), 3);
    pool.abort();
    assert_eq!(pool.phase(), Phase::Failed);
    for _ in 0..5 {
        assert!(matches!(pool.claim(), Claim::Stop));
    }
    pool.discover(Entry::directory("late", "/t/late"));
    pool.record(1, Entry::file("late", "/t/late.txt"));
    assert_eq!(pool.complete(), 0);
    assert_eq!(pool.phase(), Phase::Failed);
    assert!(matches!(pool.finish(), Err(ScanError::IoFailure)));
}

#[test]
fn the_counter_follows_tasks_created_and_completed() {
    let roots = vec![Entry::directory("a", "/a"), Entry::directory("b", "/b")];
    let mut pool = WorkerPool::new(3, &roots).unwrap();
    assert_eq!(pool.workers(), 3);
    assert_eq!(pool.outstanding(), 2);
    assert_eq!(pool.phase(), Phase::Running);
    let first = match pool.claim() {
        Claim::Task(dir) => dir,
        other => panic!("expected a task, got {:?}", other),
    };
    assert_eq!(first.path, "/a");
    assert_eq!(pool.outstanding(), 2);
    pool.discover(Entry::directory("sub", "/a/sub"));
    assert_eq!(pool.outstanding(), 3);
    assert_eq!(pool.complete(), 0);
    assert_eq!(pool.outstanding(), 2);
    let second = match pool.claim() {
        Claim::Task(dir) => dir,
        other => panic!("expected a task, got {:?}", other),
    };
    assert_eq!(second.path, "/b");
    let third = match pool.claim() {
        Claim::Task(dir) => dir,
        other => panic!("expected a task, got {:?}", other),
    };
    assert_eq!(third.path, "/a/sub");
    assert!(matches!(pool.claim(), Claim::Wait));
    assert_eq!(pool.complete(), 0);
    assert_eq!(pool.outstanding(), 1);
    assert_eq!(pool.phase(), Phase::Running);
    assert_eq!(pool.complete(), 3);
    assert_eq!(pool.outstanding(), 0);
    assert_eq!(pool.phase(), Phase::Done);
    assert_eq!(pool.complete(), 0);
    for _ in 0..3 {
        assert!(matches!(pool.claim(), Claim::Stop));
    }
    assert!(matches!(pool.claim(), Claim::Wait));
    assert!(pool.finish().unwrap().digests().is_empty());
}

#[test]
fn a_completion_without_a_task_is_ignored() {
    let roots = vec![Entry::directory("a", "/a")];
    let mut pool = WorkerPool::new(1, &roots).unwrap();
    assert_eq!(pool.complete(), 0);
    assert_eq!(pool.outstanding(), 1);
    assert_eq!(pool.phase(), Phase::Running);
    assert!(matches!(pool.claim(), Claim::Task(_)));
}

#[test]
fn a_pool_needs_workers_and_directories() {
    let roots = vec![Entry::directory("a", "/a")];
    assert!(matches!(WorkerPool::new(0, &roots), Err(ScanError::InvalidInput)));
    assert!(matches!(WorkerPool::new(2, &vec![]), Err(ScanError::InvalidInput)));
    let mixed = vec![Entry::directory("a", "/a"), Entry::file("f", "/f")];
    assert!(matches!(WorkerPool::new(2, &mixed), Err(ScanError::InvalidInput)));
    assert!(WorkerPool::new(1, &roots).is_ok());
}

#[test]
fn a_walker_needs_directories() {
    assert!(matches!(SequentialWalker::new(&vec![]), Err(ScanError::InvalidInput)));
    let mixed = vec![Entry::file("f", "/f"), Entry::directory("a", "/a")];
    assert!(matches!(SequentialWalker::new(&mixed), Err(ScanError::InvalidInput)));
}

#[test]
fn the_walker_goes_depth_first() {
    let (tree, roots) = larger_tree();
    let mut walker = SequentialWalker::new(&roots).unwrap();
    assert_eq!(walker.pending(), 2);
    let mut order = Vec::new();
    while let Some(dir) = walker.next_dir() {
        for entry in tree.list(&dir.path) {
            if entry.is_dir {
                walker.discover(entry);
            } else {
                walker.record(content_digest(&tree.read(&entry.path).unwrap()), entry);
            }
        }
        order.push(dir.path);
    }
    assert_eq!(
        order,
        vec![
            "/two",
            "/two/c",
            "/one",
            "/one/b",
            "/one/b/empty",
            "/one/a",
            "/one/a/deep",
            "/one/a/deep/deeper"
        ]
    );
    assert!(!walker.has_failed());
}

#[test]
fn the_walker_hands_out_nothing_after_a_failure() {
    let (_, roots) = larger_tree();
    let mut walker = SequentialWalker::new(&roots).unwrap();
    assert!(walker.next_dir().is_some());
    walker.record(9, Entry::file("f", "/one/f"));
    walker.abort();
    assert!(walker.has_failed());
    assert_eq!(walker.pending(), 0);
    walker.discover(Entry::directory("late", "/one/late"));
    assert_eq!(walker.pending(), 0);
    assert!(walker.next_dir().is_none());
    assert!(matches!(walker.finish(), Err(ScanError::IoFailure)));
}

#[test]
fn the_walk_takes_one_step_per_file_and_three_per_directory() {
    let (tree, roots) = larger_tree();
    let mut pool = WorkerPool::new(1, &roots).unwrap();
    let mut steps = 0;
    loop {
        let dir = match pool.claim() {
            Claim::Task(dir) => dir,
            Claim::Stop => break,
            Claim::Wait => panic!("a single worker never waits"),
        };
        steps += 1;
        for entry in tree.list(&dir.path) {
            if entry.is_dir {
                pool.discover(entry);
            } else {
                pool.record(content_digest(&tree.read(&entry.path).unwrap()), entry);
            }
            steps += 1;
        }
        pool.complete();
        steps += 1;
    }
    // Eleven files are reported; six directories are reported, claimed and
    // completed; the two roots are claimed and completed.
    assert_eq!(steps, 11 + 3 * 6 + 2 * 2);
    assert_eq!(pool.phase(), Phase::Done);
}
