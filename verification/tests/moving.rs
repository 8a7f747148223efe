use worktree::entry::{Entry, PathEntry};
use worktree::error::WorktreeError;
use worktree::events::{EventBatch, NextEvent};
use worktree::path::UnixPath;
use worktree::scan::{fs_entry_for_path, scan_dir, DirRecord, FsLookup, FsMetadata, ScanJob};
use worktree::snapshot::Snapshot;

fn path(text: &str) -> UnixPath {
    UnixPath::new(text.as_bytes().to_vec())
}

fn metadata(inode: u64, is_dir: bool) -> FsMetadata {
    FsMetadata {
        inode,
        is_dir,
        is_symlink: false,
        matches_ignore: false,
    }
}

fn record(name: &str, inode: u64, is_dir: bool) -> DirRecord {
    DirRecord {
        name: name.as_bytes().to_vec(),
        metadata: metadata(inode, is_dir),
    }
}

fn children(snapshot: &Snapshot, inode: u64) -> Vec<u64> {
    match snapshot.entries.get(inode).unwrap() {
        Entry::Dir { children, .. } => children.clone(),
        Entry::File { .. } => vec![],
    }
}

fn list(path: &str) -> Vec<DirRecord> {
    match path {
        "/dir" => vec![record("dir1", 2, true), record("dir2", 5, true)],
        "/dir/dir1" => vec![record("dir3", 3, true)],
        "/dir/dir1/dir3" => vec![record("file", 4, false)],
        "/dir/dir2" => vec![],
        _ => panic!("{:?}", path),
    }
}

fn scanned() -> Snapshot {
    let mut snapshot = Snapshot::new(1, path("/dir"));
    let mut jobs: Vec<ScanJob> = Vec::new();
    if let Some(job) = snapshot.scan_root(&path("/dir"), metadata(1, true)) {
        jobs.push(job);
    }
    while let Some(job) = jobs.pop() {
        let listing = list(std::str::from_utf8(&job.path.bytes).unwrap());
        let scan = scan_dir(job, &listing);
        snapshot.insert_entries(scan.entries);
        jobs.extend(scan.jobs);
    }
    snapshot
}

/// What a batch leaves.
struct Left {
    snapshot: Snapshot,
    possible_removed_inodes: Vec<u64>,
    jobs: Vec<ScanJob>,
}

/// Runs a batch against what `look_up` says of a path.
fn run(snapshot: Snapshot, paths: &[&str], look_up: fn(&str) -> FsLookup) -> Left {
    let mut batch = EventBatch::new(snapshot, paths.iter().map(|p| path(p)).collect());
    loop {
        match batch.next_event() {
            NextEvent::Inspect {
                path,
                relative_path,
            } => {
                let lookup = look_up(std::str::from_utf8(&path.bytes).unwrap());
                let found = fs_entry_for_path(&batch.snapshot().path, &path, lookup);
                assert!(batch.can_apply(&relative_path, &found));
                batch.apply(path, relative_path, found);
            }
            NextEvent::Unexpected { path } => {
                assert!(!path.starts_with(&batch.snapshot().path));
            }
            NextEvent::Done => break,
        }
    }
    let (snapshot, possible_removed_inodes, jobs) = batch.finish();
    Left {
        snapshot,
        possible_removed_inodes,
        jobs,
    }
}

/// Runs a batch, lists what is to be listed, and takes out the orphans.
fn settle(
    snapshot: Snapshot,
    paths: &[&str],
    look_up: fn(&str) -> FsLookup,
    list: fn(&str) -> Vec<DirRecord>,
) -> Snapshot {
    let mut left = run(snapshot, paths, look_up);
    while let Some(job) = left.jobs.pop() {
        let listing = list(std::str::from_utf8(&job.path.bytes).unwrap());
        let scan = scan_dir(job, &listing);
        left.snapshot.insert_entries(scan.entries);
        left.jobs.extend(scan.jobs);
    }
    left.snapshot.remove_orphans(&left.possible_removed_inodes);
    left.snapshot
}

fn nothing(path: &str) -> Vec<DirRecord> {
    panic!("{:?}", path)
}

fn file(inode: u64, parent: u64, name: &str) -> Entry {
    Entry::File {
        parent: Some(parent),
        name: name.as_bytes().to_vec(),
        path: PathEntry::new(inode, &path(name), false),
        inode,
        is_symlink: false,
        is_ignored: false,
    }
}

/// The tree at `/r` with the given files.
fn flat(files: &[(u64, &str)]) -> Snapshot {
    let mut snapshot = Snapshot::new(1, path("/r"));
    let mut entries = vec![Entry::Dir {
        parent: None,
        name: b"r".to_vec(),
        inode: 1,
        is_symlink: false,
        is_ignored: false,
        children: files.iter().map(|(inode, _)| *inode).collect(),
        pending: false,
    }];
    entries.extend(files.iter().map(|(inode, name)| file(*inode, 1, name)));
    snapshot.insert_entries(entries);
    snapshot.root_inode = Some(1);
    snapshot
}

fn found(inode: u64, is_dir: bool, parent: u64) -> FsLookup {
    FsLookup::Found {
        metadata: metadata(inode, is_dir),
        parent_inode: Some(parent),
    }
}

#[test]
fn reparent_moves_an_entry() {
    let mut snapshot = scanned();
    assert!(snapshot.can_reparent(3, Some(2), Some(5)));
    snapshot.reparent_entry(3, Some(2), Some(5));
    assert_eq!(children(&snapshot, 2), Vec::<u64>::new());
    assert_eq!(children(&snapshot, 5), vec![3]);
    assert_eq!(snapshot.entries.get(3).unwrap().parent(), Some(5));
    assert_eq!(snapshot.path_to_inode(3, false).bytes, b"dir2/dir3".to_vec());
    assert_eq!(
        snapshot.path_to_inode(4, true).bytes,
        b"dir/dir2/dir3/file".to_vec()
    );
    assert_eq!(snapshot.path_to_inode(2, false).bytes, b"dir1".to_vec());
    assert_eq!(snapshot.entries.len(), 5);
}

#[test]
fn reparent_within_one_directory_lists_the_entry_last() {
    let mut snapshot = flat(&[(2, "a"), (3, "b")]);
    snapshot.reparent_entry(2, Some(1), Some(1));
    assert_eq!(children(&snapshot, 1), vec![3, 2]);
    assert_eq!(snapshot.entries.get(2).unwrap().parent(), Some(1));
}

#[test]
fn detach_is_undone_by_attach() {
    let mut snapshot = scanned();
    snapshot.reparent_entry(2, Some(1), None);
    assert_eq!(children(&snapshot, 1), vec![5]);
    assert_eq!(snapshot.entries.get(2).unwrap().parent(), None);
    snapshot.reparent_entry(2, None, Some(1));
    assert_eq!(children(&snapshot, 1), vec![5, 2]);
    assert_eq!(snapshot.inode_for_path(&path("dir1/dir3/file")), Some(4));
}

#[test]
fn reparent_needs_a_known_child_and_directories() {
    let snapshot = scanned();
    assert!(!snapshot.can_reparent(77, Some(1), None));
    assert!(!snapshot.can_reparent(3, Some(2), Some(4)));
    assert!(!snapshot.can_reparent(3, Some(4), None));
    assert!(snapshot.can_reparent(3, Some(2), Some(77)));
}

#[test]
fn entries_without_a_way_up_have_no_lineage() {
    let mut snapshot = scanned();
    assert!(snapshot.is_rooted(4));
    assert!(!snapshot.is_rooted(77));
    snapshot.reparent_entry(2, Some(1), Some(77));
    assert!(!snapshot.is_rooted(2));
    assert!(!snapshot.is_rooted(4));
    assert!(snapshot.is_rooted(5));
    snapshot.reparent_entry(5, Some(1), Some(5));
    assert!(!snapshot.is_rooted(5));
}

#[test]
fn rescan_finds_paths_both_ways() {
    let snapshot = scanned();
    let dir_inode = snapshot.inode_for_path(&path("dir1/dir3")).unwrap();
    assert_eq!(dir_inode, 3);
    assert_eq!(
        snapshot.path_to_inode(dir_inode, false).bytes,
        b"dir1/dir3".to_vec()
    );
}

#[test]
fn moved_directory_is_found_at_its_new_place() {
    fn look_up(path: &str) -> FsLookup {
        match path {
            "/dir/dir1/dir3" => FsLookup::NotFound,
            "/dir/dir2/dir3" => found(3, true, 5),
            _ => panic!("{:?}", path),
        }
    }
    for paths in [
        ["/dir/dir1/dir3", "/dir/dir2/dir3"],
        ["/dir/dir2/dir3", "/dir/dir1/dir3"],
    ] {
        let mut batch = run(scanned(), &paths, look_up);
        assert_eq!(batch.possible_removed_inodes, vec![3]);
        batch.snapshot.remove_orphans(&batch.possible_removed_inodes);
        let snapshot = batch.snapshot;
        assert_eq!(snapshot.path_to_inode(3, false).bytes, b"dir2/dir3".to_vec());
        assert_eq!(snapshot.inode_for_path(&path("dir2/dir3")), Some(3));
        assert_eq!(snapshot.inode_for_path(&path("dir1/dir3")), None);
        assert_eq!(snapshot.inode_for_path(&path("dir2/dir3/file")), Some(4));
        assert_eq!(snapshot.file_count(), 1);
    }
}

#[test]
fn vanished_directory_is_removed_with_all_below() {
    fn look_up(_: &str) -> FsLookup {
        FsLookup::NotFound
    }
    let mut batch = run(scanned(), &["/dir/dir1"], look_up);
    assert_eq!(batch.snapshot.inode_for_path(&path("dir1")), None);
    assert_eq!(batch.snapshot.entries.len(), 5);
    assert_eq!(batch.possible_removed_inodes, vec![2]);
    batch.snapshot.remove_orphans(&batch.possible_removed_inodes);
    assert_eq!(batch.snapshot.entries.len(), 2);
    assert_eq!(children(&batch.snapshot, 1), vec![5]);
    batch.snapshot.remove_orphans(&batch.possible_removed_inodes);
    assert_eq!(batch.snapshot.entries.len(), 2);
}

#[test]
fn orphan_removal_spares_what_has_a_parent() {
    let mut snapshot = scanned();
    snapshot.remove_orphans(&vec![3, 5, 77]);
    assert_eq!(snapshot.entries.len(), 5);
    snapshot.remove_orphans(&vec![1]);
    assert_eq!(snapshot.entries.len(), 0);
}

#[test]
fn orphan_removal_spares_what_has_a_parent_elsewhere() {
    let mut snapshot = scanned();
    snapshot.reparent_entry(3, Some(2), None);
    snapshot.insert_entries(vec![Entry::Dir {
        parent: None,
        name: b"dir3".to_vec(),
        inode: 3,
        is_symlink: false,
        is_ignored: false,
        children: vec![4, 5, 3],
        pending: false,
    }]);
    snapshot.remove_orphans(&vec![3]);
    assert_eq!(snapshot.entries.len(), 3);
    assert!(snapshot.entries.get(3).is_none());
    assert!(snapshot.entries.get(4).is_none());
    assert_eq!(snapshot.inode_for_path(&path("dir2")), Some(5));
}

#[test]
fn orphan_removal_ends_on_entries_that_list_each_other() {
    fn dir(inode: u64, parent: Option<u64>, children: Vec<u64>) -> Entry {
        Entry::Dir {
            parent,
            name: b"d".to_vec(),
            inode,
            is_symlink: false,
            is_ignored: false,
            children,
            pending: false,
        }
    }
    let mut snapshot = flat(&[(2, "f")]);
    snapshot.insert_entries(vec![
        dir(3, None, vec![4, 4, 3]),
        dir(4, Some(3), vec![3, 5]),
        dir(5, Some(4), vec![4, 5, 2]),
        dir(6, Some(6), vec![6]),
    ]);
    snapshot.remove_orphans(&vec![3, 6]);
    assert_eq!(snapshot.entries.len(), 3);
    assert!(snapshot.entries.get(2).is_some());
    assert!(snapshot.entries.get(6).is_some());
}

#[test]
fn unknown_directory_is_listed_and_covers_the_events_below() {
    fn look_up(path: &str) -> FsLookup {
        match path {
            "/dir/foo" => found(20, true, 1),
            "/dir/foo-bar" => FsLookup::NotFound,
            _ => panic!("{:?}", path),
        }
    }
    let batch = run(
        scanned(),
        &["/dir/foo-bar", "/dir/foo/b/c", "/dir/foo", "/dir/foo/a"],
        look_up,
    );
    assert_eq!(batch.jobs.len(), 1);
    let job = &batch.jobs[0];
    assert_eq!(job.ino, 20);
    assert_eq!(job.path.bytes, b"/dir/foo".to_vec());
    assert_eq!(job.relative_path.bytes, b"foo".to_vec());
    assert_eq!(job.dir_entry.parent(), Some(1));
    assert!(job.ignore);
    assert!(batch.possible_removed_inodes.is_empty());
}

#[test]
fn replaced_directory_is_detached_and_its_place_listed() {
    fn look_up(path: &str) -> FsLookup {
        match path {
            "/dir/dir1" => found(30, true, 1),
            _ => panic!("{:?}", path),
        }
    }
    let mut batch = run(scanned(), &["/dir/dir1"], look_up);
    assert_eq!(batch.possible_removed_inodes, vec![2]);
    assert_eq!(batch.jobs.len(), 1);
    assert_eq!(batch.jobs[0].ino, 30);
    batch.snapshot.remove_orphans(&batch.possible_removed_inodes);
    assert_eq!(batch.snapshot.entries.len(), 3);
    assert_eq!(batch.snapshot.inode_for_path(&path("dir1")), Some(30));
    assert_eq!(children(&batch.snapshot, 1), vec![5, 30]);
}

#[test]
fn event_for_what_is_known_already_changes_nothing() {
    fn look_up(path: &str) -> FsLookup {
        match path {
            "/dir" => FsLookup::Found {
                metadata: metadata(1, true),
                parent_inode: Some(99),
            },
            "/dir/dir1/dir3" => found(3, true, 2),
            "/dir/dir2" => FsLookup::Failed,
            _ => panic!("{:?}", path),
        }
    }
    let batch = run(
        scanned(),
        &["/dir/dir2", "/dir", "/dir/dir1/dir3", "/other"],
        look_up,
    );
    assert!(batch.jobs.is_empty());
    assert!(batch.possible_removed_inodes.is_empty());
    assert_eq!(batch.snapshot.inode_for_path(&path("dir1/dir3/file")), Some(4));
}

#[test]
fn events_come_in_order_and_strangers_are_told_apart() {
    let mut batch = EventBatch::new(
        scanned(),
        vec![path("/zzz"), path("/dir/b"), path("/dir/a")],
    );
    match batch.next_event() {
        NextEvent::Inspect { relative_path, .. } => {
            assert_eq!(relative_path.bytes, b"a".to_vec())
        }
        _ => panic!("not to be inspected"),
    }
    match batch.next_event() {
        NextEvent::Inspect { path, .. } => assert_eq!(path.bytes, b"/dir/b".to_vec()),
        _ => panic!("not to be inspected"),
    }
    match batch.next_event() {
        NextEvent::Unexpected { path } => assert_eq!(path.bytes, b"/zzz".to_vec()),
        _ => panic!("expected"),
    }
    assert!(matches!(batch.next_event(), NextEvent::Done));
    assert!(matches!(batch.next_event(), NextEvent::Done));
}

#[test]
fn an_entry_cannot_be_given_to_a_file() {
    let mut batch = EventBatch::new(scanned(), vec![path("/dir/dir2/x")]);
    match batch.next_event() {
        NextEvent::Inspect {
            path,
            relative_path,
        } => {
            let lookup = found(3, true, 4);
            let entry = fs_entry_for_path(&batch.snapshot().path, &path, lookup);
            assert!(!batch.can_apply(&relative_path, &entry));
            assert!(batch.can_apply(&relative_path, &Err(WorktreeError::Unreadable)));
        }
        _ => panic!("not to be inspected"),
    }
}

#[test]
fn move_is_detach_and_attach() {
    let mut moved = scanned();
    moved.reparent_entry(3, Some(2), Some(5));
    let mut stepwise = scanned();
    stepwise.reparent_entry(3, Some(2), None);
    stepwise.reparent_entry(3, None, Some(5));
    for inode in 1..6 {
        assert_eq!(children(&moved, inode), children(&stepwise, inode));
        assert_eq!(
            moved.entries.get(inode).unwrap().parent(),
            stepwise.entries.get(inode).unwrap().parent()
        );
    }
}

#[test]
fn new_directory_is_put_in_with_what_it_holds() {
    fn look_up(path: &str) -> FsLookup {
        match path {
            "/r/new" => found(6, true, 1),
            _ => panic!("{:?}", path),
        }
    }
    fn list(path: &str) -> Vec<DirRecord> {
        match path {
            "/r/new" => vec![record("x", 7, false)],
            _ => panic!("{:?}", path),
        }
    }
    let snapshot = settle(flat(&[]), &["/r/new", "/r/new/x"], look_up, list);
    assert_eq!(snapshot.entries.len(), 3);
    assert_eq!(children(&snapshot, 1), vec![6]);
    match snapshot.entries.get(6).unwrap() {
        Entry::Dir {
            parent,
            children,
            pending,
            ..
        } => {
            assert_eq!(*parent, Some(1));
            assert_eq!(*children, vec![7]);
            assert!(!pending);
        }
        Entry::File { .. } => panic!("not a directory"),
    }
    assert!(snapshot.entries.get(7).unwrap().is_file());
    assert_eq!(snapshot.entries.get(7).unwrap().parent(), Some(6));
    assert_eq!(snapshot.inode_for_path(&path("new")), Some(6));
    assert_eq!(snapshot.inode_for_path(&path("new/x")), Some(7));
    assert_eq!(snapshot.path_to_inode(7, true).bytes, b"r/new/x".to_vec());
    assert_eq!(snapshot.file_count(), 1);
}

#[test]
fn new_file_is_put_in() {
    fn look_up(_: &str) -> FsLookup {
        found(8, false, 1)
    }
    let snapshot = settle(flat(&[]), &["/r/f"], look_up, nothing);
    assert_eq!(snapshot.entries.len(), 2);
    let entry = snapshot.entries.get(8).unwrap();
    assert!(entry.is_file());
    assert_eq!(entry.parent(), Some(1));
    assert_eq!(entry.name(), &b"f".to_vec());
    assert_eq!(children(&snapshot, 1), vec![8]);
    assert_eq!(snapshot.inode_for_path(&path("f")), Some(8));
    assert_eq!(snapshot.file_count(), 1);
}

#[test]
fn file_saved_by_way_of_a_short_lived_one_is_found() {
    fn look_up(path: &str) -> FsLookup {
        match path {
            "/r/f" => found(9, false, 1),
            "/r/f.tmp" => FsLookup::NotFound,
            _ => panic!("{:?}", path),
        }
    }
    let before = flat(&[(2, "f"), (3, "g")]);
    let left = run(before, &["/r/f.tmp", "/r/f", "/r/f.tmp"], look_up);
    assert!(left.jobs.is_empty());
    assert_eq!(left.possible_removed_inodes, vec![2]);
    let mut snapshot = left.snapshot;
    snapshot.remove_orphans(&left.possible_removed_inodes);
    assert_eq!(snapshot.inode_for_path(&path("f")), Some(9));
    assert_eq!(snapshot.inode_for_path(&path("g")), Some(3));
    assert_eq!(snapshot.inode_for_path(&path("f.tmp")), None);
    assert_eq!(snapshot.entries.len(), 3);
    assert!(snapshot.entries.get(2).is_none());
}

/// In the tree that `scanned` gives, `dir1/dir3` has moved to `dir3`, `dir2` is gone, and `new` and
/// `old` have come, with all that they hold.
fn look_up_changed(path: &str) -> FsLookup {
    match path {
        "/dir/dir3" => found(3, true, 1),
        "/dir/new" => found(6, true, 1),
        "/dir/old" => found(10, true, 1),
        "/dir/dir1/dir3" | "/dir/dir2" => FsLookup::NotFound,
        _ => panic!("{:?}", path),
    }
}

fn list_changed(path: &str) -> Vec<DirRecord> {
    match path {
        "/dir/new" => vec![record("y", 9, false), record("sub", 7, true)],
        "/dir/new/sub" => vec![record("x", 8, false)],
        "/dir/old" => vec![],
        _ => panic!("{:?}", path),
    }
}

const CHANGED: [&str; 7] = [
    "/dir/dir1/dir3",
    "/dir/dir2",
    "/dir/dir3",
    "/dir/new",
    "/dir/new/sub",
    "/dir/new/gone",
    "/dir/old",
];

#[test]
fn each_new_directory_in_a_known_one_has_one_job() {
    let mut left = run(scanned(), &CHANGED, look_up_changed);
    assert_eq!(left.jobs.len(), 2);
    assert_eq!(left.jobs[0].ino, 6);
    assert_eq!(left.jobs[0].path.bytes, b"/dir/new".to_vec());
    assert_eq!(left.jobs[1].ino, 10);
    assert_eq!(left.jobs[1].path.bytes, b"/dir/old".to_vec());
    left.snapshot.remove_orphans(&left.possible_removed_inodes);
    let snapshot = left.snapshot;
    assert_eq!(snapshot.inode_for_path(&path("dir3/file")), Some(4));
    assert_eq!(snapshot.inode_for_path(&path("dir1")), Some(2));
    assert_eq!(snapshot.inode_for_path(&path("dir1/dir3")), None);
    assert_eq!(snapshot.inode_for_path(&path("dir2")), None);
    assert_eq!(snapshot.inode_for_path(&path("new")), Some(6));
    assert_eq!(snapshot.inode_for_path(&path("new/sub")), None);
    assert_eq!(snapshot.inode_for_path(&path("old")), Some(10));
    assert!(snapshot.entries.get(5).is_none());
}

#[test]
fn update_reaches_every_path() {
    let snapshot = settle(scanned(), &CHANGED, look_up_changed, list_changed);
    let there: [(&str, u64); 10] = [
        ("", 1),
        ("dir1", 2),
        ("dir3", 3),
        ("dir3/file", 4),
        ("new", 6),
        ("new/sub", 7),
        ("new/sub/x", 8),
        ("new/y", 9),
        ("old", 10),
        ("new//./sub/", 7),
    ];
    for (name, inode) in there {
        assert_eq!(snapshot.inode_for_path(&path(name)), Some(inode));
    }
    for name in ["dir1/dir3", "dir1/dir3/file", "dir2", "new/gone"] {
        assert_eq!(snapshot.inode_for_path(&path(name)), None);
    }
    assert_eq!(snapshot.entries.len(), 9);
    assert_eq!(snapshot.file_count(), 3);
    for inode in [1, 2, 3, 6, 7, 10] {
        match snapshot.entries.get(inode).unwrap() {
            Entry::Dir { pending, .. } => assert!(!pending),
            Entry::File { .. } => panic!("not a directory"),
        }
    }
}

#[test]
fn events_for_a_short_lived_directory_change_nothing() {
    fn look_up(_: &str) -> FsLookup {
        FsLookup::NotFound
    }
    for paths in [vec!["/dir/t", "/dir/t/x"], vec!["/dir/t/x", "/dir/t/y/z"]] {
        let left = run(scanned(), &paths, look_up);
        assert!(left.jobs.is_empty());
        assert!(left.possible_removed_inodes.is_empty());
        assert_eq!(left.snapshot.entries.len(), 5);
        assert_eq!(
            left.snapshot.inode_for_path(&path("dir1/dir3/file")),
            Some(4)
        );
        assert_eq!(left.snapshot.inode_for_path(&path("t")), None);
        assert_eq!(left.snapshot.inode_for_path(&path("t/x")), None);
    }
}

#[test]
fn two_events_tell_of_a_move_within_a_moved_tree() {
    fn look_up(path: &str) -> FsLookup {
        match path {
            "/dir/dir1" => FsLookup::NotFound,
            "/dir/dir2/here" => found(2, true, 5),
            _ => panic!("{:?}", path),
        }
    }
    let snapshot = settle(
        scanned(),
        &["/dir/dir1", "/dir/dir2/here"],
        look_up,
        nothing,
    );
    assert_eq!(snapshot.inode_for_path(&path("dir1")), None);
    assert_eq!(snapshot.inode_for_path(&path("dir1/dir3/file")), None);
    assert_eq!(snapshot.inode_for_path(&path("dir2/here")), Some(2));
    assert_eq!(
        snapshot.inode_for_path(&path("dir2/here/dir3/file")),
        Some(4)
    );
    assert_eq!(snapshot.entries.len(), 5);
}

#[test]
fn what_moved_out_of_a_vanished_directory_into_a_new_one_stays() {
    fn look_up(path: &str) -> FsLookup {
        match path {
            "/dir/dir1" => FsLookup::NotFound,
            "/dir/n" => found(6, true, 1),
            _ => panic!("{:?}", path),
        }
    }
    fn list(path: &str) -> Vec<DirRecord> {
        match path {
            "/dir/n" => vec![record("y", 4, false)],
            _ => panic!("{:?}", path),
        }
    }
    let snapshot = settle(scanned(), &["/dir/dir1", "/dir/n", "/dir/n/y"], look_up, list);
    assert_eq!(snapshot.inode_for_path(&path("n/y")), Some(4));
    assert_eq!(snapshot.entries.get(4).unwrap().parent(), Some(6));
    assert_eq!(snapshot.path_to_inode(4, true).bytes, b"dir/n/y".to_vec());
    assert_eq!(snapshot.inode_for_path(&path("dir1")), None);
    assert!(snapshot.entries.get(2).is_none());
    assert!(snapshot.entries.get(3).is_none());
    assert_eq!(snapshot.entries.len(), 4);
    assert_eq!(snapshot.file_count(), 1);
}

#[test]
fn known_entries_that_moved_into_a_new_directory_are_found_there() {
    fn look_up(path: &str) -> FsLookup {
        match path {
            "/dir/new" => found(6, true, 1),
            "/dir/dir1" | "/dir/dir1/dir3" | "/dir/dir1/dir3/file" => FsLookup::NotFound,
            _ => panic!("{:?}", path),
        }
    }
    fn list(path: &str) -> Vec<DirRecord> {
        match path {
            "/dir/new" => vec![record("moved", 2, true)],
            "/dir/new/moved" => vec![record("dir3", 3, true)],
            "/dir/new/moved/dir3" => vec![record("file", 4, false)],
            _ => panic!("{:?}", path),
        }
    }
    let events = [
        "/dir/new",
        "/dir/new/moved",
        "/dir/dir1",
        "/dir/dir1/dir3",
        "/dir/dir1/dir3/file",
    ];
    let snapshot = settle(scanned(), &events, look_up, list);
    assert_eq!(snapshot.inode_for_path(&path("new")), Some(6));
    assert_eq!(snapshot.inode_for_path(&path("new/moved")), Some(2));
    assert_eq!(snapshot.inode_for_path(&path("new/moved/dir3")), Some(3));
    assert_eq!(snapshot.inode_for_path(&path("new/moved/dir3/file")), Some(4));
    assert_eq!(snapshot.inode_for_path(&path("dir1")), None);
    assert_eq!(snapshot.inode_for_path(&path("dir2")), Some(5));
    assert_eq!(snapshot.entries.len(), 6);
    assert_eq!(
        snapshot.path_to_inode(4, true).bytes,
        b"dir/new/moved/dir3/file".to_vec()
    );
}

#[test]
fn orphans_are_taken_out_before_or_after_the_listing() {
    let late = settle(scanned(), &CHANGED, look_up_changed, list_changed);
    let mut left = run(scanned(), &CHANGED, look_up_changed);
    left.snapshot.remove_orphans(&left.possible_removed_inodes);
    while let Some(job) = left.jobs.pop() {
        let listing = list_changed(std::str::from_utf8(&job.path.bytes).unwrap());
        let scan = scan_dir(job, &listing);
        left.snapshot.insert_entries(scan.entries);
        left.jobs.extend(scan.jobs);
    }
    let early = left.snapshot;
    assert_eq!(early.entries.len(), late.entries.len());
    for inode in 1..=10 {
        match (early.entries.get(inode), late.entries.get(inode)) {
            (Some(a), Some(b)) => {
                assert_eq!(a.parent(), b.parent());
                assert_eq!(a.name(), b.name());
                assert_eq!(children(&early, inode), children(&late, inode));
            }
            (None, None) => assert_eq!(inode, 5),
            _ => panic!("{}", inode),
        }
    }
}

#[test]
fn renamed_file_takes_its_new_name() {
    fn to_b(path: &str) -> FsLookup {
        match path {
            "/r/a" => FsLookup::NotFound,
            _ => found(2, false, 1),
        }
    }
    fn to_a(path: &str) -> FsLookup {
        match path {
            "/r/b" => FsLookup::NotFound,
            _ => found(2, false, 1),
        }
    }
    let snapshot = settle(flat(&[(2, "a")]), &["/r/a", "/r/b"], to_b, nothing);
    assert_eq!(snapshot.entries.len(), 2);
    assert_eq!(children(&snapshot, 1), vec![2]);
    let entry = snapshot.entries.get(2).unwrap();
    assert_eq!(entry.parent(), Some(1));
    assert_eq!(entry.name(), &b"b".to_vec());
    match entry {
        Entry::File { path, .. } => assert_eq!(path.path.bytes, b"b".to_vec()),
        Entry::Dir { .. } => panic!("not a file"),
    }
    assert_eq!(snapshot.inode_for_path(&path("b")), Some(2));
    assert_eq!(snapshot.inode_for_path(&path("a")), None);

    let snapshot = settle(flat(&[(2, "b")]), &["/r/a", "/r/b"], to_a, nothing);
    assert_eq!(snapshot.entries.len(), 2);
    assert_eq!(children(&snapshot, 1), vec![2]);
    assert_eq!(snapshot.inode_for_path(&path("a")), Some(2));
    assert_eq!(snapshot.inode_for_path(&path("b")), None);
}

#[test]
fn files_that_trade_names_are_found_by_their_new_ones() {
    fn look_up(path: &str) -> FsLookup {
        match path {
            "/r/a" => found(3, false, 1),
            _ => found(2, false, 1),
        }
    }
    let snapshot = settle(
        flat(&[(2, "a"), (3, "b")]),
        &["/r/b", "/r/a"],
        look_up,
        nothing,
    );
    assert_eq!(snapshot.entries.len(), 3);
    assert_eq!(snapshot.inode_for_path(&path("a")), Some(3));
    assert_eq!(snapshot.inode_for_path(&path("b")), Some(2));
}

#[test]
fn directory_and_its_parent_that_trade_places() {
    fn look_up(path: &str) -> FsLookup {
        match path {
            "/dir/dir3" => found(3, true, 1),
            "/dir/dir3/dir1" => found(2, true, 3),
            "/dir/dir3/file" => found(4, false, 3),
            _ => FsLookup::NotFound,
        }
    }
    let snapshot = settle(
        scanned(),
        &[
            "/dir/dir3/file",
            "/dir/dir1/dir3/file",
            "/dir/dir3",
            "/dir/dir1/dir3",
            "/dir/dir3/dir1",
            "/dir/dir1",
        ],
        look_up,
        nothing,
    );
    assert_eq!(snapshot.entries.len(), 5);
    assert_eq!(snapshot.inode_for_path(&path("dir3/dir1")), Some(2));
    assert_eq!(snapshot.inode_for_path(&path("dir3/file")), Some(4));
    assert_eq!(snapshot.inode_for_path(&path("dir1")), None);
    assert_eq!(snapshot.path_to_inode(2, false).bytes, b"dir3/dir1".to_vec());
}

#[test]
fn order_of_events_does_not_matter() {
    fn look_up(path: &str) -> FsLookup {
        match path {
            "/dir/dir1/dir3" => FsLookup::NotFound,
            "/dir/dir2/dir3" => found(3, true, 5),
            "/dir/x" => found(9, false, 1),
            _ => panic!("{:?}", path),
        }
    }
    let one = settle(
        scanned(),
        &["/dir/x", "/dir/dir1/dir3", "/dir/dir2/dir3"],
        look_up,
        nothing,
    );
    let other = settle(
        scanned(),
        &["/dir/dir2/dir3", "/dir/x", "/dir/dir1/dir3"],
        look_up,
        nothing,
    );
    for inode in [1, 2, 3, 4, 5, 9] {
        assert_eq!(children(&one, inode), children(&other, inode));
        assert_eq!(
            one.entries.get(inode).unwrap().parent(),
            other.entries.get(inode).unwrap().parent()
        );
    }
}

#[test]
fn entries_are_added_and_refreshed() {
    let mut snapshot = flat(&[(2, "a")]);
    snapshot.add_entry(file(5, 1, "e"));
    assert_eq!(children(&snapshot, 1), vec![2, 5]);
    snapshot.add_entry(file(6, 77, "f"));
    assert_eq!(children(&snapshot, 1), vec![2, 5]);
    assert_eq!(snapshot.entries.get(6).unwrap().parent(), Some(77));
    snapshot.refresh_entry(&file(2, 77, "z"));
    assert_eq!(snapshot.entries.get(2).unwrap().name(), &b"z".to_vec());
    assert_eq!(snapshot.entries.get(2).unwrap().parent(), Some(1));
    snapshot.refresh_entry(&file(99, 1, "y"));
    assert!(snapshot.entries.get(99).is_none());
}
