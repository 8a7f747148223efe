use worktree::entry::Entry;
use worktree::error::WorktreeError;
use worktree::path::UnixPath;
use worktree::scan::{fs_entry_for_path, scan_dir, DirRecord, FsLookup, FsMetadata, ScanJob};
use worktree::snapshot::Snapshot;
use worktree::worktree::{ScanState, Worktree};

fn path(text: &str) -> UnixPath {
    UnixPath::new(text.as_bytes().to_vec())
}

fn metadata(inode: u64, is_dir: bool) -> FsMetadata {
    FsMetadata {
        inode,
        is_dir,
        is_symlink: false,
        matches_ignore: false,
    }
}

fn record(name: &str, inode: u64, is_dir: bool) -> DirRecord {
    DirRecord {
        name: name.as_bytes().to_vec(),
        metadata: metadata(inode, is_dir),
    }
}

fn is_ignored(entry: &Entry) -> bool {
    match entry {
        Entry::Dir { is_ignored, .. } => *is_ignored,
        Entry::File { is_ignored, .. } => *is_ignored,
    }
}

fn is_pending(entry: &Entry) -> bool {
    match entry {
        Entry::Dir { pending, .. } => *pending,
        Entry::File { .. } => false,
    }
}

fn children(entry: &Entry) -> Vec<u64> {
    match entry {
        Entry::Dir { children, .. } => children.clone(),
        Entry::File { .. } => vec![],
    }
}

/// Scans a tree that lies in memory: what `list` says of a path.
fn scan(root: &str, opened: &str, inode: u64, list: fn(&str) -> Vec<DirRecord>) -> Snapshot {
    let mut snapshot = Snapshot::new(1, path(root));
    let mut jobs: Vec<ScanJob> = Vec::new();
    if let Some(job) = snapshot.scan_root(&path(opened), metadata(inode, true)) {
        jobs.push(job);
    }
    while let Some(job) = jobs.pop() {
        let listing = list(std::str::from_utf8(&job.path.bytes).unwrap());
        let scan = scan_dir(job, &listing);
        snapshot.insert_entries(scan.entries);
        jobs.extend(scan.jobs);
    }
    snapshot
}

fn fruit(path: &str) -> Vec<DirRecord> {
    match path {
        "/tmp/root" => vec![
            record("apple", 2, false),
            record("banana", 3, true),
            record("fennel", 7, true),
        ],
        "/tmp/root/banana" => vec![record("carrot", 4, true)],
        "/tmp/root/banana/carrot" => {
            vec![record("date", 5, false), record("endive", 6, false)]
        }
        "/tmp/root/fennel" => vec![record("grape", 8, false)],
        _ => panic!("{:?}", path),
    }
}

#[test]
fn scan_finds_all_files() {
    let snapshot = scan("/tmp/root", "/tmp/root_link", 1, fruit);
    assert_eq!(snapshot.file_count(), 4);
    let mut tree = Worktree::new(1, path("/tmp/root_link"));
    tree.observe_scan_state(ScanState::Idle, snapshot);
    assert_eq!(tree.file_count(), 4);
    assert_eq!(tree.files(), vec![2, 5, 6, 8]);
    assert_eq!(
        tree.path_for_inode(5, true).unwrap().bytes,
        b"root_link/banana/carrot/date".to_vec()
    );
    assert_eq!(
        tree.path_for_inode(6, true).unwrap().bytes,
        b"root_link/banana/carrot/endive".to_vec()
    );
}

#[test]
fn scan_leaves_nothing_pending() {
    let snapshot = scan("/tmp/root", "/tmp/root_link", 1, fruit);
    for inode in 1..9 {
        assert!(!is_pending(snapshot.entries.get(inode).unwrap()));
    }
    assert_eq!(children(snapshot.entries.get(1).unwrap()), vec![2, 3, 7]);
    assert_eq!(children(snapshot.entries.get(4).unwrap()), vec![5, 6]);
}

#[test]
fn files_know_their_path_with_the_root() {
    let snapshot = scan("/tmp/root", "/tmp/root_link", 1, fruit);
    match snapshot.entries.get(8).unwrap() {
        Entry::File { path, .. } => {
            assert_eq!(path.ino, 8);
            assert_eq!(path.path.bytes, b"root_link/fennel/grape".to_vec());
            assert!(!path.is_ignored);
        }
        Entry::Dir { .. } => panic!("not a file"),
    }
}

#[test]
fn every_path_leads_to_its_inode() {
    let snapshot = scan("/tmp/root", "/tmp/root_link", 1, fruit);
    for inode in 1..9 {
        assert!(snapshot.is_rooted(inode));
        let own = snapshot.path_to_inode(inode, false);
        assert_eq!(snapshot.inode_for_path(&own), Some(inode));
        let on_disk = snapshot.path.join(&own.bytes);
        let back = on_disk.strip_prefix(&snapshot.path).unwrap();
        assert_eq!(snapshot.inode_for_path(&back), Some(inode));
    }
}

#[test]
fn paths_that_lead_nowhere() {
    let snapshot = scan("/tmp/root", "/tmp/root_link", 1, fruit);
    assert_eq!(snapshot.inode_for_path(&path("banana/apple")), None);
    assert_eq!(snapshot.inode_for_path(&path("apple/date")), None);
    assert_eq!(snapshot.inode_for_path(&path("/banana")), None);
    assert_eq!(snapshot.inode_for_path(&path("banana//carrot/./date")), Some(5));
    assert_eq!(snapshot.inode_for_path(&path("")), Some(1));
    assert!(snapshot.entry_for_path(&path("pear")).is_none());
    assert_eq!(snapshot.entry_for_path(&path("apple")).unwrap().ino(), 2);
    assert_eq!(Snapshot::new(1, path("/x")).inode_for_path(&path("")), None);
}

#[test]
fn listing_one_directory() {
    let mut snapshot = Snapshot::new(4, path("/a/root"));
    let job = snapshot.scan_root(&path("/a/root"), metadata(10, true)).unwrap();
    assert_eq!(snapshot.root_inode, Some(10));
    assert_eq!(snapshot.root_entry().unwrap().name(), &b"root".to_vec());
    assert_eq!(job.relative_path.bytes, b"root".to_vec());
    assert_eq!(job.path.bytes, b"/a/root".to_vec());
    assert!(job.ignore);
    let listing = vec![record("x", 11, false), record("y", 12, true)];
    let scan = scan_dir(job, &listing);
    assert_eq!(scan.children, vec![11, 12]);
    assert_eq!(scan.entries.len(), 3);
    assert_eq!(scan.entries[0].parent(), Some(10));
    assert_eq!(scan.entries[2].ino(), 10);
    assert_eq!(children(&scan.entries[2]), vec![11, 12]);
    assert!(is_pending(&scan.entries[1]));
    assert!(!is_pending(&scan.entries[2]));
    assert_eq!(scan.jobs.len(), 1);
    assert_eq!(scan.jobs[0].ino, 12);
    assert_eq!(scan.jobs[0].path.bytes, b"/a/root/y".to_vec());
    assert_eq!(scan.jobs[0].relative_path.bytes, b"root/y".to_vec());
}

#[test]
fn the_root_bears_the_name_it_was_opened_by() {
    let mut snapshot = Snapshot::new(1, path("/tmp/root"));
    let job = snapshot
        .scan_root(&path("/tmp/root_link/"), metadata(1, true))
        .unwrap();
    assert_eq!(snapshot.root_entry().unwrap().name(), &b"root_link".to_vec());
    assert_eq!(job.relative_path.bytes, b"root_link".to_vec());
    assert_eq!(job.path.bytes, b"/tmp/root".to_vec());
    assert_eq!(snapshot.path.bytes, b"/tmp/root".to_vec());
    assert_eq!(snapshot.path_to_inode(1, true).bytes, b"root_link".to_vec());
}

#[test]
fn a_file_can_be_the_root() {
    let mut snapshot = Snapshot::new(1, path("/a/notes"));
    assert!(snapshot.scan_root(&path("/a/notes"), metadata(5, false)).is_none());
    assert_eq!(snapshot.file_count(), 1);
    assert_eq!(snapshot.root_entry().unwrap().name(), &b"notes".to_vec());
}

#[test]
fn the_file_system_root_is_named_by_its_separator() {
    let mut snapshot = Snapshot::new(1, path("/"));
    let job = snapshot.scan_root(&path("/"), metadata(2, true)).unwrap();
    assert_eq!(job.relative_path.bytes, b"/".to_vec());
    assert_eq!(snapshot.root_entry().unwrap().name(), &b"/".to_vec());
}

#[test]
fn everything_below_an_ignored_directory_is_ignored() {
    let mut snapshot = Snapshot::new(1, path("/r"));
    let job = snapshot.scan_root(&path("/r"), metadata(1, true)).unwrap();
    let mut target = record("target", 2, true);
    target.metadata.matches_ignore = true;
    let scan = scan_dir(job, &vec![target, record("src", 3, true)]);
    assert!(is_ignored(&scan.entries[0]));
    assert!(!is_ignored(&scan.entries[1]));
    let mut jobs = scan.jobs.into_iter();
    let below = scan_dir(
        jobs.next().unwrap(),
        &vec![record("x", 4, false), record("y", 5, true)],
    );
    assert!(is_ignored(&below.entries[0]));
    assert!(is_ignored(&below.entries[1]));
    assert!(!below.jobs[0].ignore);
    let beside = scan_dir(jobs.next().unwrap(), &vec![record("x", 6, false)]);
    assert!(!is_ignored(&beside.entries[0]));
}

#[test]
fn git_directories_are_ignored() {
    let mut snapshot = Snapshot::new(1, path("/r"));
    let job = snapshot.scan_root(&path("/r"), metadata(1, true)).unwrap();
    let scan = scan_dir(
        job,
        &vec![record(".git", 2, true), record(".gitx", 3, true)],
    );
    assert!(is_ignored(&scan.entries[0]));
    assert!(!scan.jobs[0].ignore);
    assert!(!is_ignored(&scan.entries[1]));
    let mut snapshot = Snapshot::new(1, path("/r"));
    let job = snapshot.scan_root(&path("/r"), metadata(1, true)).unwrap();
    let scan = scan_dir(job, &vec![record(".git", 2, false)]);
    assert!(!is_ignored(&scan.entries[0]));
}

#[test]
fn a_root_named_git_is_ignored_but_scanned_with_ignore_rules() {
    let mut snapshot = Snapshot::new(1, path("/r/.git"));
    let job = snapshot.scan_root(&path("/r/.git"), metadata(1, true)).unwrap();
    assert!(is_ignored(snapshot.root_entry().unwrap()));
    assert!(job.ignore);
    let scan = scan_dir(job, &vec![record("config", 2, false)]);
    assert!(!is_ignored(&scan.entries[0]));
}

#[test]
fn a_root_opened_through_a_link_is_ignored_by_the_name_it_has() {
    let mut snapshot = Snapshot::new(1, path("/x/.git"));
    snapshot.scan_root(&path("/x/l"), metadata(1, true)).unwrap();
    assert!(is_ignored(snapshot.root_entry().unwrap()));
    assert_eq!(snapshot.root_entry().unwrap().name(), &b"l".to_vec());

    let mut snapshot = Snapshot::new(1, path("/x/d"));
    snapshot.scan_root(&path("/x/.git"), metadata(1, true)).unwrap();
    assert!(!is_ignored(snapshot.root_entry().unwrap()));
    assert_eq!(snapshot.root_entry().unwrap().name(), &b".git".to_vec());
}

#[test]
fn entry_for_what_was_found() {
    let lookup = FsLookup::Found {
        metadata: metadata(9, false),
        parent_inode: Some(3),
    };
    let entry = fs_entry_for_path(&path("/r"), &path("/r/a/b"), lookup)
        .unwrap()
        .unwrap();
    assert_eq!(entry.ino(), 9);
    assert_eq!(entry.parent(), Some(3));
    assert_eq!(entry.name(), &b"b".to_vec());
    match entry {
        Entry::File { path, .. } => assert_eq!(path.path.bytes, b"a/b".to_vec()),
        Entry::Dir { .. } => panic!("not a file"),
    }
    let lookup = FsLookup::Found {
        metadata: metadata(1, true),
        parent_inode: Some(3),
    };
    let entry = fs_entry_for_path(&path("/r"), &path("/r/"), lookup)
        .unwrap()
        .unwrap();
    assert_eq!(entry.parent(), None);
    assert!(!entry.is_file());
}

#[test]
fn entry_for_what_was_not_found() {
    let found = fs_entry_for_path(&path("/r"), &path("/r/a"), FsLookup::NotFound);
    assert!(matches!(found, Ok(None)));
    let found = fs_entry_for_path(&path("/r"), &path("/r/a"), FsLookup::Failed);
    assert!(matches!(found, Err(WorktreeError::Unreadable)));
}

#[test]
fn test_save_file() {
    fn list(path: &str) -> Vec<DirRecord> {
        match path {
            "/tmp/dir" => vec![record("file1", 2, false)],
            _ => panic!("{:?}", path),
        }
    }
    let mut tree = Worktree::new(1, path("/tmp/dir"));
    tree.observe_scan_state(ScanState::Idle, scan("/tmp/dir", "/tmp/dir", 1, list));
    assert_eq!(tree.file_count(), 1);

    let buffer = "a line of text.\n".repeat(10 * 1024);
    let file_inode = tree.files()[0];
    assert_eq!(
        tree.path_for_inode(file_inode, false)
            .unwrap()
            .file_name()
            .unwrap(),
        b"file1".to_vec()
    );

    let plan = tree.save(file_inode, buffer.len()).unwrap();
    assert_eq!(plan.path.bytes, b"/tmp/dir/file1".to_vec());
    assert_eq!(plan.buffer_size, 10 * 1024);
    assert_eq!(
        tree.abs_path_for_inode(file_inode).unwrap().bytes,
        plan.path.bytes
    );
}
