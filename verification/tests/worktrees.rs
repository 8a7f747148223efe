use worktree::entry::{Entry, PathEntry};
use worktree::error::WorktreeError;
use worktree::path::UnixPath;
use worktree::render::write_line;
use worktree::snapshot::Snapshot;
use worktree::worktree::{FileHandle, ScanState, Worktree, WorktreeHandle};

fn path(text: &str) -> UnixPath {
    UnixPath::new(text.as_bytes().to_vec())
}

fn dir(inode: u64, parent: Option<u64>, name: &[u8], children: Vec<u64>) -> Entry {
    Entry::Dir {
        parent,
        name: name.to_vec(),
        inode,
        is_symlink: false,
        is_ignored: false,
        children,
        pending: false,
    }
}

fn file(inode: u64, parent: Option<u64>, name: &[u8]) -> Entry {
    Entry::File {
        parent,
        name: name.to_vec(),
        path: PathEntry::new(inode, &UnixPath::new(name.to_vec()), false),
        inode,
        is_symlink: false,
        is_ignored: false,
    }
}

fn sample() -> Snapshot {
    let mut snapshot = Snapshot::new(7, path("/work/root"));
    snapshot.insert_entries(vec![
        dir(10, None, b"root", vec![11, 120]),
        dir(11, Some(10), b"src", vec![12]),
        file(12, Some(11), b"main.rs"),
        file(120, Some(10), b"README"),
    ]);
    snapshot.root_inode = Some(10);
    snapshot
}

fn sample_tree() -> Worktree {
    let mut tree = Worktree::new(7, path("/work/root"));
    tree.observe_scan_state(ScanState::Idle, sample());
    tree
}

#[test]
fn a_new_worktree_is_empty() {
    let tree = Worktree::new(3, path("/work/root"));
    assert!(!tree.is_scanning());
    assert_eq!(tree.file_count(), 0);
    assert_eq!(tree.snapshot().id, 3);
    assert_eq!(tree.snapshot().path.bytes, b"/work/root".to_vec());
    assert!(tree.snapshot().root_entry().is_none());
    assert!(tree.can_fmt());
    assert_eq!(tree.fmt(), "Empty tree\n");
}

#[test]
fn worktree_answers_for_paths_and_inodes() {
    let tree = sample_tree();
    assert!(tree.contains_path(&path("/work/root/x")));
    assert!(tree.contains_path(&path("/work/root/")));
    assert!(!tree.contains_path(&path("/work/rootx")));
    assert!(tree.has_inode(12));
    assert!(!tree.has_inode(13));
    assert_eq!(tree.file_count(), 2);
    assert_eq!(tree.files(), vec![12, 120]);
    assert!(tree.has_path(12));
    assert_eq!(
        tree.abs_path_for_inode(12).unwrap().bytes,
        b"/work/root/src/main.rs".to_vec()
    );
    assert_eq!(
        tree.path_for_inode(12, true).unwrap().bytes,
        b"root/src/main.rs".to_vec()
    );
    assert_eq!(
        tree.path_for_inode(12, false).unwrap().bytes,
        b"src/main.rs".to_vec()
    );
    assert_eq!(
        tree.abs_path_for_inode(10).unwrap().bytes,
        b"/work/root/".to_vec()
    );
}

#[test]
fn unknown_inodes_have_no_path() {
    let tree = sample_tree();
    assert!(tree.has_path(13));
    assert_eq!(
        tree.path_for_inode(13, true).err(),
        Some(WorktreeError::NotInWorktree)
    );
    assert_eq!(
        tree.abs_path_for_inode(13).err(),
        Some(WorktreeError::NotInWorktree)
    );
    assert_eq!(tree.save(13, 5).err(), Some(WorktreeError::NotInWorktree));
    assert_eq!(tree.file(13).err(), Some(WorktreeError::NotInTree));
}

#[test]
fn errors_in_words() {
    assert_eq!(
        WorktreeError::NotInWorktree.message(),
        "entry does not exist in worktree"
    );
    assert_eq!(
        WorktreeError::NotInTree.message(),
        "entry does not exist in tree"
    );
    assert_eq!(WorktreeError::Unreadable.message(), "error reading file");
}

#[test]
fn file_handles() {
    let tree = sample_tree();
    let handle: FileHandle = tree.file(120).unwrap();
    assert_eq!(handle.entry_id(), (7, 120));
    assert_eq!(handle.path(&tree).bytes, b"README".to_vec());
    let plan = handle.save(&tree, 100).unwrap();
    assert_eq!(plan.path.bytes, b"/work/root/README".to_vec());
    assert_eq!(plan.buffer_size, 100);
}

#[test]
fn save_buffers_are_bounded() {
    let tree = sample_tree();
    assert_eq!(tree.save(12, 0).unwrap().buffer_size, 0);
    assert_eq!(tree.save(12, 10239).unwrap().buffer_size, 10239);
    assert_eq!(tree.save(12, 10240).unwrap().buffer_size, 10240);
    assert_eq!(tree.save(12, 10241).unwrap().buffer_size, 10240);
}

#[test]
fn polling_goes_on_while_scanning() {
    let mut tree = Worktree::new(7, path("/work/root"));
    assert!(tree.observe_scan_state(ScanState::Scanning, sample()));
    assert!(tree.is_scanning());
    assert_eq!(tree.file_count(), 2);
    assert!(!tree.poll_entries(sample()));
    assert!(!tree.observe_scan_state(ScanState::Scanning, sample()));
    assert!(tree.poll_when_due(sample()));
    assert!(tree.poll_scheduled);
    assert!(!tree.observe_scan_state(ScanState::Idle, sample()));
    assert!(tree.poll_scheduled);
    assert!(!tree.poll_when_due(sample()));
    assert!(!tree.poll_scheduled);
    assert!(!tree.observe_scan_state(ScanState::Failed("gone".to_string()), sample()));
    assert!(!tree.is_scanning());
}

#[test]
fn tree_as_text() {
    let tree = sample_tree();
    assert!(tree.can_fmt());
    assert_eq!(
        tree.fmt(),
        "root/ (10)\n  src/ (11)\n    main.rs (12)\n  README (120)\n"
    );
    assert_eq!(tree.fmt_entry(11, 3), "   src/ (11)\n     main.rs (12)\n");
    assert_eq!(tree.fmt_entry(120, 0), "README (120)\n");
}

#[test]
fn names_that_are_no_text_are_written_with_replacements() {
    let mut snapshot = Snapshot::new(1, path("/r"));
    snapshot.insert_entries(vec![file(18446744073709551615, None, &[97, 255, 98])]);
    assert_eq!(
        snapshot.write_out(18446744073709551615, 1),
        " a\u{fffd}b (18446744073709551615)\n"
    );
    snapshot.insert_entries(vec![file(0, None, "grün".as_bytes())]);
    assert_eq!(snapshot.write_out(0, 0), "grün (0)\n");
}

#[test]
fn one_line() {
    let mut out = String::from("> ");
    write_line(&mut out, &"  ".to_string(), &"src".to_string(), true, 1090);
    write_line(&mut out, &String::new(), &"x".to_string(), false, 7);
    assert_eq!(out, ">   src/ (1090)\nx (7)\n");
}

#[test]
fn what_cannot_be_written_out() {
    let mut snapshot = sample();
    assert!(snapshot.can_write_out(10));
    assert!(!snapshot.can_write_out(13));
    snapshot.insert_entries(vec![dir(11, Some(10), b"src", vec![13])]);
    assert!(!snapshot.can_write_out(10));
    snapshot.insert_entries(vec![dir(11, Some(10), b"src", vec![10])]);
    assert!(!snapshot.can_write_out(10));
    assert!(!snapshot.can_write_out(11));
    assert!(snapshot.can_write_out(120));
}
