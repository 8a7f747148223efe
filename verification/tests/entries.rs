use worktree::entry::{Dimension, Entry, EntrySummary, FileCount, PathEntry};
use worktree::entry_tree::EntryTree;
use worktree::path::UnixPath;

fn dir(inode: u64, parent: Option<u64>, name: &str, children: Vec<u64>) -> Entry {
    Entry::Dir {
        parent,
        name: name.as_bytes().to_vec(),
        inode,
        is_symlink: false,
        is_ignored: false,
        children,
        pending: false,
    }
}

fn file(inode: u64, parent: Option<u64>, name: &str) -> Entry {
    let path = UnixPath::new(name.as_bytes().to_vec());
    Entry::File {
        parent,
        name: name.as_bytes().to_vec(),
        path: PathEntry::new(inode, &path, false),
        inode,
        is_symlink: false,
        is_ignored: false,
    }
}

#[test]
fn entry_accessors() {
    let mut entry = file(7, Some(1), "date");
    assert_eq!(entry.ino(), 7);
    assert_eq!(entry.key(), 7);
    assert_eq!(entry.parent(), Some(1));
    assert_eq!(entry.name(), &b"date".to_vec());
    assert!(entry.is_file());
    entry.set_parent(None);
    assert_eq!(entry.parent(), None);
    let mut entry = dir(8, None, "fennel", vec![9]);
    assert!(!entry.is_file());
    entry.set_parent(Some(3));
    assert_eq!(entry.clone().parent(), Some(3));
}

#[test]
fn summaries_of_entries() {
    let summary = file(7, None, "a").summary();
    assert_eq!((summary.max_ino, summary.file_count), (7, 1));
    let summary = dir(9, None, "b", vec![]).summary();
    assert_eq!((summary.max_ino, summary.file_count), (9, 0));
}

#[test]
fn summaries_add_up() {
    let mut sum = EntrySummary::default();
    assert_eq!((sum.max_ino, sum.file_count), (0, 0));
    sum.add_assign(&file(3, None, "a").summary());
    sum.add_assign(&dir(5, None, "b", vec![]).summary());
    sum.add_assign(&file(9, None, "c").summary());
    assert_eq!((sum.max_ino, sum.file_count), (9, 2));
}

#[test]
fn dimensions_follow_a_run_of_entries() {
    let mut last: u64 = 0;
    let mut count = FileCount::default();
    for entry in [file(3, None, "a"), dir(5, None, "b", vec![]), file(9, None, "c")] {
        let summary = entry.summary();
        last.add_summary(&summary);
        count.add_summary(&summary);
    }
    assert_eq!(last, 9);
    assert_eq!(count, FileCount(2));
}

#[test]
fn tree_keeps_entries_by_inode() {
    let mut tree = EntryTree::new();
    assert_eq!(tree.len(), 0);
    assert_eq!(tree.summary().max_ino, 0);
    tree.insert(file(9, None, "c"));
    tree.insert(file(3, None, "a"));
    tree.insert(dir(5, None, "b", vec![]));
    assert_eq!(tree.len(), 3);
    assert_eq!(tree.files(), vec![3, 9]);
    assert_eq!(tree.files().len(), tree.summary().file_count);
    assert_eq!(tree.summary().max_ino, 9);
    assert_eq!(tree.summary().file_count, 2);
    assert_eq!(tree.get(5).unwrap().name(), &b"b".to_vec());
    assert!(tree.get(4).is_none());
}

#[test]
fn tree_replaces_and_removes() {
    let mut tree = EntryTree::new();
    tree.insert(file(3, None, "a"));
    tree.insert(file(3, None, "b"));
    assert_eq!(tree.len(), 1);
    assert_eq!(tree.get(3).unwrap().name(), &b"b".to_vec());
    let copy = tree.clone();
    assert_eq!(tree.remove(3).unwrap().name(), &b"b".to_vec());
    assert!(tree.remove(3).is_none());
    assert_eq!(tree.len(), 0);
    assert_eq!(copy.len(), 1);
}
