//! What an entry holds, and what each change of an entry leaves as it was, field by field.
use vstd::prelude::*;
use crate::entry::{Dimension, Entry, EntryView, FileCount};
use crate::entry_tree::{file_inodes, rising};

verus! {

/// An entry stands for what its fields hold.
pub proof fn law_entry_stands_for_its_fields(entry: Entry)
    ensures
        match (entry, entry@) {
            (
                Entry::Dir { parent, name, inode, is_symlink, is_ignored, children, pending },
                EntryView::Dir {
                    parent: seen_parent,
                    name: seen_name,
                    inode: seen_inode,
                    is_symlink: seen_symlink,
                    is_ignored: seen_ignored,
                    children: seen_children,
                    pending: seen_pending,
                },
            ) => {
                &&& seen_parent == parent
                &&& seen_name == name@
                &&& seen_inode == inode
                &&& seen_symlink == is_symlink
                &&& seen_ignored == is_ignored
                &&& seen_children == children@
                &&& seen_pending == pending
            },
            (
                Entry::File { parent, name, path, inode, is_symlink, is_ignored },
                EntryView::File {
                    parent: seen_parent,
                    name: seen_name,
                    path: seen_path,
                    inode: seen_inode,
                    is_symlink: seen_symlink,
                    is_ignored: seen_ignored,
                },
            ) => {
                &&& seen_parent == parent
                &&& seen_name == name@
                &&& seen_path.ino == path.ino
                &&& seen_path.path == path.path.bytes@
                &&& seen_path.is_ignored == path.is_ignored
                &&& seen_inode == inode
                &&& seen_symlink == is_symlink
                &&& seen_ignored == is_ignored
            },
            _ => false,
        },
{
}

/// What is asked of an entry is what its fields hold. A file has no children.
pub proof fn law_entry_tells_its_fields(entry: EntryView)
    ensures
        match entry {
            EntryView::Dir { parent, name, inode, is_ignored, children, .. } => {
                &&& entry.parent() == parent
                &&& entry.name() == name
                &&& entry.ino() == inode
                &&& entry.is_ignored() == is_ignored
                &&& entry.children() == children
            },
            EntryView::File { parent, name, inode, is_ignored, .. } => {
                &&& entry.parent() == parent
                &&& entry.name() == name
                &&& entry.ino() == inode
                &&& entry.is_ignored() == is_ignored
                &&& entry.children().len() == 0
            },
        },
{
}

/// Whether two entries agree in all but their parents.
pub open spec fn agree_but_for_parent(a: EntryView, b: EntryView) -> bool {
    match (a, b) {
        (
            EntryView::Dir { name, inode, is_symlink, is_ignored, children, pending, .. },
            EntryView::Dir {
                name: other_name,
                inode: other_inode,
                is_symlink: other_symlink,
                is_ignored: other_ignored,
                children: other_children,
                pending: other_pending,
                ..
            },
        ) => {
            &&& name == other_name
            &&& inode == other_inode
            &&& is_symlink == other_symlink
            &&& is_ignored == other_ignored
            &&& children == other_children
            &&& pending == other_pending
        },
        (
            EntryView::File { name, path, inode, is_symlink, is_ignored, .. },
            EntryView::File {
                name: other_name,
                path: other_path,
                inode: other_inode,
                is_symlink: other_symlink,
                is_ignored: other_ignored,
                ..
            },
        ) => {
            &&& name == other_name
            &&& path == other_path
            &&& inode == other_inode
            &&& is_symlink == other_symlink
            &&& is_ignored == other_ignored
        },
        _ => false,
    }
}

/// Whether two entries agree in all but what they list.
pub open spec fn agree_but_for_children(a: EntryView, b: EntryView) -> bool {
    match (a, b) {
        (
            EntryView::Dir { parent, name, inode, is_symlink, is_ignored, pending, .. },
            EntryView::Dir {
                parent: other_parent,
                name: other_name,
                inode: other_inode,
                is_symlink: other_symlink,
                is_ignored: other_ignored,
                pending: other_pending,
                ..
            },
        ) => {
            &&& parent == other_parent
            &&& name == other_name
            &&& inode == other_inode
            &&& is_symlink == other_symlink
            &&& is_ignored == other_ignored
            &&& pending == other_pending
        },
        (EntryView::File { .. }, EntryView::File { .. }) => a == b,
        _ => false,
    }
}

/// Giving an entry another parent changes nothing else of it.
pub proof fn law_new_parent_is_all_that_changes(entry: EntryView, parent: Option<u64>)
    ensures
        agree_but_for_parent(entry, entry.with_parent(parent)),
        entry.with_parent(parent).parent() == parent,
{
}

/// Giving a directory other children changes nothing else of it, and listing it besides only that
/// it is not pending any more. A file stays as it is.
pub proof fn law_new_children_are_all_that_changes(entry: EntryView, children: Seq<u64>)
    ensures
        agree_but_for_children(entry, entry.with_children(children)),
        entry is Dir ==> entry.with_children(children).children() == children,
        match (entry, entry.listed(children)) {
            (
                EntryView::Dir { parent, name, inode, is_symlink, is_ignored, .. },
                EntryView::Dir {
                    parent: now_parent,
                    name: now_name,
                    inode: now_inode,
                    is_symlink: now_symlink,
                    is_ignored: now_ignored,
                    children: now_children,
                    pending: now_pending,
                },
            ) => {
                &&& now_parent == parent
                &&& now_name == name
                &&& now_inode == inode
                &&& now_symlink == is_symlink
                &&& now_ignored == is_ignored
                &&& now_children == children
                &&& !now_pending
            },
            (EntryView::File { .. }, now) => now == entry,
            _ => false,
        },
{
}

/// What stays of a known entry and what is taken from what was found, when `now` is the entry
/// refreshed by what was found: its kind, inode, and whether it is a symlink stay, its name is the
/// one that was found. A directory keeps its children and whether it is pending or ignored; a file
/// has the path that was found, and whether it is ignored as it was found.
pub open spec fn is_refresh(known: EntryView, found: EntryView, now: EntryView) -> bool {
    match (known, now) {
        (
            EntryView::Dir { inode, is_symlink, is_ignored, children, pending, .. },
            EntryView::Dir {
                name: now_name,
                inode: now_inode,
                is_symlink: now_symlink,
                is_ignored: now_ignored,
                children: now_children,
                pending: now_pending,
                ..
            },
        ) => {
            &&& now_name == found.name()
            &&& now_inode == inode
            &&& now_symlink == is_symlink
            &&& now_ignored == is_ignored
            &&& now_children == children
            &&& now_pending == pending
        },
        (
            EntryView::File { path, inode, is_symlink, is_ignored, .. },
            EntryView::File {
                name: now_name,
                path: now_path,
                inode: now_inode,
                is_symlink: now_symlink,
                is_ignored: now_ignored,
                ..
            },
        ) => {
            &&& now_name == found.name()
            &&& now_inode == inode
            &&& now_symlink == is_symlink
            &&& match found {
                EntryView::File { path: found_path, is_ignored: found_ignored, .. } => now_path
                    == found_path && now_ignored == found_ignored,
                EntryView::Dir { .. } => now_path == path && now_ignored == is_ignored,
            }
        },
        _ => false,
    }
}

/// A refreshed entry keeps its parent, and takes over from what was found only its name and, where
/// both are files, the path and whether it is ignored.
pub proof fn law_refresh_takes_over_little(known: EntryView, found: EntryView)
    ensures
        is_refresh(known, found, known.refreshed(found)),
        known.refreshed(found).parent() == known.parent(),
{
}

/// Refreshing an entry twice by the same gives nothing new, and refreshing it by itself nothing at
/// all.
pub proof fn law_refresh_settles(known: EntryView, found: EntryView)
    ensures
        known.refreshed(found).refreshed(found) == known.refreshed(found),
        known.refreshed(known) == known,
{
}

/// An entry adds its inode to a summary, and one file where it is a file. Counts of files add up,
/// and the last inode passed is that of the last run.
pub proof fn law_summary_counts_files(entry: EntryView, count: FileCount, last: u64)
    ensures
        entry.summary().max_ino == entry.ino(),
        entry is File ==> entry.summary().file_count == 1,
        entry is Dir ==> entry.summary().file_count == 0,
        count.can_add(entry.summary()) <==> count.0 + entry.summary().file_count <= usize::MAX,
        count.can_add(entry.summary()) ==> count.after(entry.summary()).0 == count.0
            + entry.summary().file_count,
        last.can_add(entry.summary()),
        last.after(entry.summary()) == entry.ino(),
{
}

/// The inodes of files are those whose entries are files.
pub proof fn law_file_inodes_are_those_of_files(m: Map<u64, EntryView>, inode: u64)
    ensures
        file_inodes(m).contains(inode) <==> m.contains_key(inode) && m[inode] is File,
        m.dom().finite() ==> file_inodes(m).finite() && file_inodes(m).len() <= m.dom().len(),
{
    if m.dom().finite() {
        vstd::set_lib::lemma_len_subset(file_inodes(m), m.dom());
    }
}

/// A list rises where every inode in it is lower than the next one.
pub proof fn law_rising_list_goes_up(inodes: Seq<u64>)
    ensures
        rising(inodes) <==> forall|i: int|
            #![trigger inodes[i]]
            0 <= i < inodes.len() - 1 ==> inodes[i] < inodes[i + 1],
{
    if forall|i: int| #![trigger inodes[i]] 0 <= i < inodes.len() - 1 ==> inodes[i] < inodes[i + 1] {
        assert forall|i: int, j: int| 0 <= i < j < inodes.len() implies inodes[i] < inodes[j] by {
            lemma_goes_up(inodes, i, j);
        }
    }
}

proof fn lemma_goes_up(inodes: Seq<u64>, i: int, j: int)
    requires
        forall|i: int|
            #![trigger inodes[i]]
            0 <= i < inodes.len() - 1 ==> inodes[i] < inodes[i + 1],
        0 <= i < j < inodes.len(),
    ensures
        inodes[i] < inodes[j],
    decreases j - i,
{
    assert(inodes[j - 1] < inodes[j - 1 + 1]);
    if i < j - 1 {
        lemma_goes_up(inodes, i, j - 1);
    }
}

} // verus!
