//! What moving an entry, putting one in and applying an event change, field by field.
use vstd::prelude::*;
use crate::entry::EntryView;
use crate::entry_laws::{agree_but_for_children, agree_but_for_parent};
use crate::entry_tree::keyed_by_inode;
use crate::error::WorktreeError;
use crate::event_laws::lemma_behind;
use crate::events::EventBatchView;
use crate::forest_laws::placed;
use crate::path::{components, path_starts_with, relative_to};
use crate::path_laws::law_strip_prefix_drops_components;
use crate::snapshot::{added, can_reparent, reparented, without_child, SnapshotView};

verus! {

/// Filtering what was filtered leaves what both leave.
proof fn lemma_filter_twice(
    s: Seq<u64>,
    f: spec_fn(u64) -> bool,
    g: spec_fn(u64) -> bool,
    both: spec_fn(u64) -> bool,
)
    requires
        forall|x: u64| #[trigger] both(x) <==> f(x) && g(x),
    ensures
        s.filter(f).filter(g) == s.filter(both),
    decreases s.len(),
{
    reveal(Seq::filter);
    if s.len() > 0 {
        lemma_filter_twice(s.drop_last(), f, g, both);
        let kept = s.drop_last().filter(f);
        if f(s.last()) {
            assert(kept.push(s.last()).drop_last() =~= kept);
        }
        assert(both(s.last()) <==> f(s.last()) && g(s.last()));
    }
}

/// A filter that lets everything pass leaves a list as it is.
proof fn lemma_filter_all(s: Seq<u64>, f: spec_fn(u64) -> bool)
    requires
        forall|i: int| 0 <= i < s.len() ==> f(#[trigger] s[i]),
    ensures
        s.filter(f) == s,
    decreases s.len(),
{
    reveal(Seq::filter);
    if s.len() > 0 {
        assert forall|i: int| 0 <= i < s.drop_last().len() implies f(#[trigger] s.drop_last()[i]) by {
            assert(f(s[i]));
        }
        lemma_filter_all(s.drop_last(), f);
        assert(f(s[s.len() - 1]));
        assert(s.drop_last().push(s.last()) =~= s);
    } else {
        assert(s.filter(f) =~= s);
    }
}

/// Two filters that agree leave the same.
proof fn lemma_filter_same(s: Seq<u64>, f: spec_fn(u64) -> bool, g: spec_fn(u64) -> bool)
    requires
        forall|x: u64| #[trigger] f(x) == g(x),
    ensures
        s.filter(f) == s.filter(g),
    decreases s.len(),
{
    reveal(Seq::filter);
    if s.len() > 0 {
        lemma_filter_same(s.drop_last(), f, g);
        assert(f(s.last()) == g(s.last()));
    }
}

/// What is left of a list of children is what differs from the child.
proof fn lemma_without_child_is_filtered(children: Seq<u64>, child: u64)
    ensures
        without_child(children, child) == children.filter(|c: u64| c != child),
    decreases children.len(),
{
    reveal(Seq::filter);
    if children.len() > 0 {
        lemma_without_child_is_filtered(children.drop_last(), child);
    }
}

/// A moved entry names its new parent and is otherwise what it was.
pub proof fn law_moved_entry_names_its_new_parent(
    m: Map<u64, EntryView>,
    child: u64,
    old_parent: Option<u64>,
    new_parent: Option<u64>,
)
    requires
        m.contains_key(child),
    ensures
        ({
            let after = reparented(m, child, old_parent, new_parent);
            &&& after.dom() == m.dom()
            &&& after[child].parent() == new_parent
            &&& agree_but_for_parent(m[child], after[child])
        }),
{
    assert(reparented(m, child, old_parent, new_parent).dom() =~= m.dom());
}

/// When an entry is moved, its old parent lists it no longer, its new parent lists it last, and all
/// others are listed in the order in which they were. Nothing else changes of any other entry.
pub proof fn law_move_changes_two_lists(
    m: Map<u64, EntryView>,
    child: u64,
    old_parent: Option<u64>,
    new_parent: Option<u64>,
    inode: u64,
)
    requires
        m.contains_key(inode),
        inode != child,
    ensures
        ({
            let was = m[inode];
            let now = reparented(m, child, old_parent, new_parent)[inode];
            let others = was.children().filter(|c: u64| c != child);
            &&& agree_but_for_children(was, now)
            &&& was is Dir ==> {
                &&& old_parent != Some(inode) && new_parent != Some(inode) ==> now.children()
                    == was.children()
                &&& old_parent == Some(inode) && new_parent != Some(inode) ==> now.children()
                    == others
                &&& old_parent != Some(inode) && new_parent == Some(inode) ==> now.children()
                    == was.children().push(child)
                &&& old_parent == Some(inode) && new_parent == Some(inode) ==> now.children()
                    == others.push(child)
            }
        }),
{
    lemma_without_child_is_filtered(m[inode].children(), child);
    assert(m[inode] is File ==> m[inode].children().len() == 0);
}

/// An entry that is put in is there as it was found. Its parent lists it last, behind all that it
/// listed before; nothing else changes of any other entry.
pub proof fn law_added_entry_is_listed_last(m: Map<u64, EntryView>, entry: EntryView, inode: u64)
    ensures
        ({
            let after = added(m, entry);
            &&& after.dom() == m.dom().insert(entry.ino())
            &&& after[entry.ino()] == entry
            &&& m.contains_key(inode) && inode != entry.ino() ==> {
                &&& agree_but_for_children(m[inode], after[inode])
                &&& m[inode] is Dir && entry.parent() == Some(inode) ==> after[inode].children()
                    == m[inode].children().push(entry.ino())
                &&& entry.parent() != Some(inode) ==> after[inode] == m[inode]
            }
        }),
{
    assert(added(m, entry).dom() =~= m.dom().insert(entry.ino()));
}

/// A known entry that is placed keeps its kind and whether it is a symlink. A directory keeps
/// whether it is ignored, and is as pending and lists as much as before; a file is ignored where it
/// was found to be, and has the path that was found.
pub proof fn law_placed_entry_keeps_what_it_was(m: Map<u64, EntryView>, entry: EntryView)
    requires
        m.contains_key(entry.ino()),
    ensures
        match (m[entry.ino()], placed(m, entry)[entry.ino()]) {
            (
                EntryView::Dir { inode, is_symlink, is_ignored, children, pending, .. },
                EntryView::Dir {
                    parent: now_parent,
                    name: now_name,
                    inode: now_inode,
                    is_symlink: now_symlink,
                    is_ignored: now_ignored,
                    children: now_children,
                    pending: now_pending,
                },
            ) => {
                &&& now_parent == entry.parent()
                &&& now_name == entry.name()
                &&& now_inode == inode
                &&& now_symlink == is_symlink
                &&& now_ignored == is_ignored
                &&& now_children == children
                &&& now_pending == pending
            },
            (
                EntryView::File { inode, path, is_symlink, is_ignored, .. },
                EntryView::File {
                    parent: now_parent,
                    name: now_name,
                    path: now_path,
                    inode: now_inode,
                    is_symlink: now_symlink,
                    is_ignored: now_ignored,
                },
            ) => {
                &&& now_parent == entry.parent()
                &&& now_name == entry.name()
                &&& now_inode == inode
                &&& now_symlink == is_symlink
                &&& entry matches EntryView::File { path: found_path, is_ignored: found_ignored, .. }
                    ==> now_path == found_path && now_ignored == found_ignored
                &&& entry is Dir ==> now_path == path && now_ignored == is_ignored
            },
            _ => false,
        },
{
}

/// The inode of the entry that the snapshot has at a path, where it has one.
pub open spec fn known_at(s: SnapshotView, relative_path: Seq<u8>) -> Option<u64> {
    match s.inode_at(relative_path) {
        Some(inode) if s.entries.contains_key(inode) => Some(inode),
        _ => None,
    }
}

/// Whether the directory `d` gives up `x` when what lies at a path is detached and `moved` is
/// moved: it is the parent of one of these.
pub open spec fn gives_up(
    m: Map<u64, EntryView>,
    gone: Option<u64>,
    moved: Option<u64>,
    d: u64,
    x: u64,
) -> bool {
    &&& gone == Some(x) || moved == Some(x)
    &&& m.contains_key(x)
    &&& m[x].parent() == Some(d)
    &&& x != d
}

/// When a path is gone from the file system, what the snapshot had there loses its parent and is
/// noted as one that may have left the tree, and its parent lists it no longer. Nothing else
/// changes.
pub proof fn law_vanished_entry_is_detached(
    batch: EventBatchView,
    path: Seq<u8>,
    relative_path: Seq<u8>,
    inode: u64,
)
    requires
        keyed_by_inode(batch.snapshot.entries),
        batch.snapshot.entries.contains_key(inode),
    ensures
        ({
            let m = batch.snapshot.entries;
            let after = batch.applied(path, relative_path, Ok(None));
            let gone = known_at(batch.snapshot, relative_path);
            let was = m[inode];
            let now = after.snapshot.entries[inode];
            &&& after.paths == batch.paths
            &&& after.jobs == batch.jobs
            &&& after.snapshot.id == batch.snapshot.id
            &&& after.snapshot.path == batch.snapshot.path
            &&& after.snapshot.root_inode == batch.snapshot.root_inode
            &&& after.snapshot.entries.dom() == m.dom()
            &&& gone is None ==> after == batch
            &&& gone matches Some(g) ==> after.possible_removed_inodes
                == if batch.possible_removed_inodes.contains(g) {
                batch.possible_removed_inodes
            } else {
                batch.possible_removed_inodes.push(g)
            }
            &&& gone == Some(inode) ==> now.parent() is None && agree_but_for_parent(was, now)
            &&& gone != Some(inode) ==> agree_but_for_children(was, now)
            &&& was is Dir ==> now.children() == was.children().filter(
                |x: u64| !gives_up(m, gone, None, inode, x),
            )
        }),
{
    let m = batch.snapshot.entries;
    let gone = known_at(batch.snapshot, relative_path);
    let was = m[inode];
    let keeps = |x: u64| !gives_up(m, gone, None, inode, x);
    match gone {
        Some(g) => {
            assert(m.contains_key(g));
            assert(m[g].ino() == g);
            law_moved_entry_names_its_new_parent(m, g, m[g].parent(), None);
            if inode != g {
                law_move_changes_two_lists(m, g, m[g].parent(), None, inode);
            }
            if was is Dir {
                if inode != g && m[g].parent() == Some(inode) {
                    lemma_filter_same(was.children(), |c: u64| c != g, keeps);
                } else {
                    lemma_filter_all(was.children(), keeps);
                }
            }
        },
        None => {
            lemma_filter_all(was.children(), keeps);
        },
    }
}

/// What an event leaves unchanged: which tree the snapshot is of, and all of it where the snapshot
/// has at the path, below the same parent, what was found there, or where the path could not be
/// read.
pub proof fn law_event_may_change_nothing(
    batch: EventBatchView,
    path: Seq<u8>,
    relative_path: Seq<u8>,
    entry: EntryView,
    error: WorktreeError,
)
    ensures
        batch.applied(path, relative_path, Err(error)) == batch,
        known_at(batch.snapshot, relative_path) matches Some(inode) && (
        batch.snapshot.entries[inode].ino() == entry.ino()
            && batch.snapshot.entries[inode].parent() == entry.parent()) ==> batch.applied(
            path,
            relative_path,
            Ok(Some(entry)),
        ) == batch,
{
}

/// Whether what was found is not what the snapshot has at the path, below the same parent.
pub open spec fn is_news(s: SnapshotView, relative_path: Seq<u8>, entry: EntryView) -> bool {
    known_at(s, relative_path) matches Some(inode) ==> inode != entry.ino() || s.entries[inode].parent()
        != entry.parent()
}

/// When something is found that the snapshot did not know, it is there as it was found. What the
/// snapshot had at the path is noted as one that may have left the tree. A directory is to be
/// listed, behind those that wait already: under its own inode, at the event's path, with the path
/// below the root, and with ignore rules applied. A file adds nothing to be listed.
pub proof fn law_unknown_entry_is_put_in(
    batch: EventBatchView,
    path: Seq<u8>,
    relative_path: Seq<u8>,
    entry: EntryView,
)
    requires
        keyed_by_inode(batch.snapshot.entries),
        !batch.snapshot.entries.contains_key(entry.ino()),
    ensures
        ({
            let m = batch.snapshot.entries;
            let after = batch.applied(path, relative_path, Ok(Some(entry)));
            &&& after.snapshot.entries.dom() == m.dom().insert(entry.ino())
            &&& after.snapshot.entries[entry.ino()] == entry
            &&& entry is File ==> after.jobs == batch.jobs
            &&& entry is Dir ==> {
                &&& after.jobs.len() == batch.jobs.len() + 1
                &&& after.jobs.drop_last() == batch.jobs
                &&& after.jobs.last().ino == entry.ino()
                &&& after.jobs.last().path == path
                &&& after.jobs.last().relative_path == relative_path
                &&& after.jobs.last().dir_entry == entry
                &&& after.jobs.last().ignore
                &&& relative_to(path, batch.snapshot.path) == Some(relative_path) ==> components(
                    after.jobs.last().relative_path,
                ) == components(path).skip(components(batch.snapshot.path).len() as int)
            }
        }),
{
    let m = batch.snapshot.entries;
    let after = batch.applied(path, relative_path, Ok(Some(entry)));
    let gone = known_at(batch.snapshot, relative_path);
    let cleared = batch.cleared(relative_path);
    if let Some(g) = gone {
        assert(m.contains_key(g));
        law_moved_entry_names_its_new_parent(m, m[g].ino(), m[g].parent(), None);
    }
    assert(cleared.snapshot.entries.dom() == m.dom());
    assert(after == cleared.admitted(path, relative_path, entry));
    law_added_entry_is_listed_last(cleared.snapshot.entries, entry, entry.ino());
    if entry is Dir {
        assert(after.jobs.drop_last() =~= batch.jobs);
        if relative_to(path, batch.snapshot.path) == Some(relative_path) {
            law_strip_prefix_drops_components(path, batch.snapshot.path);
        }
    }
}

/// When something is found that the snapshot knew elsewhere, nothing is to be listed for it, and no
/// event is passed over.
pub proof fn law_known_entry_needs_no_listing(
    batch: EventBatchView,
    path: Seq<u8>,
    relative_path: Seq<u8>,
    entry: EntryView,
)
    requires
        keyed_by_inode(batch.snapshot.entries),
        batch.snapshot.entries.contains_key(entry.ino()),
    ensures
        ({
            let after = batch.applied(path, relative_path, Ok(Some(entry)));
            &&& after.jobs == batch.jobs
            &&& after.paths == batch.paths
            &&& after.snapshot.entries.dom() == batch.snapshot.entries.dom()
        }),
{
    let m = batch.snapshot.entries;
    let after = batch.applied(path, relative_path, Ok(Some(entry)));
    let gone = known_at(batch.snapshot, relative_path);
    let cleared = batch.cleared(relative_path);
    if let Some(g) = gone {
        assert(m.contains_key(g));
        law_moved_entry_names_its_new_parent(m, m[g].ino(), m[g].parent(), None);
    }
    assert(cleared.snapshot.entries.dom() == m.dom());
    assert(after.snapshot.entries.dom() =~= m.dom());
}

/// The events that are passed over lie at or below the path of what was put in and come first; the
/// first that is left does not lie there.
pub proof fn law_passed_events_come_first(
    batch: EventBatchView,
    path: Seq<u8>,
    relative_path: Seq<u8>,
    entry: EntryView,
)
    requires
        keyed_by_inode(batch.snapshot.entries),
        !batch.snapshot.entries.contains_key(entry.ino()),
    ensures
        ({
            let after = batch.applied(path, relative_path, Ok(Some(entry)));
            let passed = batch.paths.len() - after.paths.len();
            &&& 0 <= passed
            &&& after.paths == batch.paths.skip(passed)
            &&& forall|i: int| 0 <= i < passed ==> path_starts_with(#[trigger] batch.paths[i], path)
            &&& after.paths.len() > 0 ==> !path_starts_with(after.paths[0], path)
        }),
{
    let m = batch.snapshot.entries;
    let cleared = batch.cleared(relative_path);
    if let Some(g) = known_at(batch.snapshot, relative_path) {
        assert(m.contains_key(g));
        law_moved_entry_names_its_new_parent(m, m[g].ino(), m[g].parent(), None);
    }
    assert(cleared.snapshot.entries.dom() == m.dom());
    let passed = lemma_behind(batch.paths, path);
}

/// What the snapshot had at the path of news is noted as one that may have left the tree, once.
pub proof fn law_replaced_entry_is_noted(
    batch: EventBatchView,
    path: Seq<u8>,
    relative_path: Seq<u8>,
    entry: EntryView,
)
    requires
        keyed_by_inode(batch.snapshot.entries),
        is_news(batch.snapshot, relative_path, entry),
    ensures
        ({
            let after = batch.applied(path, relative_path, Ok(Some(entry)));
            let noted = batch.possible_removed_inodes;
            match known_at(batch.snapshot, relative_path) {
                Some(gone) => after.possible_removed_inodes == if noted.contains(gone) {
                    noted
                } else {
                    noted.push(gone)
                },
                None => after.possible_removed_inodes == noted,
            }
        }),
{
    let m = batch.snapshot.entries;
    if let Some(g) = known_at(batch.snapshot, relative_path) {
        assert(m.contains_key(g));
        assert(m[g].ino() == g);
    }
}

/// News of a known entry gives it the parent and the name that were found; it keeps its kind, its
/// inode and whether it is a symlink. A directory keeps whether it is ignored or pending; a file
/// found as a file has the path that was found, and is ignored where it was found to be.
pub proof fn law_known_entry_takes_over_little(
    batch: EventBatchView,
    path: Seq<u8>,
    relative_path: Seq<u8>,
    entry: EntryView,
)
    requires
        keyed_by_inode(batch.snapshot.entries),
        batch.snapshot.entries.contains_key(entry.ino()),
        is_news(batch.snapshot, relative_path, entry),
    ensures
        match (
            batch.snapshot.entries[entry.ino()],
            batch.applied(path, relative_path, Ok(Some(entry))).snapshot.entries[entry.ino()],
        ) {
            (
                EntryView::Dir { inode, is_symlink, is_ignored, pending, .. },
                EntryView::Dir {
                    parent: now_parent,
                    name: now_name,
                    inode: now_inode,
                    is_symlink: now_symlink,
                    is_ignored: now_ignored,
                    pending: now_pending,
                    ..
                },
            ) => {
                &&& now_parent == entry.parent()
                &&& now_name == entry.name()
                &&& now_inode == inode
                &&& now_symlink == is_symlink
                &&& now_ignored == is_ignored
                &&& now_pending == pending
            },
            (
                EntryView::File { inode, path: was_path, is_symlink, is_ignored, .. },
                EntryView::File {
                    parent: now_parent,
                    name: now_name,
                    path: now_path,
                    inode: now_inode,
                    is_symlink: now_symlink,
                    is_ignored: now_ignored,
                },
            ) => {
                &&& now_parent == entry.parent()
                &&& now_name == entry.name()
                &&& now_inode == inode
                &&& now_symlink == is_symlink
                &&& entry matches EntryView::File { path: found_path, is_ignored: found_ignored, .. }
                    ==> now_path == found_path && now_ignored == found_ignored
                &&& entry is Dir ==> now_path == was_path && now_ignored == is_ignored
            },
            _ => false,
        },
{
    let m = batch.snapshot.entries;
    let cleared = batch.cleared(relative_path).snapshot.entries;
    let child = entry.ino();
    assert(m[child].ino() == child);
    if let Some(g) = known_at(batch.snapshot, relative_path) {
        assert(m.contains_key(g));
        assert(m[g].ino() == g);
        law_moved_entry_names_its_new_parent(m, g, m[g].parent(), None);
        if child != g {
            law_move_changes_two_lists(m, g, m[g].parent(), None, child);
        }
    }
    law_placed_entry_keeps_what_it_was(cleared, entry);
    assert(batch.applied(path, relative_path, Ok(Some(entry))).snapshot.entries == placed(
        cleared,
        entry,
    ));
}

/// News of one entry leaves all others what they are: the one that was at the path before loses its
/// parent, and directories list what they are left with, in the order in which they listed it, and
/// at last what was found in them.
pub proof fn law_news_changes_lists_and_parents(
    batch: EventBatchView,
    path: Seq<u8>,
    relative_path: Seq<u8>,
    entry: EntryView,
    inode: u64,
)
    requires
        keyed_by_inode(batch.snapshot.entries),
        is_news(batch.snapshot, relative_path, entry),
        batch.snapshot.entries.contains_key(inode),
    ensures
        ({
            let m = batch.snapshot.entries;
            let now = batch.applied(path, relative_path, Ok(Some(entry))).snapshot.entries[inode];
            let was = m[inode];
            let gone = known_at(batch.snapshot, relative_path);
            let left = was.children().filter(
                |x: u64| !gives_up(m, gone, Some(entry.ino()), inode, x),
            );
            &&& inode != entry.ino() ==> {
                &&& now.parent() == if gone == Some(inode) {
                    None
                } else {
                    was.parent()
                }
                &&& agree_but_for_children(was.with_parent(now.parent()), now)
            }
            &&& was is Dir ==> now.children() == if entry.parent() == Some(inode) && inode
                != entry.ino() {
                left.push(entry.ino())
            } else {
                left
            }
        }),
{
    let m = batch.snapshot.entries;
    let child = entry.ino();
    let gone = known_at(batch.snapshot, relative_path);
    let cleared = batch.cleared(relative_path).snapshot.entries;
    let was = m[inode];
    let known = m.contains_key(child);
    let keeps = |x: u64| !gives_up(m, gone, Some(child), inode, x);
    let keeps_first = |x: u64| !gives_up(m, gone, None, inode, x);
    assert(m[inode].ino() == inode);
    law_vanished_entry_is_detached(batch, path, relative_path, inode);
    assert(batch.applied(path, relative_path, Ok(None)).snapshot.entries == cleared);
    let between = cleared[inode];
    assert(was is Dir ==> between.children() == was.children().filter(keeps_first));
    assert(batch.applied(path, relative_path, Ok(Some(entry))).snapshot.entries == placed(
        cleared,
        entry,
    ));
    if known {
        law_vanished_entry_is_detached(batch, path, relative_path, child);
        let old_parent = cleared[child].parent();
        assert(gone == Some(child) ==> old_parent is None);
        assert(gone != Some(child) ==> old_parent == m[child].parent());
        let moved = reparented(cleared, child, old_parent, entry.parent());
        let strips = |c: u64| c != child;
        if inode != child {
            law_move_changes_two_lists(cleared, child, old_parent, entry.parent(), inode);
            if was is Dir {
                if old_parent == Some(inode) {
                    assert(between.children().filter(|c: u64| c != child)
                        == between.children().filter(strips));
                    lemma_filter_twice(was.children(), keeps_first, strips, keeps);
                } else {
                    lemma_filter_same(was.children(), keeps_first, keeps);
                }
            }
        } else {
            law_moved_entry_names_its_new_parent(cleared, child, old_parent, entry.parent());
            law_placed_entry_keeps_what_it_was(cleared, entry);
            if was is Dir {
                lemma_filter_same(was.children(), keeps_first, keeps);
            }
        }
    } else {
        law_added_entry_is_listed_last(cleared, entry, inode);
        if was is Dir {
            lemma_filter_same(was.children(), keeps_first, keeps);
        }
    }
}

/// Whether what a parent names can list entries: it is a directory, where it is known and is not
/// the entry itself.
pub open spec fn can_list(m: Map<u64, EntryView>, parent: Option<u64>, child: u64) -> bool {
    match parent {
        Some(p) => !m.contains_key(p) || p == child || m[p] is Dir,
        None => true,
    }
}

/// An entry can be moved where it is known, and neither parent is a file.
pub proof fn law_moves_need_directories(
    m: Map<u64, EntryView>,
    child: u64,
    old_parent: Option<u64>,
    new_parent: Option<u64>,
)
    ensures
        can_reparent(m, child, old_parent, new_parent) <==> m.contains_key(child) && can_list(
            m,
            old_parent,
            child,
        ) && can_list(m, new_parent, child),
{
}

/// An event can be applied where no file is named as the parent of what is detached, moved or
/// found: of what the snapshot has at the path, of the entry where it is known, and of what was
/// found. A path that could not be read, or that the snapshot has right, asks for nothing.
pub proof fn law_events_need_directories(
    batch: EventBatchView,
    relative_path: Seq<u8>,
    entry: EntryView,
    error: WorktreeError,
)
    requires
        keyed_by_inode(batch.snapshot.entries),
    ensures
        ({
            let m = batch.snapshot.entries;
            let gone = known_at(batch.snapshot, relative_path);
            let can_detach = gone matches Some(g) ==> can_list(m, m[g].parent(), g);
            &&& batch.can_apply(relative_path, Err(error))
            &&& batch.can_apply(relative_path, Ok(None)) <==> can_detach
            &&& !is_news(batch.snapshot, relative_path, entry) ==> batch.can_apply(
                relative_path,
                Ok(Some(entry)),
            )
            &&& is_news(batch.snapshot, relative_path, entry) ==> (batch.can_apply(
                relative_path,
                Ok(Some(entry)),
            ) <==> can_detach && (m.contains_key(entry.ino()) ==> can_list(
                m,
                entry.parent(),
                entry.ino(),
            ) && can_list(m, m[entry.ino()].parent(), entry.ino())))
        }),
{
    let m = batch.snapshot.entries;
    let gone = known_at(batch.snapshot, relative_path);
    let child = entry.ino();
    let cleared = batch.cleared(relative_path).snapshot.entries;
    if let Some(g) = gone {
        assert(m.contains_key(g));
        assert(m[g].ino() == g);
        law_moved_entry_names_its_new_parent(m, g, m[g].parent(), None);
        assert forall|k: u64| #[trigger] m.contains_key(k) implies cleared.contains_key(k) && (
        cleared[k] is Dir) == (m[k] is Dir) && (k != g ==> cleared[k].parent() == m[k].parent()) by {
            assert(cleared.dom().contains(k));
            if k != g {
                law_move_changes_two_lists(m, g, m[g].parent(), None, k);
            }
        }
        assert forall|k: u64| #[trigger] cleared.contains_key(k) implies m.contains_key(k) by {
            assert(cleared.dom().contains(k));
        }
    }
}

} // verus!
