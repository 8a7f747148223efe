//! What the operations that change an entry, a snapshot, a batch or a worktree leave behind.
use vstd::prelude::*;
use crate::effect_laws::{
    is_news, known_at, law_known_entry_needs_no_listing, law_known_entry_takes_over_little,
    law_move_changes_two_lists, law_moved_entry_names_its_new_parent, law_unknown_entry_is_put_in,
    law_vanished_entry_is_detached,
};
use crate::entry::{Dimension, Entry, EntrySummary, EntryView, FileCount};
use crate::entry_laws::{
    agree_but_for_children, agree_but_for_parent, law_new_parent_is_all_that_changes,
    law_refresh_takes_over_little,
};
use crate::entry_tree::{entry_views, keyed_by_inode};
use crate::error::WorktreeError;
use crate::events::{path_views, EventBatch, NextEvent};
use crate::lookup_laws::{
    law_last_inserted_entry_stays, law_root_is_listed_first, law_scan_starts_at_the_root,
};
use crate::orphans::law_orphans_pull_along_what_they_list;
use crate::path::{components, path_ordered, UnixPath};
use crate::path_laws::law_strip_prefix_drops_components;
use crate::scan::{job_views, FsMetadata, ScanJob};
use crate::snapshot::Snapshot;
use crate::spelling_laws::{law_containment_goes_by_components, law_sorted_paths_stand_in_order};
use crate::worktree::{ScanState, Worktree};
use crate::worktree_laws::law_worktree_takes_note;

verus! {

/// Setting the parent of an entry changes nothing else of it.
pub proof fn law_set_parent_leaves_the_rest(entry: &mut Entry, parent: Option<u64>)
    requires
        call_ensures(Entry::set_parent, (entry, parent), ()),
    ensures
        final(entry)@.parent() == parent,
        agree_but_for_parent(old(entry)@, final(entry)@),
{
    law_new_parent_is_all_that_changes(old(entry)@, parent);
}

/// Refreshing an entry by what was found leaves its place, its kind, its inode and whether it is a
/// symlink. A directory stays as ignored, as pending and with as many children as it was; a file
/// found as a file is as ignored as it was found.
pub proof fn law_refresh_leaves_the_rest(entry: &mut Entry, found: Entry)
    requires
        call_ensures(Entry::refresh, (entry, &found), ()),
    ensures
        final(entry)@.name() == found@.name(),
        final(entry)@.parent() == old(entry)@.parent(),
        final(entry)@.ino() == old(entry)@.ino(),
        match (old(entry)@, final(entry)@) {
            (
                EntryView::Dir { is_symlink, is_ignored, children, pending, .. },
                EntryView::Dir {
                    is_symlink: now_symlink,
                    is_ignored: now_ignored,
                    children: now_children,
                    pending: now_pending,
                    ..
                },
            ) => {
                &&& now_symlink == is_symlink
                &&& now_ignored == is_ignored
                &&& now_children == children
                &&& now_pending == pending
            },
            (
                EntryView::File { is_symlink, .. },
                EntryView::File { is_symlink: now_symlink, is_ignored: now_ignored, path, .. },
            ) => {
                &&& now_symlink == is_symlink
                &&& found@ matches EntryView::File { is_ignored: found_ignored, path: found_path, .. }
                    ==> now_ignored == found_ignored && path == found_path
            },
            _ => false,
        },
{
    law_refresh_takes_over_little(old(entry)@, found@);
}

/// Counts of files add up along a run of entries, and the last inode is that of the last entry.
pub proof fn law_runs_of_entries_add_up(
    sum: &mut EntrySummary,
    more: EntrySummary,
    count: &mut FileCount,
    last: &mut u64,
)
    requires
        old(sum).file_count + more.file_count <= usize::MAX,
        old(count).0 + more.file_count <= usize::MAX,
        call_ensures(EntrySummary::add_assign, (sum, &more), ()),
        call_ensures(<FileCount as Dimension>::add_summary, (count, &more), ()),
        call_ensures(<u64 as Dimension>::add_summary, (last, &more), ()),
    ensures
        final(sum).file_count == old(sum).file_count + more.file_count,
        final(sum).max_ino == more.max_ino,
        final(count).0 == old(count).0 + more.file_count,
        *final(last) == more.max_ino,
{
}

/// Entries that are put in are found by their inodes where no later one has the same; all others
/// stay.
pub proof fn law_entries_are_put_in(s: &mut Snapshot, entries: Vec<Entry>, inode: u64, i: int)
    requires
        call_ensures(Snapshot::insert_entries, (s, entries), ()),
    ensures
        final(s)@.id == old(s)@.id,
        final(s)@.path == old(s)@.path,
        final(s)@.root_inode == old(s)@.root_inode,
        0 <= i < entries@.len() && entries@[i]@.ino() == inode && (forall|j: int|
            i < j < entries@.len() ==> (#[trigger] entries@[j])@.ino() != inode)
            ==> final(s)@.entries.contains_key(inode) && final(s)@.entries[inode] == entries@[i]@,
        (forall|j: int| 0 <= j < entries@.len() ==> (#[trigger] entries@[j])@.ino() != inode) ==> {
            &&& final(s)@.entries.contains_key(inode) == old(s)@.entries.contains_key(inode)
            &&& final(s)@.entries[inode] == old(s)@.entries[inode]
        },
{
    let all = entry_views(entries@);
    law_last_inserted_entry_stays(old(s)@.entries, all, inode);
    if 0 <= i < entries@.len() && entries@[i]@.ino() == inode && (forall|j: int|
        i < j < entries@.len() ==> (#[trigger] entries@[j])@.ino() != inode) {
        assert(all[i] == entries@[i]@);
        assert forall|j: int| i < j < all.len() implies (#[trigger] all[j]).ino() != inode by {
            assert(all[j] == entries@[j]@);
        }
    }
    if forall|j: int| 0 <= j < entries@.len() ==> (#[trigger] entries@[j])@.ino() != inode {
        assert forall|j: int| 0 <= j < all.len() implies (#[trigger] all[j]).ino() != inode by {
            assert(all[j] == entries@[j]@);
        }
    }
}

/// A moved entry names its new parent, which lists it last; its old parent lists it no longer.
/// Nothing else changes.
pub proof fn law_entry_is_moved(
    s: &mut Snapshot,
    child: u64,
    old_parent: Option<u64>,
    new_parent: Option<u64>,
    inode: u64,
)
    requires
        old(s)@.entries.contains_key(child),
        old(s)@.entries.contains_key(inode),
        call_ensures(Snapshot::reparent_entry, (s, child, old_parent, new_parent), ()),
    ensures
        ({
            let m = old(s)@.entries;
            let now = final(s)@.entries;
            let others = m[inode].children().filter(|c: u64| c != child);
            &&& final(s)@.path == old(s)@.path
            &&& final(s)@.root_inode == old(s)@.root_inode
            &&& now.dom() == m.dom()
            &&& now[child].parent() == new_parent
            &&& agree_but_for_parent(m[child], now[child])
            &&& inode != child ==> agree_but_for_children(m[inode], now[inode])
            &&& inode != child && m[inode] is Dir ==> {
                &&& old_parent == Some(inode) && new_parent != Some(inode) ==> now[inode].children()
                    == others
                &&& old_parent != Some(inode) && new_parent == Some(inode) ==> now[inode].children()
                    == m[inode].children().push(child)
                &&& old_parent == Some(inode) && new_parent == Some(inode) ==> now[inode].children()
                    == others.push(child)
                &&& old_parent != Some(inode) && new_parent != Some(inode) ==> now[inode] == m[inode]
            }
        }),
{
    let m = old(s)@.entries;
    law_moved_entry_names_its_new_parent(m, child, old_parent, new_parent);
    if inode != child {
        law_move_changes_two_lists(m, child, old_parent, new_parent, inode);
    }
}

/// What is removed hangs on candidates that have no parent; whatever has none and is no candidate,
/// or hangs on what stays, stays as it is.
pub proof fn law_orphans_are_removed(s: &mut Snapshot, candidates: Vec<u64>, dir: u64, inode: u64)
    requires
        call_ensures(Snapshot::remove_orphans, (s, &candidates), ()),
        old(s)@.entries.contains_key(inode),
    ensures
        final(s)@.path == old(s)@.path,
        final(s)@.root_inode == old(s)@.root_inode,
        old(s)@.entries[inode].parent() is None ==> (final(s)@.entries.contains_key(inode)
            <==> !candidates@.contains(inode)),
        old(s)@.entries[inode].parent() == Some(dir) && old(s)@.entries.contains_key(dir) ==> ({
            let stays = final(s)@.entries.contains_key(inode);
            let listed = old(s)@.entries[dir].children().contains(inode);
            stays <==> final(s)@.entries.contains_key(dir) || !listed
        }),
        final(s)@.entries.contains_key(inode) ==> final(s)@.entries[inode] == old(s)@.entries[inode],
{
    law_orphans_pull_along_what_they_list(old(s)@.entries, candidates@, dir, inode);
    law_orphans_pull_along_what_they_list(old(s)@.entries, candidates@, dir, dir);
}

/// A scan starts with the root: its entry is put in, the tree starts there, and it is to be listed
/// where it is a directory, at the tree's path and with ignore rules applied.
pub proof fn law_root_is_scanned(
    s: &mut Snapshot,
    opened: UnixPath,
    metadata: FsMetadata,
    job: Option<ScanJob>,
)
    requires
        call_ensures(Snapshot::scan_root, (s, &opened, metadata), job),
    ensures
        final(s)@.path == old(s)@.path,
        final(s)@.root_inode == Some(metadata.inode),
        final(s)@.entries.contains_key(metadata.inode),
        final(s)@.entries[metadata.inode].ino() == metadata.inode,
        final(s)@.entries[metadata.inode].parent() is None,
        (final(s)@.entries[metadata.inode] is Dir) == metadata.is_dir,
        metadata.matches_ignore ==> final(s)@.entries[metadata.inode].is_ignored(),
        job is Some <==> metadata.is_dir,
        job matches Some(job) ==> {
            &&& job.ino == metadata.inode
            &&& job.path.bytes@ == old(s)@.path
            &&& job.relative_path.bytes@ == final(s)@.entries[metadata.inode].name()
            &&& job.dir_entry@ == final(s)@.entries[metadata.inode]
            &&& job.ignore
        },
{
    law_scan_starts_at_the_root(old(s)@, opened@, metadata);
    law_root_is_listed_first(old(s)@, opened@, metadata);
}

/// The events of a new batch are those that it was given, in order.
pub proof fn law_batch_starts_in_order(s: Snapshot, paths: Vec<UnixPath>, batch: EventBatch)
    requires
        call_ensures(EventBatch::new, (s, paths), batch),
    ensures
        batch@.snapshot == s@,
        batch@.paths.to_multiset() == path_views(paths@).to_multiset(),
        forall|i: int|
            #![trigger batch@.paths[i]]
            0 <= i < batch@.paths.len() - 1 ==> path_ordered(batch@.paths[i], batch@.paths[i + 1]),
        batch@.possible_removed_inodes.len() == 0,
        batch@.jobs.len() == 0,
{
    law_sorted_paths_stand_in_order(batch@.paths);
}

/// The next event is the first that is left: one to look up where its path lies in the tree, with
/// the components of the tree's path before those of the rest, one to pass over where it does not.
pub proof fn law_events_come_in_order(batch: &mut EventBatch, next: NextEvent)
    requires
        call_ensures(EventBatch::next_event, (batch,), next),
    ensures
        final(batch)@.snapshot == old(batch)@.snapshot,
        final(batch)@.possible_removed_inodes == old(batch)@.possible_removed_inodes,
        final(batch)@.jobs == old(batch)@.jobs,
        next is Done <==> old(batch)@.paths.len() == 0,
        old(batch)@.paths.len() > 0 ==> old(batch)@.paths == seq![old(batch)@.paths[0]]
            + final(batch)@.paths,
        match next {
            NextEvent::Inspect { path, relative_path } => {
                &&& path@ == old(batch)@.paths[0]
                &&& components(path@) == components(old(batch)@.snapshot.path) + components(
                    relative_path@,
                )
            },
            NextEvent::Unexpected { path } => {
                &&& path@ == old(batch)@.paths[0]
                &&& forall|names: Seq<Seq<u8>>|
                    components(path@) != #[trigger] (components(old(batch)@.snapshot.path) + names)
            },
            NextEvent::Done => final(batch)@.paths == old(batch)@.paths,
        },
{
    let base = old(batch)@.snapshot.path;
    let a = components(base);
    match next {
        NextEvent::Inspect { path, relative_path } => {
            law_containment_goes_by_components(path@, base);
            law_strip_prefix_drops_components(path@, base);
            assert(components(path@) =~= a + components(path@).skip(a.len() as int));
        },
        NextEvent::Unexpected { path } => {
            law_containment_goes_by_components(path@, base);
            assert forall|names: Seq<Seq<u8>>| components(path@) != #[trigger] (a + names) by {
                if components(path@) == a + names {
                    assert forall|i: int| 0 <= i < a.len() implies #[trigger] components(path@)[i]
                        == a[i] by {
                        assert((a + names)[i] == a[i]);
                    }
                }
            }
        },
        NextEvent::Done => {},
    }
    if old(batch)@.paths.len() > 0 {
        assert(seq![old(batch)@.paths[0]] + old(batch)@.paths.drop_first() =~= old(batch)@.paths);
    }
}

/// An event that could not be looked up changes nothing. One whose path is gone has what the
/// snapshot had there without a parent and noted. One that found something unknown has it put in as
/// it was found, and a directory listed at the event's path; one that found something known gives
/// it the parent and the name that were found, and leaves whether a directory is ignored.
pub proof fn law_event_is_applied(
    batch: &mut EventBatch,
    path: UnixPath,
    relative_path: UnixPath,
    found: Result<Option<Entry>, WorktreeError>,
)
    requires
        keyed_by_inode(old(batch)@.snapshot.entries),
        call_ensures(EventBatch::apply, (batch, path, relative_path, found), ()),
    ensures
        ({
            let m = old(batch)@.snapshot.entries;
            let now = final(batch)@.snapshot.entries;
            let gone = known_at(old(batch)@.snapshot, relative_path@);
            match found {
                Err(_) => final(batch)@ == old(batch)@,
                Ok(None) => match gone {
                    Some(g) => {
                        &&& now.dom() == m.dom()
                        &&& now[g].parent() is None
                        &&& agree_but_for_parent(m[g], now[g])
                        &&& final(batch)@.possible_removed_inodes.contains(g)
                        &&& final(batch)@.jobs == old(batch)@.jobs
                        &&& final(batch)@.paths == old(batch)@.paths
                    },
                    None => final(batch)@ == old(batch)@,
                },
                Ok(Some(entry)) => {
                    &&& now.dom() == m.dom().insert(entry@.ino())
                    &&& !m.contains_key(entry@.ino()) ==> now[entry@.ino()] == entry@
                    &&& !m.contains_key(entry@.ino()) && entry@ is Dir ==> {
                        let job = final(batch)@.jobs.last();
                        &&& final(batch)@.jobs.len() == old(batch)@.jobs.len() + 1
                        &&& job.ino == entry@.ino()
                        &&& job.path == path@
                        &&& job.relative_path == relative_path@
                        &&& job.dir_entry == entry@
                        &&& job.ignore
                    }
                    &&& m.contains_key(entry@.ino()) || entry@ is File
                        ==> final(batch)@.jobs == old(batch)@.jobs
                    &&& m.contains_key(entry@.ino()) && is_news(
                        old(batch)@.snapshot,
                        relative_path@,
                        entry@,
                    ) ==> {
                        &&& now[entry@.ino()].parent() == entry@.parent()
                        &&& now[entry@.ino()].name() == entry@.name()
                        &&& (now[entry@.ino()] is Dir) == (m[entry@.ino()] is Dir)
                        &&& m[entry@.ino()] is Dir ==> now[entry@.ino()].is_ignored()
                            == m[entry@.ino()].is_ignored()
                        &&& m[entry@.ino()] is File && entry@ is File
                            ==> now[entry@.ino()].is_ignored() == entry@.is_ignored()
                    }
                },
            }
        }),
{
    let before = old(batch)@;
    let m = before.snapshot.entries;
    let gone = known_at(before.snapshot, relative_path@);
    match found {
        Err(error) => {},
        Ok(None) => {
            if let Some(g) = gone {
                assert(m.contains_key(g));
                law_vanished_entry_is_detached(before, path@, relative_path@, g);
                let noted = before.possible_removed_inodes;
                assert(noted.push(g)[noted.len() as int] == g);
            }
        },
        Ok(Some(entry)) => {
            if m.contains_key(entry@.ino()) {
                law_known_entry_needs_no_listing(before, path@, relative_path@, entry@);
                assert(m.dom() =~= m.dom().insert(entry@.ino()));
                if is_news(before.snapshot, relative_path@, entry@) {
                    law_known_entry_takes_over_little(before, path@, relative_path@, entry@);
                }
            } else {
                law_unknown_entry_is_put_in(before, path@, relative_path@, entry@);
            }
        },
    }
}

/// A worktree that polls has what the scanner found, and has another poll put on its way where the
/// scanner scans and none is.
pub proof fn law_poll_brings_the_latest(w: &mut Worktree, latest: Snapshot, schedule: bool)
    requires
        call_ensures(Worktree::poll_entries, (w, latest), schedule),
    ensures
        final(w)@.snapshot == latest@,
        final(w)@.scan_state == old(w)@.scan_state,
        schedule <==> old(w)@.scan_state is Scanning && !old(w)@.poll_scheduled,
        final(w)@.poll_scheduled <==> old(w)@.poll_scheduled || schedule,
{
    law_worktree_takes_note(old(w)@, old(w)@.scan_state, latest@);
}

/// A worktree that is told how far the scanner is knows it, and polls.
pub proof fn law_state_is_observed(w: &mut Worktree, state: ScanState, latest: Snapshot, schedule: bool)
    requires
        call_ensures(Worktree::observe_scan_state, (w, state, latest), schedule),
    ensures
        final(w)@.snapshot == latest@,
        final(w)@.scan_state == state,
        schedule <==> state is Scanning && !old(w)@.poll_scheduled,
        final(w)@.poll_scheduled <==> old(w)@.poll_scheduled || schedule,
{
    law_worktree_takes_note(old(w)@, state, latest@);
    law_worktree_takes_note(old(w)@.told(state), state, latest@);
}

/// A poll that was on its way is repeated for as long as the scanner scans.
pub proof fn law_due_poll_is_repeated(w: &mut Worktree, latest: Snapshot, schedule: bool)
    requires
        call_ensures(Worktree::poll_when_due, (w, latest), schedule),
    ensures
        final(w)@.snapshot == latest@,
        final(w)@.scan_state == old(w)@.scan_state,
        schedule <==> old(w)@.scan_state is Scanning,
        final(w)@.poll_scheduled <==> schedule,
{
    law_worktree_takes_note(old(w)@, old(w)@.scan_state, latest@);
    law_worktree_takes_note(old(w)@.due(), old(w)@.scan_state, latest@);
}

/// A batch that ends hands over the snapshot, the inodes that may have left the tree, and the
/// directories that are to be listed, in their order.
pub proof fn law_finished_batch_hands_over(batch: EventBatch, parts: (Snapshot, Vec<u64>, Vec<ScanJob>))
    requires
        call_ensures(EventBatch::finish, (batch,), parts),
    ensures
        parts.0@ == batch@.snapshot,
        parts.1@ == batch@.possible_removed_inodes,
        parts.2@.len() == batch@.jobs.len(),
        forall|i: int|
            0 <= i < parts.2@.len() ==> {
                let job = #[trigger] parts.2@[i];
                &&& job.ino == batch@.jobs[i].ino
                &&& job.path.bytes@ == batch@.jobs[i].path
                &&& job.relative_path.bytes@ == batch@.jobs[i].relative_path
                &&& job.dir_entry@ == batch@.jobs[i].dir_entry
                &&& job.ignore == batch@.jobs[i].ignore
            },
{
    let seen = job_views(parts.2@);
    assert(seen.len() == parts.2@.len());
    assert forall|i: int| 0 <= i < parts.2@.len() implies {
        let job = #[trigger] parts.2@[i];
        &&& job.ino == batch@.jobs[i].ino
        &&& job.path.bytes@ == batch@.jobs[i].path
        &&& job.relative_path.bytes@ == batch@.jobs[i].relative_path
        &&& job.dir_entry@ == batch@.jobs[i].dir_entry
        &&& job.ignore == batch@.jobs[i].ignore
    } by {
        assert(seen[i] == parts.2@[i]@);
    }
}

/// A new worktree is at its path, holds nothing, and neither scans nor polls.
pub proof fn law_new_worktree_holds_nothing(id: usize, path: UnixPath, w: Worktree, inode: u64)
    requires
        call_ensures(Worktree::new, (id, path), w),
    ensures
        w@.snapshot.id == id,
        w@.snapshot.path == path.bytes@,
        w@.snapshot.root_inode is None,
        !w@.snapshot.entries.contains_key(inode),
        w@.scan_state is Idle,
        !w@.poll_scheduled,
{
}

} // verus!
