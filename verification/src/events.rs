//! How a batch of file system events changes a snapshot.
use vstd::prelude::*;
use crate::entry::{Entry, EntryView};
use crate::error::WorktreeError;
use crate::path::{path_ordered, path_starts_with, relative_to, UnixPath};
use crate::path_laws::{law_path_order_is_total, law_path_order_is_transitive};
use crate::scan::{job_views, ScanJob, ScanJobView};
use crate::snapshot::{added, can_reparent, refreshed, reparented, Snapshot, SnapshotView};

verus! {

/// What a list of paths stands for.
pub open spec fn path_views(paths: Seq<UnixPath>) -> Seq<Seq<u8>> {
    Seq::new(paths.len(), |i: int| paths[i]@)
}

/// Whether `paths` is sorted.
pub open spec fn sorted_paths(paths: Seq<Seq<u8>>) -> bool {
    forall|i: int, j: int|
        #![trigger paths[i], paths[j]]
        0 <= i < j < paths.len() ==> path_ordered(paths[i], paths[j])
}

/// Sorts `paths`.
pub fn sort_paths(paths: Vec<UnixPath>) -> (sorted: Vec<UnixPath>)
    ensures
        sorted_paths(path_views(sorted@)),
        path_views(sorted@).to_multiset() == path_views(paths@).to_multiset(),
{
    let ghost all = path_views(paths@);
    let ghost list = paths@;
    let mut sorted: Vec<UnixPath> = Vec::new();
    assert(path_views(sorted@) =~= all.take(0));
    for path in iter: paths
        invariant
            iter.seq() == list,
            all == path_views(list),
            sorted_paths(path_views(sorted@)),
            path_views(sorted@).to_multiset() == all.take(iter.index()).to_multiset(),
    {
        let ghost i = iter.index();
        let ghost prior = path_views(sorted@);
        let ghost added = path@;
        let mut low: usize = 0;
        let mut high: usize = sorted.len();
        while low < high
            invariant
                prior == path_views(sorted@),
                added == path@,
                low <= high <= sorted@.len(),
                sorted_paths(prior),
                forall|k: int| 0 <= k < low ==> path_ordered(#[trigger] prior[k], added),
                forall|k: int| high <= k < prior.len() ==> path_ordered(added, #[trigger] prior[k]),
            decreases high - low,
        {
            let middle: usize = low + (high - low) / 2;
            assert(sorted@[middle as int]@ == prior[middle as int]);
            if sorted[middle].ordered_before(&path) {
                assert forall|k: int| 0 <= k < middle + 1 implies path_ordered(
                    #[trigger] prior[k],
                    added,
                ) by {
                    if k < middle {
                        law_path_order_is_transitive(prior[k], prior[middle as int], added);
                    }
                }
                low = middle + 1;
            } else {
                proof {
                    law_path_order_is_total(prior[middle as int], added);
                }
                assert forall|k: int| middle <= k < prior.len() implies path_ordered(
                    added,
                    #[trigger] prior[k],
                ) by {
                    if k > middle {
                        law_path_order_is_transitive(added, prior[middle as int], prior[k]);
                    }
                }
                high = middle;
            }
        }
        sorted.insert(low, path);
        proof {
            let now = path_views(sorted@);
            assert(now =~= prior.insert(low as int, added));
            vstd::seq_lib::to_multiset_insert(prior, low as int, added);
            vstd::seq_lib::to_multiset_build(all.take(i), added);
            assert(all.take(i + 1) =~= all.take(i).push(added));
            assert forall|a: int, b: int|
                #![trigger now[a], now[b]]
                0 <= a < b < now.len() implies path_ordered(now[a], now[b]) by {
                let low = low as int;
                if b < low {
                    assert(now[a] == prior[a] && now[b] == prior[b]);
                } else if b == low {
                    assert(now[a] == prior[a]);
                } else if a < low {
                    assert(now[a] == prior[a] && now[b] == prior[b - 1]);
                } else if a == low {
                    assert(now[b] == prior[b - 1]);
                } else {
                    assert(now[a] == prior[a - 1] && now[b] == prior[b - 1]);
                }
            }
        }
    }
    assert(all.take(all.len() as int) =~= all);
    sorted
}

/// `paths` without those at its beginning that lie at or below `path`.
pub open spec fn behind(paths: Seq<Seq<u8>>, path: Seq<u8>) -> Seq<Seq<u8>>
    decreases paths.len(),
{
    if paths.len() > 0 && path_starts_with(paths[0], path) {
        behind(paths.drop_first(), path)
    } else {
        paths
    }
}

/// `inodes`, extended by `inode` where it does not hold it yet.
pub open spec fn recorded(inodes: Seq<u64>, inode: u64) -> Seq<u64> {
    if inodes.contains(inode) {
        inodes
    } else {
        inodes.push(inode)
    }
}

/// A batch of events on its way through a snapshot: the paths that are still to be looked at, in
/// order, the inodes that may have left the tree, and the directories that are to be listed.
pub struct EventBatch {
    snapshot: Snapshot,
    /// The paths that are still to be looked at, the next one last.
    paths: Vec<UnixPath>,
    possible_removed_inodes: Vec<u64>,
    jobs: Vec<ScanJob>,
}

pub struct EventBatchView {
    pub snapshot: SnapshotView,
    pub paths: Seq<Seq<u8>>,
    pub possible_removed_inodes: Seq<u64>,
    pub jobs: Seq<ScanJobView>,
}

impl View for EventBatch {
    type V = EventBatchView;

    closed spec fn view(&self) -> EventBatchView {
        EventBatchView {
            snapshot: self.snapshot@,
            paths: path_views(self.paths@).reverse(),
            possible_removed_inodes: self.possible_removed_inodes@,
            jobs: job_views(self.jobs@),
        }
    }
}

/// The job that lists a directory found at `path`.
pub open spec fn new_job(path: Seq<u8>, relative_path: Seq<u8>, entry: EntryView) -> ScanJobView {
    ScanJobView { ino: entry.ino(), path, relative_path, dir_entry: entry, ignore: true }
}

/// What the file system was found to hold at a path.
pub open spec fn found_view(found: Result<Option<Entry>, WorktreeError>) -> Result<
    Option<EntryView>,
    WorktreeError,
> {
    match found {
        Ok(Some(entry)) => Ok(Some(entry@)),
        Ok(None) => Ok(None),
        Err(error) => Err(error),
    }
}

impl EventBatchView {
    pub open spec fn with_entries(self, entries: Map<u64, EntryView>) -> EventBatchView {
        EventBatchView {
            snapshot: self.snapshot.with_entries(entries),
            paths: self.paths,
            possible_removed_inodes: self.possible_removed_inodes,
            jobs: self.jobs,
        }
    }

    /// With `entry` detached from its parent, and noted as one that may have left the tree.
    pub open spec fn detached(self, entry: EntryView) -> EventBatchView {
        EventBatchView {
            snapshot: self.snapshot.with_entries(
                reparented(self.snapshot.entries, entry.ino(), entry.parent(), None),
            ),
            paths: self.paths,
            possible_removed_inodes: recorded(self.possible_removed_inodes, entry.ino()),
            jobs: self.jobs,
        }
    }

    /// With `entry`, which the snapshot does not know, put in below its parent. A directory is to be
    /// listed, which covers the events at and below it.
    pub open spec fn admitted(
        self,
        path: Seq<u8>,
        relative_path: Seq<u8>,
        entry: EntryView,
    ) -> EventBatchView {
        EventBatchView {
            snapshot: self.snapshot.with_entries(added(self.snapshot.entries, entry)),
            paths: behind(self.paths, path),
            possible_removed_inodes: self.possible_removed_inodes,
            jobs: if entry is Dir {
                self.jobs.push(new_job(path, relative_path, entry))
            } else {
                self.jobs
            },
        }
    }

    /// Whether the snapshot already has `entry` at `relative_path`, below the same parent.
    pub open spec fn is_current(self, relative_path: Seq<u8>, entry: EntryView) -> bool {
        self.snapshot.entry_at(relative_path) matches Some(known) && known.ino() == entry.ino()
            && known.parent() == entry.parent()
    }

    /// With what the snapshot has at `relative_path` detached.
    pub open spec fn cleared(self, relative_path: Seq<u8>) -> EventBatchView {
        match self.snapshot.entry_at(relative_path) {
            Some(known) => self.detached(known),
            None => self,
        }
    }

    /// With `entry` moved to the parent and the name that it has on the file system, or put in.
    pub open spec fn settled(
        self,
        path: Seq<u8>,
        relative_path: Seq<u8>,
        entry: EntryView,
    ) -> EventBatchView {
        if self.snapshot.entries.contains_key(entry.ino()) {
            self.with_entries(
                refreshed(
                    reparented(
                        self.snapshot.entries,
                        entry.ino(),
                        self.snapshot.entries[entry.ino()].parent(),
                        entry.parent(),
                    ),
                    entry,
                ),
            )
        } else {
            self.admitted(path, relative_path, entry)
        }
    }

    /// After the event at `path`, where the file system was found to hold `found`.
    pub open spec fn applied(
        self,
        path: Seq<u8>,
        relative_path: Seq<u8>,
        found: Result<Option<EntryView>, WorktreeError>,
    ) -> EventBatchView {
        match found {
            Ok(Some(entry)) => if self.is_current(relative_path, entry) {
                self
            } else {
                self.cleared(relative_path).settled(path, relative_path, entry)
            },
            Ok(None) => self.cleared(relative_path),
            Err(_) => self,
        }
    }

    /// Whether what the snapshot has at `relative_path` can be detached.
    pub open spec fn can_clear(self, relative_path: Seq<u8>) -> bool {
        self.snapshot.entry_at(relative_path) matches Some(known) ==> can_reparent(
            self.snapshot.entries,
            known.ino(),
            known.parent(),
            None,
        )
    }

    /// Whether `entry` can be moved to the parent that it has on the file system.
    pub open spec fn can_settle(self, entry: EntryView) -> bool {
        let entries = self.snapshot.entries;
        entries.contains_key(entry.ino()) ==> can_reparent(
            entries,
            entry.ino(),
            entries[entry.ino()].parent(),
            entry.parent(),
        )
    }

    /// Whether the event can be applied: every parent that it takes an entry from or gives one to
    /// is a directory, where the snapshot knows it.
    pub open spec fn can_apply(
        self,
        relative_path: Seq<u8>,
        found: Result<Option<EntryView>, WorktreeError>,
    ) -> bool {
        match found {
            Ok(Some(entry)) => self.is_current(relative_path, entry) || (self.can_clear(
                relative_path,
            ) && self.cleared(relative_path).can_settle(entry)),
            Ok(None) => self.can_clear(relative_path),
            Err(_) => true,
        }
    }
}

/// What is to be done next with a batch.
pub enum NextEvent {
    /// Look up `path` on the file system.
    Inspect { path: UnixPath, relative_path: UnixPath },
    /// Pass over `path`, which does not lie in the tree.
    Unexpected { path: UnixPath },
    /// Nothing.
    Done,
}

impl EventBatch {
    /// Starts on the events at `paths`.
    pub fn new(snapshot: Snapshot, paths: Vec<UnixPath>) -> (batch: Self)
        ensures
            batch@.snapshot == snapshot@,
            sorted_paths(batch@.paths),
            batch@.paths.to_multiset() == path_views(paths@).to_multiset(),
            batch@.possible_removed_inodes == Seq::<u64>::empty(),
            batch@.jobs == Seq::<ScanJobView>::empty(),
    {
        let mut sorted = sort_paths(paths);
        let ghost ascending = path_views(sorted@);
        let mut stack: Vec<UnixPath> = Vec::new();
        while sorted.len() > 0
            invariant
                stack@.len() + sorted@.len() == ascending.len(),
                forall|i: int| 0 <= i < sorted@.len() ==> (#[trigger] sorted@[i])@ == ascending[i],
                forall|i: int|
                    0 <= i < stack@.len() ==> (#[trigger] stack@[i])@ == ascending[ascending.len() - 1
                        - i],
            decreases sorted@.len(),
        {
            if let Some(path) = sorted.pop() {
                stack.push(path);
            }
        }
        let batch = EventBatch {
            snapshot,
            paths: stack,
            possible_removed_inodes: Vec::new(),
            jobs: Vec::new(),
        };
        assert(batch@.paths =~= ascending);
        assert(batch@.jobs =~= Seq::empty());
        batch
    }

    /// The snapshot as it is by now.
    pub fn snapshot(&self) -> (snapshot: &Snapshot)
        ensures
            snapshot@ == self@.snapshot,
    {
        &self.snapshot
    }

    /// Ends the batch: gives the snapshot, the inodes that may have left the tree, and the
    /// directories that are to be listed.
    pub fn finish(self) -> (parts: (Snapshot, Vec<u64>, Vec<ScanJob>))
        ensures
            parts.0@ == self@.snapshot,
            parts.1@ == self@.possible_removed_inodes,
            job_views(parts.2@) == self@.jobs,
    {
        (self.snapshot, self.possible_removed_inodes, self.jobs)
    }

    /// Takes the next path from the batch.
    pub fn next_event(&mut self) -> (next: NextEvent)
        ensures
            match next {
                NextEvent::Inspect { path, relative_path } => old(self)@.paths.len() > 0 && path@
                    == old(self)@.paths[0] && relative_to(path@, old(self)@.snapshot.path) == Some(
                    relative_path@,
                ),
                NextEvent::Unexpected { path } => old(self)@.paths.len() > 0 && path@ == old(
                    self,
                )@.paths[0] && relative_to(path@, old(self)@.snapshot.path) is None,
                NextEvent::Done => old(self)@.paths.len() == 0,
            },
            final(self)@ == (EventBatchView {
                snapshot: old(self)@.snapshot,
                paths: if old(self)@.paths.len() > 0 {
                    old(self)@.paths.drop_first()
                } else {
                    old(self)@.paths
                },
                possible_removed_inodes: old(self)@.possible_removed_inodes,
                jobs: old(self)@.jobs,
            }),
    {
        let ghost before = self@.paths;
        let taken = self.paths.pop();
        match taken {
            Some(path) => {
                assert(self@.paths =~= before.drop_first());
                match path.strip_prefix(&self.snapshot.path) {
                    Some(relative_path) => NextEvent::Inspect { path, relative_path },
                    None => NextEvent::Unexpected { path },
                }
            },
            None => NextEvent::Done,
        }
    }

    /// Detaches what the snapshot has at `relative_path`.
    fn clear(&mut self, relative_path: &UnixPath)
        requires
            old(self)@.can_clear(relative_path@),
        ensures
            final(self)@ == old(self)@.cleared(relative_path@),
    {
        let known: Option<(u64, Option<u64>)> = match self.snapshot.entry_for_path(relative_path) {
            Some(entry) => Some((entry.ino(), entry.parent())),
            None => None,
        };
        if let Some((inode, parent)) = known {
            self.snapshot.reparent_entry(inode, parent, None);
            let mut i: usize = 0;
            let ghost noted = self.possible_removed_inodes@;
            while i < self.possible_removed_inodes.len()
                invariant
                    noted == self.possible_removed_inodes@,
                    i <= noted.len(),
                    forall|k: int| 0 <= k < i ==> noted[k] != inode,
                    self@ == old(self)@.with_entries(
                        reparented(old(self)@.snapshot.entries, inode, parent, None),
                    ),
                    old(self)@.snapshot.entry_at(relative_path@) matches Some(known)
                        && known.ino() == inode && known.parent() == parent,
                decreases noted.len() - i,
            {
                if self.possible_removed_inodes[i] == inode {
                    assert(noted.contains(inode));
                    return;
                }
                i = i + 1;
            }
            self.possible_removed_inodes.push(inode);
        }
    }

    /// Whether the event can be applied: every parent that it takes an entry from or gives one to
    /// is a directory, where the snapshot knows it.
    pub fn can_apply(
        &self,
        relative_path: &UnixPath,
        found: &Result<Option<Entry>, WorktreeError>,
    ) -> (can: bool)
        ensures
            can == self@.can_apply(relative_path@, found_view(*found)),
    {
        let known: Option<(u64, Option<u64>)> = match self.snapshot.entry_for_path(relative_path) {
            Some(entry) => Some((entry.ino(), entry.parent())),
            None => None,
        };
        match found {
            Ok(Some(entry)) => {
                let inode: u64 = entry.ino();
                let parent: Option<u64> = entry.parent();
                let mut current_parent: Option<u64> = match self.snapshot.entries.get(inode) {
                    Some(own) => own.parent(),
                    None => {
                        return match known {
                            Some((known_inode, known_parent)) => self.snapshot.can_reparent(
                                known_inode,
                                known_parent,
                                None,
                            ),
                            None => true,
                        };
                    },
                };
                if let Some((known_inode, known_parent)) = known {
                    if known_inode == inode && known_parent == parent {
                        return true;
                    }
                    if !self.snapshot.can_reparent(known_inode, known_parent, None) {
                        return false;
                    }
                    if known_inode == inode {
                        current_parent = None;
                    }
                }
                self.snapshot.can_reparent(inode, current_parent, parent)
            },
            Ok(None) => match known {
                Some((inode, parent)) => self.snapshot.can_reparent(inode, parent, None),
                None => true,
            },
            Err(_) => true,
        }
    }

    /// Applies the event at `path`, where the file system was found to hold `found`.
    pub fn apply(
        &mut self,
        path: UnixPath,
        relative_path: UnixPath,
        found: Result<Option<Entry>, WorktreeError>,
    )
        requires
            old(self)@.can_apply(relative_path@, found_view(found)),
        ensures
            final(self)@ == old(self)@.applied(path@, relative_path@, found_view(found)),
    {
        match found {
            // The path exists on the file system: see to it that the snapshot is up to date.
            Ok(Some(fs_entry)) => {
                let fs_inode: u64 = fs_entry.ino();
                let fs_parent_inode: Option<u64> = fs_entry.parent();
                if let Some(entry) = self.snapshot.entry_for_path(&relative_path) {
                    if entry.ino() == fs_inode && entry.parent() == fs_parent_inode {
                        return;
                    }
                }
                self.clear(&relative_path);
                let ghost cleared = self@;
                let own_parent: Option<Option<u64>> = match self.snapshot.entries.get(fs_inode) {
                    Some(entry) => Some(entry.parent()),
                    None => None,
                };
                match own_parent {
                    // The snapshot knows the inode: move it to where it is now.
                    Some(parent) => {
                        self.snapshot.reparent_entry(fs_inode, parent, fs_parent_inode);
                        self.snapshot.refresh_entry(&fs_entry);
                        assert(self@ == cleared.settled(path@, relative_path@, fs_entry@));
                    },
                    // The snapshot does not know the inode: put it in. Have a directory listed, and
                    // pass over the events that the listing covers.
                    None => {
                        self.discard_contained(&path);
                        let ghost covered = self@;
                        if !fs_entry.is_file() {
                            let dir_entry = fs_entry.clone();
                            self.jobs.push(
                                ScanJob {
                                    ino: fs_inode,
                                    path,
                                    relative_path,
                                    dir_entry,
                                    ignore: true,
                                },
                            );
                            assert(self@.jobs =~= covered.jobs.push(self.jobs@.last()@));
                        }
                        self.snapshot.add_entry(fs_entry);
                    },
                }
            },
            // The path is gone: detach what the snapshot has there.
            Ok(None) => {
                self.clear(&relative_path);
            },
            Err(_) => {},
        }
    }

    /// Passes over the events at and below `path` that come next.
    fn discard_contained(&mut self, path: &UnixPath)
        ensures
            final(self)@ == (EventBatchView {
                snapshot: old(self)@.snapshot,
                paths: behind(old(self)@.paths, path@),
                possible_removed_inodes: old(self)@.possible_removed_inodes,
                jobs: old(self)@.jobs,
            }),
    {
        loop
            invariant
                self@.snapshot == old(self)@.snapshot,
                self@.possible_removed_inodes == old(self)@.possible_removed_inodes,
                self@.jobs == old(self)@.jobs,
                behind(self@.paths, path@) == behind(old(self)@.paths, path@),
            decreases self.paths@.len(),
        {
            let len: usize = self.paths.len();
            if len == 0 {
                return;
            }
            assert(self@.paths[0] == self.paths@[len - 1]@);
            if !self.paths[len - 1].starts_with(path) {
                return;
            }
            let ghost before = self@.paths;
            let _ = self.paths.pop();
            assert(self@.paths =~= before.drop_first());
        }
    }
}

} // verus!
