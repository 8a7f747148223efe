//! The worktree that the rest of an editor talks to.
use vstd::prelude::*;
use vstd::string::StringExecFns;
use crate::entry_tree::{file_inodes, rising};
use crate::error::WorktreeError;
use crate::path::{path_starts_with, pushed, UnixPath};
use crate::render::{can_write_out, tree_text};
use crate::snapshot::{has_lineage, path_to, Snapshot, SnapshotView};

verus! {

/// How far the background scanner is.
#[derive(Debug)]
pub enum ScanState {
    Idle,
    Scanning,
    Failed(String),
}

/// The most that a buffer for writing a file holds.
pub const MAX_BUFFER_SIZE: usize = 10240;

/// A tree of files, as it was when the background scanner was last asked.
pub struct Worktree {
    pub snapshot: Snapshot,
    pub scan_state: ScanState,
    pub poll_scheduled: bool,
}

pub struct WorktreeView {
    pub snapshot: SnapshotView,
    pub scan_state: ScanState,
    pub poll_scheduled: bool,
}

impl View for Worktree {
    type V = WorktreeView;

    open spec fn view(&self) -> WorktreeView {
        WorktreeView {
            snapshot: self.snapshot@,
            scan_state: self.scan_state,
            poll_scheduled: self.poll_scheduled,
        }
    }
}

impl WorktreeView {
    /// Whether the scanner is at work.
    pub open spec fn scanning(self) -> bool {
        self.scan_state is Scanning
    }

    /// After the scanner told how far it is.
    pub open spec fn told(self, scan_state: ScanState) -> WorktreeView {
        WorktreeView { snapshot: self.snapshot, scan_state, poll_scheduled: self.poll_scheduled }
    }

    /// After the time of a scheduled poll has come.
    pub open spec fn due(self) -> WorktreeView {
        WorktreeView {
            snapshot: self.snapshot,
            scan_state: self.scan_state,
            poll_scheduled: false,
        }
    }

    /// After the scanner was asked and answered `latest`. While it is scanning, another poll is
    /// on its way.
    pub open spec fn polled(self, latest: SnapshotView) -> WorktreeView {
        WorktreeView {
            snapshot: latest,
            scan_state: self.scan_state,
            poll_scheduled: self.poll_scheduled || self.scanning(),
        }
    }

    /// Whether a poll has to be put on its way.
    pub open spec fn needs_poll(self) -> bool {
        self.scanning() && !self.poll_scheduled
    }

    /// Whether `inode` has no entry, or one whose parents lead to an entry without a parent.
    pub open spec fn has_path(self, inode: u64) -> bool {
        self.snapshot.entries.contains_key(inode) ==> has_lineage(self.snapshot.entries, inode)
    }
}

/// Where and how a file is to be written.
pub struct SavePlan {
    pub path: UnixPath,
    pub buffer_size: usize,
}

impl Worktree {
    /// The worktree at `path`, before anything of it has been scanned.
    pub fn new(id: usize, path: UnixPath) -> (tree: Self)
        ensures
            tree@ == (WorktreeView {
                snapshot: SnapshotView {
                    id,
                    path: path@,
                    root_inode: None,
                    entries: Map::empty(),
                },
                scan_state: ScanState::Idle,
                poll_scheduled: false,
            }),
    {
        Worktree {
            snapshot: Snapshot::new(id, path),
            scan_state: ScanState::Idle,
            poll_scheduled: false,
        }
    }

    /// Takes note of how far the scanner is, and of what it has found so far. Tells whether a poll
    /// has to be put on its way.
    pub fn observe_scan_state(&mut self, scan_state: ScanState, latest: Snapshot) -> (schedule: bool)
        ensures
            final(self)@ == old(self)@.told(scan_state).polled(latest@),
            schedule == old(self)@.told(scan_state).needs_poll(),
    {
        self.scan_state = scan_state;
        self.poll_entries(latest)
    }

    /// Takes note of what the scanner has found so far. Tells whether a poll has to be put on its
    /// way.
    pub fn poll_entries(&mut self, latest: Snapshot) -> (schedule: bool)
        ensures
            final(self)@ == old(self)@.polled(latest@),
            schedule == old(self)@.needs_poll(),
    {
        self.snapshot = latest;
        if self.is_scanning() && !self.poll_scheduled {
            self.poll_scheduled = true;
            true
        } else {
            false
        }
    }

    /// Polls once more, when the time of a scheduled poll has come.
    pub fn poll_when_due(&mut self, latest: Snapshot) -> (schedule: bool)
        ensures
            final(self)@ == old(self)@.due().polled(latest@),
            schedule == old(self)@.scanning(),
    {
        self.poll_scheduled = false;
        self.poll_entries(latest)
    }

    pub fn is_scanning(&self) -> (scanning: bool)
        ensures
            scanning == self@.scanning(),
    {
        match self.scan_state {
            ScanState::Scanning => true,
            _ => false,
        }
    }

    /// A copy of the snapshot.
    pub fn snapshot(&self) -> (snapshot: Snapshot)
        ensures
            snapshot@ == self@.snapshot,
    {
        self.snapshot.clone()
    }

    /// Whether `path` lies in the tree.
    pub fn contains_path(&self, path: &UnixPath) -> (contains: bool)
        ensures
            contains == path_starts_with(path@, self@.snapshot.path),
    {
        path.starts_with(&self.snapshot.path)
    }

    pub fn has_inode(&self, inode: u64) -> (has: bool)
        ensures
            has == self@.snapshot.entries.contains_key(inode),
    {
        self.snapshot.entries.get(inode).is_some()
    }

    /// How many files there are.
    pub fn file_count(&self) -> (count: usize)
        ensures
            count == file_inodes(self@.snapshot.entries).len(),
    {
        self.snapshot.entries.summary().file_count
    }

    /// The inodes of the files, in rising order.
    pub fn files(&self) -> (files: Vec<u64>)
        ensures
            rising(files@),
            files@.to_set() == file_inodes(self@.snapshot.entries),
    {
        self.snapshot.entries.files()
    }

    /// Whether the path of `ino` can be told: it has no entry, or one whose parents lead to an
    /// entry without a parent.
    pub fn has_path(&self, ino: u64) -> (has: bool)
        ensures
            has == self@.has_path(ino),
    {
        !self.has_inode(ino) || self.snapshot.is_rooted(ino)
    }

    /// The path of `ino` on the file system.
    pub fn abs_path_for_inode(&self, ino: u64) -> (path: Result<UnixPath, WorktreeError>)
        requires
            self@.has_path(ino),
        ensures
            match path {
                Ok(path) => self@.snapshot.entries.contains_key(ino) && path@ == pushed(
                    self@.snapshot.path,
                    path_to(self@.snapshot.entries, ino, false),
                ),
                Err(error) => !self@.snapshot.entries.contains_key(ino) && error
                    == WorktreeError::NotInWorktree,
            },
    {
        match self.path_for_inode(ino, false) {
            Ok(relative) => Ok(self.snapshot.path.join(&relative.bytes)),
            Err(error) => Err(error),
        }
    }

    /// The path of `ino` in the tree, with or without the name of the root.
    pub fn path_for_inode(&self, ino: u64, include_root: bool) -> (path: Result<
        UnixPath,
        WorktreeError,
    >)
        requires
            self@.has_path(ino),
        ensures
            match path {
                Ok(path) => self@.snapshot.entries.contains_key(ino) && path@ == path_to(
                    self@.snapshot.entries,
                    ino,
                    include_root,
                ),
                Err(error) => !self@.snapshot.entries.contains_key(ino) && error
                    == WorktreeError::NotInWorktree,
            },
    {
        if self.has_inode(ino) {
            Ok(self.snapshot.path_to_inode(ino, include_root))
        } else {
            Err(WorktreeError::NotInWorktree)
        }
    }

    /// Where `ino` is to be written, and through how large a buffer, where its text has
    /// `content_size` bytes.
    pub fn save(&self, ino: u64, content_size: usize) -> (plan: Result<SavePlan, WorktreeError>)
        requires
            self@.has_path(ino),
        ensures
            match plan {
                Ok(plan) => self@.snapshot.entries.contains_key(ino) && plan.path@ == pushed(
                    self@.snapshot.path,
                    path_to(self@.snapshot.entries, ino, false),
                ) && plan.buffer_size == (if content_size < MAX_BUFFER_SIZE {
                    content_size
                } else {
                    MAX_BUFFER_SIZE
                }),
                Err(error) => !self@.snapshot.entries.contains_key(ino) && error
                    == WorktreeError::NotInWorktree,
            },
    {
        let buffer_size: usize = if content_size < MAX_BUFFER_SIZE {
            content_size
        } else {
            MAX_BUFFER_SIZE
        };
        match self.abs_path_for_inode(ino) {
            Ok(path) => Ok(SavePlan { path, buffer_size }),
            Err(error) => Err(error),
        }
    }

    /// The lines for `ino` and all that lies below it.
    pub fn fmt_entry(&self, ino: u64, indent: usize) -> (text: String)
        requires
            can_write_out(self@.snapshot.entries, ino),
        ensures
            text@ == tree_text(self@.snapshot.entries, ino, indent as nat),
    {
        self.snapshot.write_out(ino, indent)
    }

    /// Whether the tree can be written out.
    pub fn can_fmt(&self) -> (can: bool)
        ensures
            can == (self@.snapshot.root_inode matches Some(root) ==> can_write_out(
                self@.snapshot.entries,
                root,
            )),
    {
        match self.snapshot.root_inode {
            Some(root) => self.snapshot.can_write_out(root),
            None => true,
        }
    }

    /// The tree as text, a line for each entry.
    pub fn fmt(&self) -> (text: String)
        requires
            self@.snapshot.root_inode matches Some(root) ==> can_write_out(
                self@.snapshot.entries,
                root,
            ),
        ensures
            text@ == (match self@.snapshot.root_inode {
                Some(root) => tree_text(self@.snapshot.entries, root, 0),
                None => "Empty tree\n"@,
            }),
    {
        match self.snapshot.root_inode {
            Some(root) => self.fmt_entry(root, 0),
            None => {
                let mut text = String::new();
                text.append("Empty tree\n");
                assert(text@ =~= "Empty tree\n"@);
                text
            },
        }
    }
}

/// A file of a worktree.
#[derive(Debug, Clone, Copy)]
pub struct FileHandle {
    pub worktree_id: usize,
    pub inode: u64,
}

impl FileHandle {
    /// The path of the file in its worktree.
    pub fn path(&self, worktree: &Worktree) -> (path: UnixPath)
        requires
            has_lineage(worktree@.snapshot.entries, self.inode),
        ensures
            path@ == path_to(worktree@.snapshot.entries, self.inode, false),
    {
        worktree.snapshot.path_to_inode(self.inode, false)
    }

    /// Where the file is to be written, and through how large a buffer.
    pub fn save(&self, worktree: &Worktree, content_size: usize) -> (plan: Result<
        SavePlan,
        WorktreeError,
    >)
        requires
            worktree@.has_path(self.inode),
        ensures
            match plan {
                Ok(plan) => worktree@.snapshot.entries.contains_key(self.inode) && plan.path@
                    == pushed(
                    worktree@.snapshot.path,
                    path_to(worktree@.snapshot.entries, self.inode, false),
                ) && plan.buffer_size == (if content_size < MAX_BUFFER_SIZE {
                    content_size
                } else {
                    MAX_BUFFER_SIZE
                }),
                Err(error) => !worktree@.snapshot.entries.contains_key(self.inode) && error
                    == WorktreeError::NotInWorktree,
            },
    {
        worktree.save(self.inode, content_size)
    }

    /// What tells the file from all others: its worktree and its inode.
    pub fn entry_id(&self) -> (id: (usize, u64))
        ensures
            id == (self.worktree_id, self.inode),
    {
        (self.worktree_id, self.inode)
    }
}

/// What hands out files.
pub trait WorktreeHandle {
    /// The worktree's id.
    spec fn worktree_id(&self) -> usize;

    /// Whether the worktree holds `inode`.
    spec fn holds(&self, inode: u64) -> bool;

    /// The file with the inode `entry_id`.
    fn file(&self, entry_id: u64) -> (file: Result<FileHandle, WorktreeError>)
        ensures
            match file {
                Ok(file) => self.holds(entry_id) && file == (FileHandle {
                    worktree_id: self.worktree_id(),
                    inode: entry_id,
                }),
                Err(error) => !self.holds(entry_id) && error == WorktreeError::NotInTree,
            },
    ;
}

impl WorktreeHandle for Worktree {
    open spec fn worktree_id(&self) -> usize {
        self@.snapshot.id
    }

    open spec fn holds(&self, inode: u64) -> bool {
        self@.snapshot.entries.contains_key(inode)
    }

    fn file(&self, entry_id: u64) -> (file: Result<FileHandle, WorktreeError>) {
        if self.has_inode(entry_id) {
            Ok(FileHandle { worktree_id: self.snapshot.id, inode: entry_id })
        } else {
            Err(WorktreeError::NotInTree)
        }
    }
}

} // verus!
