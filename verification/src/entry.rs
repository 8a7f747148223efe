//! What a snapshot knows of one file or directory.
use vstd::prelude::*;
use crate::path::{copy_bytes, UnixPath};

verus! {

/// What path matching knows of a file.
#[derive(Debug)]
pub struct PathEntry {
    pub ino: u64,
    pub path: UnixPath,
    pub is_ignored: bool,
}

pub struct PathEntryView {
    pub ino: u64,
    pub path: Seq<u8>,
    pub is_ignored: bool,
}

impl View for PathEntry {
    type V = PathEntryView;

    open spec fn view(&self) -> PathEntryView {
        PathEntryView { ino: self.ino, path: self.path@, is_ignored: self.is_ignored }
    }
}

impl Clone for PathEntry {
    fn clone(&self) -> (copy: Self)
        ensures
            copy@ == self@,
    {
        PathEntry { ino: self.ino, path: self.path.clone(), is_ignored: self.is_ignored }
    }
}

impl PathEntry {
    pub fn new(ino: u64, path: &UnixPath, is_ignored: bool) -> (entry: Self)
        ensures
            entry@ == (PathEntryView { ino, path: path@, is_ignored }),
    {
        PathEntry { ino, path: path.clone(), is_ignored }
    }
}

/// A directory or a file of the tree. A directory is pending until it has been listed.
#[derive(Debug)]
pub enum Entry {
    Dir {
        parent: Option<u64>,
        name: Vec<u8>,
        inode: u64,
        is_symlink: bool,
        is_ignored: bool,
        children: Vec<u64>,
        pending: bool,
    },
    File {
        parent: Option<u64>,
        name: Vec<u8>,
        path: PathEntry,
        inode: u64,
        is_symlink: bool,
        is_ignored: bool,
    },
}

pub enum EntryView {
    Dir {
        parent: Option<u64>,
        name: Seq<u8>,
        inode: u64,
        is_symlink: bool,
        is_ignored: bool,
        children: Seq<u64>,
        pending: bool,
    },
    File {
        parent: Option<u64>,
        name: Seq<u8>,
        path: PathEntryView,
        inode: u64,
        is_symlink: bool,
        is_ignored: bool,
    },
}

impl EntryView {
    pub open spec fn ino(self) -> u64 {
        match self {
            EntryView::Dir { inode, .. } => inode,
            EntryView::File { inode, .. } => inode,
        }
    }

    pub open spec fn parent(self) -> Option<u64> {
        match self {
            EntryView::Dir { parent, .. } => parent,
            EntryView::File { parent, .. } => parent,
        }
    }

    pub open spec fn name(self) -> Seq<u8> {
        match self {
            EntryView::Dir { name, .. } => name,
            EntryView::File { name, .. } => name,
        }
    }

    pub open spec fn is_ignored(self) -> bool {
        match self {
            EntryView::Dir { is_ignored, .. } => is_ignored,
            EntryView::File { is_ignored, .. } => is_ignored,
        }
    }

    /// The inodes of what the directory holds; a file holds nothing.
    pub open spec fn children(self) -> Seq<u64> {
        match self {
            EntryView::Dir { children, .. } => children,
            EntryView::File { .. } => Seq::empty(),
        }
    }

    /// The same entry below another parent.
    pub open spec fn with_parent(self, new_parent: Option<u64>) -> EntryView {
        match self {
            EntryView::Dir { name, inode, is_symlink, is_ignored, children, pending, .. } =>
                EntryView::Dir {
                    parent: new_parent,
                    name,
                    inode,
                    is_symlink,
                    is_ignored,
                    children,
                    pending,
                },
            EntryView::File { name, path, inode, is_symlink, is_ignored, .. } => EntryView::File {
                parent: new_parent,
                name,
                path,
                inode,
                is_symlink,
                is_ignored,
            },
        }
    }

    /// The same entry with the name that `found` has, and a file with the path that `found` has and
    /// with whether it is ignored.
    pub open spec fn refreshed(self, found: EntryView) -> EntryView {
        match self {
            EntryView::Dir { parent, inode, is_symlink, is_ignored, children, pending, .. } =>
                EntryView::Dir {
                    parent,
                    name: found.name(),
                    inode,
                    is_symlink,
                    is_ignored,
                    children,
                    pending,
                },
            EntryView::File { parent, path, inode, is_symlink, is_ignored, .. } => match found {
                EntryView::File { path, is_ignored, .. } => EntryView::File {
                    parent,
                    name: found.name(),
                    path,
                    inode,
                    is_symlink,
                    is_ignored,
                },
                EntryView::Dir { .. } => EntryView::File {
                    parent,
                    name: found.name(),
                    path,
                    inode,
                    is_symlink,
                    is_ignored,
                },
            },
        }
    }

    /// The same directory with other children; a file stays as it is.
    pub open spec fn with_children(self, new_children: Seq<u64>) -> EntryView {
        match self {
            EntryView::Dir { parent, name, inode, is_symlink, is_ignored, pending, .. } =>
                EntryView::Dir {
                    parent,
                    name,
                    inode,
                    is_symlink,
                    is_ignored,
                    children: new_children,
                    pending,
                },
            EntryView::File { .. } => self,
        }
    }

    /// The same directory once it has been listed; a file stays as it is.
    pub open spec fn listed(self, new_children: Seq<u64>) -> EntryView {
        match self {
            EntryView::Dir { parent, name, inode, is_symlink, is_ignored, .. } => EntryView::Dir {
                parent,
                name,
                inode,
                is_symlink,
                is_ignored,
                children: new_children,
                pending: false,
            },
            EntryView::File { .. } => self,
        }
    }

    pub open spec fn summary(self) -> EntrySummary {
        EntrySummary {
            max_ino: self.ino(),
            file_count: if self is File {
                1
            } else {
                0
            },
        }
    }
}

impl View for Entry {
    type V = EntryView;

    open spec fn view(&self) -> EntryView {
        match *self {
            Entry::Dir { parent, name, inode, is_symlink, is_ignored, children, pending } =>
                EntryView::Dir {
                    parent,
                    name: name@,
                    inode,
                    is_symlink,
                    is_ignored,
                    children: children@,
                    pending,
                },
            Entry::File { parent, name, path, inode, is_symlink, is_ignored } => EntryView::File {
                parent,
                name: name@,
                path: path@,
                inode,
                is_symlink,
                is_ignored,
            },
        }
    }
}

/// A copy of a list of inodes.
pub fn copy_inodes(inodes: &Vec<u64>) -> (copy: Vec<u64>)
    ensures
        copy@ == inodes@,
{
    let copy = inodes.clone();
    assert(copy@ =~= inodes@);
    copy
}

impl Clone for Entry {
    fn clone(&self) -> (copy: Self)
        ensures
            copy@ == self@,
    {
        match self {
            Entry::Dir { parent, name, inode, is_symlink, is_ignored, children, pending } =>
                Entry::Dir {
                    parent: *parent,
                    name: copy_bytes(name),
                    inode: *inode,
                    is_symlink: *is_symlink,
                    is_ignored: *is_ignored,
                    children: copy_inodes(children),
                    pending: *pending,
                },
            Entry::File { parent, name, path, inode, is_symlink, is_ignored } => Entry::File {
                parent: *parent,
                name: copy_bytes(name),
                path: path.clone(),
                inode: *inode,
                is_symlink: *is_symlink,
                is_ignored: *is_ignored,
            },
        }
    }
}

impl Entry {
    pub fn ino(&self) -> (ino: u64)
        ensures
            ino == self@.ino(),
    {
        match self {
            Entry::Dir { inode, .. } => *inode,
            Entry::File { inode, .. } => *inode,
        }
    }

    pub fn parent(&self) -> (parent: Option<u64>)
        ensures
            parent == self@.parent(),
    {
        match self {
            Entry::Dir { parent, .. } => *parent,
            Entry::File { parent, .. } => *parent,
        }
    }

    pub fn set_parent(&mut self, new_parent: Option<u64>)
        ensures
            final(self)@ == old(self)@.with_parent(new_parent),
    {
        match self {
            Entry::Dir { parent, .. } => *parent = new_parent,
            Entry::File { parent, .. } => *parent = new_parent,
        }
    }

    /// Takes over the name that `found` has, and for a file its path and whether it is ignored.
    pub fn refresh(&mut self, found: &Entry)
        ensures
            final(self)@ == old(self)@.refreshed(found@),
    {
        match self {
            Entry::Dir { name, .. } => {
                *name = copy_bytes(found.name());
            },
            Entry::File { name, path, is_ignored, .. } => {
                *name = copy_bytes(found.name());
                if let Entry::File { path: found_path, is_ignored: found_ignored, .. } = found {
                    *path = found_path.clone();
                    *is_ignored = *found_ignored;
                }
            },
        }
    }

    pub fn name(&self) -> (name: &Vec<u8>)
        ensures
            name@ == self@.name(),
    {
        match self {
            Entry::Dir { name, .. } => name,
            Entry::File { name, .. } => name,
        }
    }

    pub fn is_file(&self) -> (file: bool)
        ensures
            file == (self@ is File),
    {
        match self {
            Entry::Dir { .. } => false,
            Entry::File { .. } => true,
        }
    }

    /// What the entry adds to the summary of a tree.
    pub fn summary(&self) -> (summary: EntrySummary)
        ensures
            summary == self@.summary(),
    {
        EntrySummary {
            max_ino: self.ino(),
            file_count: if self.is_file() {
                1
            } else {
                0
            },
        }
    }

    /// What the entry is found by.
    pub fn key(&self) -> (key: u64)
        ensures
            key == self@.ino(),
    {
        self.ino()
    }
}

/// What is known of a run of entries in the order of their inodes: the last inode, and how many
/// files there are.
#[derive(Debug, Clone, Copy)]
pub struct EntrySummary {
    pub max_ino: u64,
    pub file_count: usize,
}

impl Default for EntrySummary {
    fn default() -> (summary: Self)
        ensures
            summary == (EntrySummary { max_ino: 0, file_count: 0 }),
    {
        EntrySummary { max_ino: 0, file_count: 0 }
    }
}

impl EntrySummary {
    /// Extends the run by the one that `rhs` summarises.
    pub fn add_assign(&mut self, rhs: &EntrySummary)
        requires
            old(self).file_count + rhs.file_count <= usize::MAX,
        ensures
            *final(self) == (EntrySummary {
                max_ino: rhs.max_ino,
                file_count: (old(self).file_count + rhs.file_count) as usize,
            }),
    {
        self.max_ino = rhs.max_ino;
        self.file_count = self.file_count + rhs.file_count;
    }
}

/// A measure that grows along a run of entries.
pub trait Dimension: Sized {
    /// Whether the measure can still grow by `summary`.
    spec fn can_add(self, summary: EntrySummary) -> bool;

    /// The measure behind the entries that `summary` stands for.
    spec fn after(self, summary: EntrySummary) -> Self;

    fn add_summary(&mut self, summary: &EntrySummary)
        requires
            old(self).can_add(*summary),
        ensures
            *final(self) == old(self).after(*summary),
    ;
}

/// The last inode passed.
impl Dimension for u64 {
    open spec fn can_add(self, summary: EntrySummary) -> bool {
        true
    }

    open spec fn after(self, summary: EntrySummary) -> u64 {
        summary.max_ino
    }

    fn add_summary(&mut self, summary: &EntrySummary) {
        *self = summary.max_ino;
    }
}

/// The number of files passed.
#[derive(Debug, Clone, Copy, PartialEq, Eq, PartialOrd, Ord)]
pub struct FileCount(pub usize);

impl Default for FileCount {
    fn default() -> (count: Self)
        ensures
            count == FileCount(0),
    {
        FileCount(0)
    }
}

impl Dimension for FileCount {
    open spec fn can_add(self, summary: EntrySummary) -> bool {
        self.0 + summary.file_count <= usize::MAX
    }

    open spec fn after(self, summary: EntrySummary) -> FileCount {
        FileCount((self.0 + summary.file_count) as usize)
    }

    fn add_summary(&mut self, summary: &EntrySummary) {
        self.0 = self.0 + summary.file_count;
    }
}

} // verus!
