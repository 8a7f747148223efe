//! What is made of a directory listing, and of what the file system says of one path.
use vstd::prelude::*;
use crate::entry::{Entry, EntryView, PathEntry, PathEntryView};
use crate::entry_tree::entry_views;
use crate::error::WorktreeError;
use crate::path::{
    components, copy_bytes, last_name, path_starts_with, pushed, relative_to, same_bytes, UnixPath,
    SEPARATOR,
};
use crate::snapshot::{Snapshot, SnapshotView};

verus! {

/// What the file system says of a file or directory, and whether an ignore rule matches it.
#[derive(Debug, Clone, Copy)]
pub struct FsMetadata {
    pub inode: u64,
    pub is_dir: bool,
    pub is_symlink: bool,
    pub matches_ignore: bool,
}

/// One line of a directory listing.
#[derive(Debug)]
pub struct DirRecord {
    pub name: Vec<u8>,
    pub metadata: FsMetadata,
}

pub struct DirRecordView {
    pub name: Seq<u8>,
    pub metadata: FsMetadata,
}

impl View for DirRecord {
    type V = DirRecordView;

    open spec fn view(&self) -> DirRecordView {
        DirRecordView { name: self.name@, metadata: self.metadata }
    }
}

/// What a directory listing stands for.
pub open spec fn record_views(listing: Seq<DirRecord>) -> Seq<DirRecordView> {
    Seq::new(listing.len(), |i: int| listing[i]@)
}

/// A directory to be listed. Where `ignore` is not set, the directory is ignored and so is
/// everything below it.
#[derive(Debug)]
pub struct ScanJob {
    pub ino: u64,
    pub path: UnixPath,
    pub relative_path: UnixPath,
    pub dir_entry: Entry,
    pub ignore: bool,
}

pub struct ScanJobView {
    pub ino: u64,
    pub path: Seq<u8>,
    pub relative_path: Seq<u8>,
    pub dir_entry: EntryView,
    pub ignore: bool,
}

impl View for ScanJob {
    type V = ScanJobView;

    open spec fn view(&self) -> ScanJobView {
        ScanJobView {
            ino: self.ino,
            path: self.path@,
            relative_path: self.relative_path@,
            dir_entry: self.dir_entry@,
            ignore: self.ignore,
        }
    }
}

/// What a list of jobs stands for.
pub open spec fn job_views(jobs: Seq<ScanJob>) -> Seq<ScanJobView> {
    Seq::new(jobs.len(), |i: int| jobs[i]@)
}

/// The name `.git`.
pub open spec fn git_name() -> Seq<u8> {
    seq![46u8, 103u8, 105u8, 116u8]
}

fn is_git_name(name: &Vec<u8>) -> (git: bool)
    ensures
        git == (name@ == git_name()),
{
    let git: Vec<u8> = vec![46u8, 103u8, 105u8, 116u8];
    assert(git@ =~= git_name());
    same_bytes(name, &git)
}

/// Whether a line of the listing that `job` asked for is ignored.
pub open spec fn child_is_ignored(job: ScanJobView, record: DirRecordView) -> bool {
    ||| !job.ignore
    ||| record.metadata.matches_ignore
    ||| record.metadata.is_dir && record.name == git_name()
}

/// The entry that a line of the listing gives rise to.
pub open spec fn child_entry(job: ScanJobView, record: DirRecordView) -> EntryView {
    if record.metadata.is_dir {
        EntryView::Dir {
            parent: Some(job.ino),
            name: record.name,
            inode: record.metadata.inode,
            is_symlink: record.metadata.is_symlink,
            is_ignored: child_is_ignored(job, record),
            children: Seq::empty(),
            pending: true,
        }
    } else {
        EntryView::File {
            parent: Some(job.ino),
            name: record.name,
            path: PathEntryView {
                ino: record.metadata.inode,
                path: pushed(job.relative_path, record.name),
                is_ignored: child_is_ignored(job, record),
            },
            inode: record.metadata.inode,
            is_symlink: record.metadata.is_symlink,
            is_ignored: child_is_ignored(job, record),
        }
    }
}

/// The job that a line of the listing gives rise to, where it is a directory.
pub open spec fn child_job(job: ScanJobView, record: DirRecordView) -> ScanJobView {
    ScanJobView {
        ino: record.metadata.inode,
        path: pushed(job.path, record.name),
        relative_path: pushed(job.relative_path, record.name),
        dir_entry: child_entry(job, record),
        ignore: !child_is_ignored(job, record),
    }
}

/// The inodes in a listing.
pub open spec fn listed_inodes(listing: Seq<DirRecordView>) -> Seq<u64> {
    Seq::new(listing.len(), |i: int| listing[i].metadata.inode)
}

/// The entries that a listing gives rise to: one for each line, and at last that of the directory
/// itself.
pub open spec fn scanned_entries(job: ScanJobView, listing: Seq<DirRecordView>) -> Seq<EntryView> {
    Seq::new(listing.len(), |i: int| child_entry(job, listing[i])).push(
        job.dir_entry.listed(listed_inodes(listing)),
    )
}

/// The jobs that a listing gives rise to: one for each directory in it.
pub open spec fn scanned_jobs(job: ScanJobView, listing: Seq<DirRecordView>) -> Seq<ScanJobView>
    decreases listing.len(),
{
    if listing.len() == 0 {
        Seq::empty()
    } else {
        let before = scanned_jobs(job, listing.drop_last());
        if listing.last().metadata.is_dir {
            before.push(child_job(job, listing.last()))
        } else {
            before
        }
    }
}

/// What comes of listing one directory: the entries to be put into the snapshot, the directories
/// to be listed next, and the inodes that were met.
pub struct DirScan {
    pub entries: Vec<Entry>,
    pub jobs: Vec<ScanJob>,
    pub children: Vec<u64>,
}

/// Makes entries and jobs of the listing of a directory.
pub fn scan_dir(job: ScanJob, listing: &Vec<DirRecord>) -> (scan: DirScan)
    requires
        job.dir_entry@ is Dir,
    ensures
        entry_views(scan.entries@) == scanned_entries(job@, record_views(listing@)),
        job_views(scan.jobs@) == scanned_jobs(job@, record_views(listing@)),
        scan.children@ == listed_inodes(record_views(listing@)),
{
    let ghost view = job@;
    let ghost records = record_views(listing@);
    let mut entries: Vec<Entry> = Vec::new();
    let mut jobs: Vec<ScanJob> = Vec::new();
    let mut children: Vec<u64> = Vec::new();
    let mut listed: Vec<u64> = Vec::new();
    let mut i: usize = 0;
    assert(job_views(jobs@) =~= scanned_jobs(view, records.take(0)));
    while i < listing.len()
        invariant
            view == job@,
            records == record_views(listing@),
            i <= listing@.len(),
            entries@.len() == i,
            forall|k: int|
                0 <= k < entries@.len() ==> (#[trigger] entries@[k])@ == child_entry(
                    view,
                    records[k],
                ),
            job_views(jobs@) == scanned_jobs(view, records.take(i as int)),
            children@ == listed_inodes(records.take(i as int)),
            listed@ == children@,
        decreases listing@.len() - i,
    {
        let ghost record = records[i as int];
        let ghost prior_jobs = jobs@;
        let name = copy_bytes(&listing[i].name);
        let metadata = listing[i].metadata;
        let inode: u64 = metadata.inode;
        let relative_path = job.relative_path.join(&name);
        proof {
            assert(records.take(i + 1).drop_last() =~= records.take(i as int));
            assert(records.take(i + 1).last() == record);
        }
        children.push(inode);
        listed.push(inode);
        assert(children@ =~= listed_inodes(records.take(i + 1)));
        if metadata.is_dir {
            let mut is_ignored = true;
            let mut ignore = false;
            if job.ignore {
                is_ignored = metadata.matches_ignore || is_git_name(&name);
                if !is_ignored {
                    ignore = true;
                }
            }
            let path = job.path.join(&name);
            let dir_entry = Entry::Dir {
                parent: Some(job.ino),
                name,
                inode,
                is_symlink: metadata.is_symlink,
                is_ignored,
                children: Vec::new(),
                pending: true,
            };
            assert(dir_entry@ == child_entry(view, record));
            entries.push(dir_entry.clone());
            jobs.push(ScanJob { ino: inode, path, relative_path, dir_entry, ignore });
            assert(job_views(jobs@) =~= job_views(prior_jobs).push(child_job(view, record)));
        } else {
            let is_ignored = !job.ignore || metadata.matches_ignore;
            let entry = Entry::File {
                parent: Some(job.ino),
                name,
                path: PathEntry::new(inode, &relative_path, is_ignored),
                inode,
                is_symlink: metadata.is_symlink,
                is_ignored,
            };
            assert(entry@ == child_entry(view, record));
            entries.push(entry);
        }
        i = i + 1;
    }
    assert(records.take(records.len() as int) =~= records);
    let mut dir_entry = job.dir_entry;
    if let Entry::Dir { children, pending, .. } = &mut dir_entry {
        *children = listed;
        *pending = false;
    }
    assert(dir_entry@ == view.dir_entry.listed(listed_inodes(records)));
    entries.push(dir_entry);
    assert(entry_views(entries@) =~= scanned_entries(view, records));
    DirScan { entries, jobs, children }
}

/// The name of the tree at `path`: the last one in it, or `/` where there is none.
pub open spec fn tree_name(path: Seq<u8>) -> Seq<u8> {
    match last_name(path) {
        Some(name) => name,
        None => seq![SEPARATOR],
    }
}

/// The entry of the root of the tree at `path`, which was opened at `opened`. It bears the last name
/// of the one; the other decides whether it is a `.git` directory.
pub open spec fn root_entry_of(
    path: Seq<u8>,
    opened: Seq<u8>,
    metadata: FsMetadata,
) -> EntryView {
    if metadata.is_dir {
        EntryView::Dir {
            parent: None,
            name: tree_name(opened),
            inode: metadata.inode,
            is_symlink: metadata.is_symlink,
            is_ignored: metadata.matches_ignore || tree_name(path) == git_name(),
            children: Seq::empty(),
            pending: true,
        }
    } else {
        EntryView::File {
            parent: None,
            name: tree_name(opened),
            path: PathEntryView {
                ino: metadata.inode,
                path: tree_name(opened),
                is_ignored: metadata.matches_ignore,
            },
            inode: metadata.inode,
            is_symlink: metadata.is_symlink,
            is_ignored: metadata.matches_ignore,
        }
    }
}

/// The job that lists the root of the tree at `path`, which was opened at `opened`.
pub open spec fn root_job_of(
    path: Seq<u8>,
    opened: Seq<u8>,
    metadata: FsMetadata,
) -> ScanJobView {
    ScanJobView {
        ino: metadata.inode,
        path,
        relative_path: tree_name(opened),
        dir_entry: root_entry_of(path, opened, metadata),
        ignore: true,
    }
}

/// The snapshot once the entry of the root has been put in: it bears the last name of the path that
/// the tree was opened at.
pub open spec fn started(s: SnapshotView, opened: Seq<u8>, metadata: FsMetadata) -> SnapshotView {
    SnapshotView {
        id: s.id,
        path: s.path,
        root_inode: Some(metadata.inode),
        entries: s.entries.insert(metadata.inode, root_entry_of(s.path, opened, metadata)),
    }
}

fn name_of_tree(path: &UnixPath) -> (name: Vec<u8>)
    ensures
        name@ == tree_name(path@),
{
    match path.file_name() {
        Some(name) => name,
        None => {
            let name: Vec<u8> = vec![SEPARATOR];
            assert(name@ =~= seq![SEPARATOR]);
            name
        },
    }
}

impl Snapshot {
    /// Starts a scan at the root: puts in the entry of the root, and gives the job that lists it
    /// where it is a directory. The root bears the name that the tree was opened by, which need not
    /// be the last one in the snapshot's path.
    pub fn scan_root(&mut self, opened: &UnixPath, metadata: FsMetadata) -> (job: Option<ScanJob>)
        ensures
            final(self)@ == started(old(self)@, opened@, metadata),
            match job {
                Some(job) => metadata.is_dir && job@ == root_job_of(
                    old(self)@.path,
                    opened@,
                    metadata,
                ),
                None => !metadata.is_dir,
            },
    {
        let ghost path = self.path@;
        let name = name_of_tree(opened);
        let relative_path = UnixPath::new(copy_bytes(&name));
        let inode: u64 = metadata.inode;
        let job: Option<ScanJob>;
        if metadata.is_dir {
            let is_ignored = metadata.matches_ignore || is_git_name(&name_of_tree(&self.path));
            let dir_entry = Entry::Dir {
                parent: None,
                name,
                inode,
                is_symlink: metadata.is_symlink,
                is_ignored,
                children: Vec::new(),
                pending: true,
            };
            assert(dir_entry@ == root_entry_of(path, opened@, metadata));
            self.entries.insert(dir_entry.clone());
            job = Some(
                ScanJob {
                    ino: inode,
                    path: self.path.clone(),
                    relative_path,
                    dir_entry,
                    ignore: true,
                },
            );
        } else {
            let is_ignored = metadata.matches_ignore;
            let entry = Entry::File {
                parent: None,
                name,
                path: PathEntry::new(inode, &relative_path, is_ignored),
                inode,
                is_symlink: metadata.is_symlink,
                is_ignored,
            };
            assert(entry@ == root_entry_of(path, opened@, metadata));
            self.entries.insert(entry);
            job = None;
        }
        self.root_inode = Some(inode);
        job
    }
}

/// What the file system says of a path.
#[derive(Debug, Clone, Copy)]
pub enum FsLookup {
    /// Something lies there, in a directory with the given inode.
    Found { metadata: FsMetadata, parent_inode: Option<u64> },
    /// Nothing lies there.
    NotFound,
    /// It could not be told.
    Failed,
}

/// The entry for what the file system found at `path`.
pub open spec fn found_entry(
    root_path: Seq<u8>,
    path: Seq<u8>,
    metadata: FsMetadata,
    parent_inode: Option<u64>,
) -> EntryView {
    let parent = if components(path) == components(root_path) {
        None
    } else {
        parent_inode
    };
    if metadata.is_dir {
        EntryView::Dir {
            parent,
            name: tree_name(path),
            inode: metadata.inode,
            is_symlink: metadata.is_symlink,
            is_ignored: metadata.matches_ignore,
            children: Seq::empty(),
            pending: true,
        }
    } else {
        EntryView::File {
            parent,
            name: tree_name(path),
            path: PathEntryView {
                ino: metadata.inode,
                path: relative_to(path, root_path)->0,
                is_ignored: metadata.matches_ignore,
            },
            inode: metadata.inode,
            is_symlink: metadata.is_symlink,
            is_ignored: metadata.matches_ignore,
        }
    }
}

/// The entry for what lies at `path`, if anything does.
pub fn fs_entry_for_path(root_path: &UnixPath, path: &UnixPath, lookup: FsLookup) -> (found: Result<
    Option<Entry>,
    WorktreeError,
>)
    requires
        lookup matches FsLookup::Found { metadata, .. } ==> !metadata.is_dir ==> path_starts_with(
            path@,
            root_path@,
        ),
    ensures
        match found {
            Ok(Some(entry)) => lookup matches FsLookup::Found { metadata, parent_inode } && entry@
                == found_entry(root_path@, path@, metadata, parent_inode),
            Ok(None) => lookup is NotFound,
            Err(error) => lookup is Failed && error == WorktreeError::Unreadable,
        },
{
    match lookup {
        FsLookup::Found { metadata, parent_inode } => {
            let inode: u64 = metadata.inode;
            let name = name_of_tree(path);
            let is_ignored = metadata.matches_ignore;
            let parent: Option<u64> = if path.same_as(root_path) {
                None
            } else {
                parent_inode
            };
            if metadata.is_dir {
                let entry = Entry::Dir {
                    parent,
                    name,
                    inode,
                    is_symlink: metadata.is_symlink,
                    is_ignored,
                    children: Vec::new(),
                    pending: true,
                };
                assert(entry@ == found_entry(root_path@, path@, metadata, parent_inode));
                Ok(Some(entry))
            } else {
                let relative_path = match path.strip_prefix(root_path) {
                    Some(relative_path) => relative_path,
                    None => UnixPath::new(Vec::new()),
                };
                let entry = Entry::File {
                    parent,
                    name,
                    path: PathEntry::new(inode, &relative_path, is_ignored),
                    inode,
                    is_symlink: metadata.is_symlink,
                    is_ignored,
                };
                assert(entry@ == found_entry(root_path@, path@, metadata, parent_inode));
                Ok(Some(entry))
            }
        },
        FsLookup::NotFound => Ok(None),
        FsLookup::Failed => Err(WorktreeError::Unreadable),
    }
}

} // verus!
