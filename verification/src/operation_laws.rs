//! What the operations of the library give back, told by what goes into them.
use vstd::prelude::*;
use crate::entry::Entry;
use crate::entry_tree::{entry_views, law_files_are_as_many_as_counted};
use crate::error::WorktreeError;
use crate::events::{found_view, path_views};
use crate::listing_laws::{
    directory_lines, law_directories_are_listed_next, law_files_have_nothing_listed_next,
    law_line_becomes_an_entry, law_listed_inodes_are_those_of_lines,
    law_listing_ends_with_the_directory, law_matched_line_is_ignored,
};
use crate::lookup_laws::law_found_entry_is_what_lies_there;
use crate::path::{components, spelled, UnixPath};
use crate::path_laws::{
    is_plain_name, law_path_of_names, law_strip_prefix_drops_components,
    law_strip_prefix_undone_by_push,
};
use crate::render::name_text;
use crate::scan::{
    fs_entry_for_path, job_views, record_views, scan_dir, scanned_entries, DirRecord, DirRecordView,
    DirScan, FsLookup, ScanJob,
};
use crate::snapshot::{has_lineage, is_lineage, lineage, names_along, Snapshot};
use crate::spelling_laws::law_containment_goes_by_components;
use crate::text_laws::{law_text_has_a_line_for_every_entry, line_ends};
use crate::tree_laws::{is_tree, law_path_leads_to_its_inode};
use crate::worktree::{FileHandle, Worktree, WorktreeHandle};
use crate::worktree_laws::law_tree_can_be_written_out;

verus! {

/// Lists of paths, entries, lines and jobs stand for their members, one by one and in order.
pub proof fn law_lists_stand_for_their_members(
    parts: Seq<Vec<u8>>,
    paths: Seq<UnixPath>,
    entries: Seq<Entry>,
    listing: Seq<DirRecord>,
    jobs: Seq<ScanJob>,
)
    ensures
        spelled(parts).len() == parts.len(),
        forall|i: int| 0 <= i < parts.len() ==> #[trigger] spelled(parts)[i] == parts[i]@,
        path_views(paths).len() == paths.len(),
        forall|i: int| 0 <= i < paths.len() ==> #[trigger] path_views(paths)[i] == paths[i].bytes@,
        entry_views(entries).len() == entries.len(),
        forall|i: int| 0 <= i < entries.len() ==> #[trigger] entry_views(entries)[i] == entries[i]@,
        record_views(listing).len() == listing.len(),
        forall|i: int|
            0 <= i < listing.len() ==> (#[trigger] record_views(listing)[i]).name == listing[i].name@
                && record_views(listing)[i].metadata == listing[i].metadata,
        job_views(jobs).len() == jobs.len(),
        forall|i: int|
            0 <= i < jobs.len() ==> {
                let seen = #[trigger] job_views(jobs)[i];
                &&& seen.ino == jobs[i].ino
                &&& seen.path == jobs[i].path.bytes@
                &&& seen.relative_path == jobs[i].relative_path.bytes@
                &&& seen.dir_entry == jobs[i].dir_entry@
                &&& seen.ignore == jobs[i].ignore
            },
{
}

/// What was found at a path stands for itself: an entry, nothing, or an error.
pub proof fn law_finding_stands_for_itself(found: Result<Option<Entry>, WorktreeError>)
    ensures
        match (found, found_view(found)) {
            (Ok(Some(entry)), Ok(Some(seen))) => seen == entry@,
            (Ok(None), Ok(None)) => true,
            (Err(error), Err(seen)) => seen == error,
            _ => false,
        },
{
}

/// The components of a path, asked for one by one.
pub proof fn law_components_come_in_order(path: UnixPath, parts: Vec<Vec<u8>>)
    requires
        call_ensures(UnixPath::components, (&path,), parts),
    ensures
        parts@.len() == components(path.bytes@).len(),
        forall|i: int|
            0 <= i < parts@.len() ==> (#[trigger] parts@[i])@ == components(path.bytes@)[i],
{
    assert(spelled(parts@).len() == parts@.len());
    assert forall|i: int| 0 <= i < parts@.len() implies (#[trigger] parts@[i])@ == components(
        path.bytes@,
    )[i] by {
        assert(spelled(parts@)[i] == parts@[i]@);
    }
}

/// A path lies at or below another, and has a rest behind it, where the other's components open its
/// own. Joined to the other, the rest has the components of the path.
pub proof fn law_rest_of_a_path_is_joined_back(
    path: UnixPath,
    base: UnixPath,
    below: bool,
    rest: Option<UnixPath>,
    joined: UnixPath,
)
    requires
        call_ensures(UnixPath::starts_with, (&path, &base), below),
        call_ensures(UnixPath::strip_prefix, (&path, &base), rest),
        rest matches Some(rest) ==> call_ensures(UnixPath::join, (&base, &rest.bytes), joined),
    ensures
        below <==> {
            &&& components(base@).len() <= components(path@).len()
            &&& components(path@).take(components(base@).len() as int) == components(base@)
        },
        below <==> rest is Some,
        rest matches Some(rest) ==> {
            &&& components(rest@) == components(path@).skip(components(base@).len() as int)
            &&& components(joined@) == components(path@)
        },
{
    let a = components(base@);
    let b = components(path@);
    law_containment_goes_by_components(path@, base@);
    if a.len() <= b.len() && b.take(a.len() as int) == a {
        assert forall|i: int| 0 <= i < a.len() implies #[trigger] b[i] == a[i] by {
            assert(b.take(a.len() as int)[i] == b[i]);
        }
    }
    if below {
        assert(b.take(a.len() as int) =~= a);
        law_strip_prefix_drops_components(path@, base@);
        law_strip_prefix_undone_by_push(path@, base@);
    }
}

/// What the file system says of a path decides what is made of it: an entry with the inode, the
/// kind and the last name of the path where something lies there, nothing where nothing does, and
/// an error where it could not be told.
pub proof fn law_lookup_is_told_by_the_file_system(
    root_path: UnixPath,
    path: UnixPath,
    lookup: FsLookup,
    found: Result<Option<Entry>, WorktreeError>,
)
    requires
        call_ensures(fs_entry_for_path, (&root_path, &path, lookup), found),
    ensures
        match lookup {
            FsLookup::Found { metadata, parent_inode } => (found matches Ok(Some(entry)) && {
                let parts = components(path@);
                &&& entry@.ino() == metadata.inode
                &&& (entry@ is Dir) == metadata.is_dir
                &&& entry@.is_ignored() == metadata.matches_ignore
                &&& entry@.parent() == if parts == components(root_path@) {
                    None
                } else {
                    parent_inode
                }
                &&& parts.len() > 0 && is_plain_name(parts.last()) && parts.last() != seq![46u8, 46u8]
                    ==> entry@.name() == parts.last()
            }),
            FsLookup::NotFound => found matches Ok(None),
            FsLookup::Failed => found matches Err(WorktreeError::Unreadable),
        },
{
    if let FsLookup::Found { metadata, parent_inode } = lookup {
        law_found_entry_is_what_lies_there(root_path@, path@, metadata, parent_inode);
    }
}

/// A listing gives as many entries as it has lines, and one for the directory; as many inodes as
/// lines, each that of its line; and a job for each line that is a directory.
pub proof fn law_scan_of_a_directory_covers_its_lines(
    job: ScanJob,
    listing: Vec<DirRecord>,
    scan: DirScan,
)
    requires
        job.dir_entry@ is Dir,
        call_ensures(scan_dir, (job, &listing), scan),
    ensures
        scan.entries@.len() == listing@.len() + 1,
        scan.children@.len() == listing@.len(),
        forall|i: int|
            0 <= i < listing@.len() ==> {
                let entry = (#[trigger] scan.entries@[i])@;
                let line = listing@[i];
                &&& scan.children@[i] == line.metadata.inode
                &&& entry.ino() == line.metadata.inode
                &&& entry.name() == line.name@
                &&& entry.parent() == Some(job.ino)
                &&& (entry is Dir) == line.metadata.is_dir
                &&& line.metadata.matches_ignore ==> entry.is_ignored()
            },
        scan.entries@[listing@.len() as int]@.ino() == job.dir_entry@.ino(),
        scan.entries@[listing@.len() as int]@.children() == scan.children@,
        scan.jobs@.len() == listing@.filter(|line: DirRecord| line.metadata.is_dir).len(),
{
    let lines = record_views(listing@);
    let made = scanned_entries(job@, lines);
    assert(entry_views(scan.entries@).len() == scan.entries@.len());
    assert(made.len() == lines.len() + 1);
    assert forall|i: int| 0 <= i < listing@.len() implies {
        let entry = (#[trigger] scan.entries@[i])@;
        let line = listing@[i];
        &&& scan.children@[i] == line.metadata.inode
        &&& entry.ino() == line.metadata.inode
        &&& entry.name() == line.name@
        &&& entry.parent() == Some(job.ino)
        &&& (entry is Dir) == line.metadata.is_dir
        &&& line.metadata.matches_ignore ==> entry.is_ignored()
    } by {
        law_line_becomes_an_entry(job@, lines, i);
        law_listed_inodes_are_those_of_lines(lines, i);
        if lines[i].metadata.matches_ignore {
            law_matched_line_is_ignored(job@, lines, i);
        }
        assert(entry_views(scan.entries@)[i] == scan.entries@[i]@);
        assert(lines[i] == listing@[i]@);
    }
    law_listing_ends_with_the_directory(job@, lines);
    let n = listing@.len() as int;
    assert(entry_views(scan.entries@)[n] == scan.entries@[n]@);
    assert(scan.entries@[n]@.children() =~= scan.children@);
    lemma_directory_lines(listing@);
    if directory_lines(lines).len() > 0 {
        law_directories_are_listed_next(job@, lines, 0);
    } else {
        law_files_have_nothing_listed_next(job@, lines);
        assert forall|i: int| 0 <= i < lines.len() implies !(#[trigger] lines[i]).metadata.is_dir by {
            lemma_directory_line_is_kept(lines, i);
        }
    }
    assert(job_views(scan.jobs@).len() == scan.jobs@.len());
}

proof fn lemma_directory_line_is_kept(lines: Seq<DirRecordView>, i: int)
    requires
        0 <= i < lines.len(),
    ensures
        lines[i].metadata.is_dir ==> directory_lines(lines).len() > 0,
    decreases lines.len(),
{
    reveal(Seq::filter);
    if i < lines.len() - 1 {
        lemma_directory_line_is_kept(lines.drop_last(), i);
    }
}

proof fn lemma_directory_lines(listing: Seq<DirRecord>)
    ensures
        listing.filter(|line: DirRecord| line.metadata.is_dir).len() == directory_lines(
            record_views(listing),
        ).len(),
    decreases listing.len(),
{
    reveal(Seq::filter);
    if listing.len() > 0 {
        lemma_directory_lines(listing.drop_last());
        assert(record_views(listing).drop_last() =~= record_views(listing.drop_last()));
        assert(record_views(listing).last() == listing.last()@);
    }
}

/// The files of a worktree are the entries that are files, each once and in rising order, as many
/// as are counted.
pub proof fn law_files_are_each_listed_once(w: Worktree, files: Vec<u64>, count: usize, inode: u64)
    requires
        call_ensures(Worktree::files, (&w,), files),
        call_ensures(Worktree::file_count, (&w,), count),
    ensures
        files@.contains(inode) <==> w@.snapshot.entries.contains_key(inode)
            && w@.snapshot.entries[inode] is File,
        forall|i: int, j: int| 0 <= i < j < files@.len() ==> files@[i] < files@[j],
        count == files@.len(),
{
    let m = w@.snapshot.entries;
    assert(files@.contains(inode) <==> files@.to_set().contains(inode));
    law_files_are_as_many_as_counted(m, files@);
}

/// A worktree holds a path where the path's components open with those of the tree's path.
pub proof fn law_worktree_holds_what_lies_below(w: Worktree, path: UnixPath, contains: bool)
    requires
        call_ensures(Worktree::contains_path, (&w, &path), contains),
    ensures
        contains <==> {
            &&& components(w@.snapshot.path).len() <= components(path@).len()
            &&& forall|i: int|
                0 <= i < components(w@.snapshot.path).len() ==> #[trigger] components(path@)[i]
                    == components(w@.snapshot.path)[i]
        },
{
    law_containment_goes_by_components(path@, w@.snapshot.path);
}

/// The path of an entry in a tree leads to it, with and without the root's name before it. What is
/// not known has no path.
pub proof fn law_path_of_an_inode_leads_there(
    w: Worktree,
    inode: u64,
    plain: Result<UnixPath, WorktreeError>,
    named: Result<UnixPath, WorktreeError>,
)
    requires
        w@.snapshot.root_inode matches Some(root) && is_tree(w@.snapshot.entries, root),
        call_ensures(Worktree::path_for_inode, (&w, inode, false), plain),
        call_ensures(Worktree::path_for_inode, (&w, inode, true), named),
    ensures
        plain is Ok <==> w@.snapshot.entries.contains_key(inode),
        named is Ok <==> w@.snapshot.entries.contains_key(inode),
        plain matches Ok(plain) ==> w@.snapshot.inode_at(plain@) == Some(inode),
        plain matches Err(error) ==> error == WorktreeError::NotInWorktree,
        named matches Err(error) ==> error == WorktreeError::NotInWorktree,
        plain is Ok && named is Ok ==> {
            let root = w@.snapshot.root_inode->0;
            is_plain_name(w@.snapshot.entries[root].name()) ==> components(named->Ok_0@) == seq![
                w@.snapshot.entries[root].name(),
            ] + components(plain->Ok_0@)
        },
{
    let m = w@.snapshot.entries;
    let root = w@.snapshot.root_inode->0;
    if m.contains_key(inode) {
        law_path_leads_to_its_inode(w@.snapshot, inode);
        if is_plain_name(m[root].name()) {
            assert(has_lineage(m, inode));
            let line = lineage(m, inode);
            assert(is_lineage(m, line));
            let names = names_along(m, line);
            assert forall|i: int| 0 <= i < names.len() implies is_plain_name(
                #[trigger] names[i],
            ) by {
                assert(m.contains_key(line[i]));
                if i > 0 {
                    assert(m[line[i]].parent() == Some(line[i - 1]));
                }
            }
            law_path_of_names(names);
            let lower = names.skip(1);
            assert forall|i: int| 0 <= i < lower.len() implies is_plain_name(
                #[trigger] lower[i],
            ) by {
                assert(lower[i] == names[i + 1]);
            }
            law_path_of_names(lower);
            assert(names =~= seq![m[root].name()] + lower);
        }
    }
}

/// A tree that has no root yet is written as `Empty tree`, any other from its root on.
pub proof fn law_tree_is_written_from_its_root(w: Worktree, text: String, from_root: String)
    requires
        call_ensures(Worktree::fmt, (&w,), text),
        w@.snapshot.root_inode matches Some(root) ==> call_ensures(
            Worktree::fmt_entry,
            (&w, root, 0),
            from_root,
        ),
    ensures
        w@.snapshot.root_inode is Some ==> text@ == from_root@,
        w@.snapshot.root_inode is None ==> text@ == seq![
            'E',
            'm',
            'p',
            't',
            'y',
            ' ',
            't',
            'r',
            'e',
            'e',
            '\n',
        ],
{
    reveal_strlit("Empty tree\n");
}

/// A file is handed out for every entry, under the worktree's id, and for nothing else.
pub proof fn law_files_are_handed_out(
    w: Worktree,
    inode: u64,
    file: Result<FileHandle, WorktreeError>,
    id: (usize, u64),
)
    requires
        call_ensures(<Worktree as WorktreeHandle>::file, (&w, inode), file),
        file matches Ok(file) ==> call_ensures(FileHandle::entry_id, (&file,), id),
    ensures
        file is Ok <==> w@.snapshot.entries.contains_key(inode),
        file is Ok ==> id == (w.snapshot.id, inode),
        file matches Err(error) ==> error == WorktreeError::NotInTree,
{
}

/// In a tree, looking up the path that an inode has finds the inode, and its entry.
pub proof fn law_lookup_finds_what_has_the_path(
    w: Worktree,
    inode: u64,
    path: Result<UnixPath, WorktreeError>,
    found: Option<u64>,
    entry: Option<&Entry>,
)
    requires
        w@.snapshot.root_inode matches Some(root) && is_tree(w@.snapshot.entries, root),
        w@.snapshot.entries.contains_key(inode),
        call_ensures(Worktree::path_for_inode, (&w, inode, false), path),
        path matches Ok(path) ==> call_ensures(
            Snapshot::inode_for_path,
            (&w.snapshot, &path),
            found,
        ) && call_ensures(Snapshot::entry_for_path, (&w.snapshot, &path), entry),
    ensures
        path is Ok,
        found == Some(inode),
        entry matches Some(entry) && entry@ == w@.snapshot.entries[inode],
{
    law_path_leads_to_its_inode(w@.snapshot, inode);
}

/// A tree can be written, with a line for every entry where names hold no line ends.
pub proof fn law_whole_tree_is_written(w: Worktree, can: bool, text: String)
    requires
        w@.snapshot.root_inode matches Some(root) && is_tree(w@.snapshot.entries, root),
        w@.snapshot.entries.dom().finite(),
        forall|k: u64| #[trigger]
            w@.snapshot.entries.contains_key(k) ==> !name_text(
                w@.snapshot.entries[k].name(),
            ).contains('\n'),
        call_ensures(Worktree::can_fmt, (&w,), can),
        can ==> call_ensures(Worktree::fmt, (&w,), text),
    ensures
        can,
        line_ends(text@) == w@.snapshot.entries.dom().len(),
{
    let m = w@.snapshot.entries;
    let root = w@.snapshot.root_inode->0;
    law_tree_can_be_written_out(m, root, root);
    law_text_has_a_line_for_every_entry(m, root, root, 0);
}

/// The entry of the root is that of the inode that the tree starts from.
pub proof fn law_root_entry_is_where_paths_start(
    s: Snapshot,
    path: UnixPath,
    root: Option<&Entry>,
    entry: Option<&Entry>,
)
    requires
        components(path@).len() == 0,
        call_ensures(Snapshot::root_entry, (&s,), root),
        call_ensures(Snapshot::entry_for_path, (&s, &path), entry),
    ensures
        root is Some <==> entry is Some,
        root is Some && entry is Some ==> root->0@ == entry->0@,
{
}

} // verus!
