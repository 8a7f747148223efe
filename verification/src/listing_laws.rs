//! What a directory listing gives rise to, line by line: which entries, which of them are ignored,
//! which paths files know, and which directories are listed next.
use vstd::prelude::*;
use crate::effect_laws::law_unknown_entry_is_put_in;
use crate::entry::EntryView;
use crate::entry_tree::keyed_by_inode;
use crate::events::EventBatchView;
use crate::forest_laws::is_forest;
use crate::lookup_laws::{law_found_entry_is_what_lies_there, law_found_entry_lies_at_its_path};
use crate::path::{components, pushed, relative_to};
use crate::path_laws::{is_plain_name, law_push_name};
use crate::scan::{
    child_job, found_entry, listed_inodes, scanned_entries, scanned_jobs, DirRecordView, FsMetadata,
    ScanJobView,
};
use crate::scan_laws::{
    advanced, is_fresh, is_ready, is_scan, keeps_listing, law_listed_entries_have_paths,
    law_scan_run, lemma_advanced, lemma_advanced_keeps_lineage, lemma_scan_before,
    lemma_scan_holds_on, lemma_scanned_jobs, scan_holds,
};
use crate::snapshot::{has_lineage, is_lineage, lineage, path_to, resolved, SnapshotView};
use crate::tree_laws::lemma_resolved_has_lineage;

verus! {

/// A listing gives rise to one entry for each line, in the order of the lines, and to one more. A
/// line becomes an entry of its kind, with its name and its inode, as much of a symlink, below the
/// directory. A directory is still to be listed; a file knows its path, the directory's with its
/// own name behind it, its inode and whether it is ignored.
pub proof fn law_line_becomes_an_entry(job: ScanJobView, listing: Seq<DirRecordView>, i: int)
    requires
        0 <= i < listing.len(),
    ensures
        scanned_entries(job, listing).len() == listing.len() + 1,
        match scanned_entries(job, listing)[i] {
            EntryView::Dir { parent, name, inode, is_symlink, children, pending, .. } => {
                &&& listing[i].metadata.is_dir
                &&& parent == Some(job.ino)
                &&& name == listing[i].name
                &&& inode == listing[i].metadata.inode
                &&& is_symlink == listing[i].metadata.is_symlink
                &&& children.len() == 0
                &&& pending
            },
            EntryView::File { parent, name, path, inode, is_symlink, is_ignored } => {
                &&& !listing[i].metadata.is_dir
                &&& parent == Some(job.ino)
                &&& name == listing[i].name
                &&& inode == listing[i].metadata.inode
                &&& is_symlink == listing[i].metadata.is_symlink
                &&& path.ino == listing[i].metadata.inode
                &&& path.is_ignored == is_ignored
                &&& path.path == pushed(job.relative_path, listing[i].name)
                &&& is_plain_name(listing[i].name) ==> components(path.path) == components(
                    job.relative_path,
                ).push(listing[i].name)
            },
        },
{
    if is_plain_name(listing[i].name) {
        law_push_name(job.relative_path, listing[i].name);
    }
}

/// What an ignore rule matches is ignored, be it a file or a directory, and so is all that is
/// listed where no rules are applied because the directory is ignored itself.
pub proof fn law_matched_line_is_ignored(job: ScanJobView, listing: Seq<DirRecordView>, i: int)
    requires
        0 <= i < listing.len(),
        listing[i].metadata.matches_ignore || !job.ignore,
    ensures
        match scanned_entries(job, listing)[i] {
            EntryView::Dir { is_ignored, .. } => is_ignored,
            EntryView::File { is_ignored, path, .. } => is_ignored && path.is_ignored,
        },
{
}

/// Where rules are applied, what none matches is not ignored, but for a directory named `.git`,
/// which always is.
pub proof fn law_unmatched_line_is_not_ignored(job: ScanJobView, listing: Seq<DirRecordView>, i: int)
    requires
        0 <= i < listing.len(),
        !listing[i].metadata.matches_ignore,
        job.ignore,
    ensures
        match scanned_entries(job, listing)[i] {
            EntryView::Dir { is_ignored, .. } => is_ignored <==> listing[i].name == seq![
                46u8,
                103u8,
                105u8,
                116u8,
            ],
            EntryView::File { is_ignored, path, .. } => !is_ignored && !path.is_ignored,
        },
{
}

/// At last comes the directory itself: as it was, but that it lists the inodes of the lines in
/// their order and is not pending any more.
pub proof fn law_listing_ends_with_the_directory(job: ScanJobView, listing: Seq<DirRecordView>)
    requires
        job.dir_entry is Dir,
    ensures
        ({
            let now = scanned_entries(job, listing)[listing.len() as int];
            &&& now.parent() == job.dir_entry.parent()
            &&& now.name() == job.dir_entry.name()
            &&& now.ino() == job.dir_entry.ino()
            &&& now.is_ignored() == job.dir_entry.is_ignored()
            &&& (now matches EntryView::Dir { is_symlink, pending, .. } && !pending && (
            job.dir_entry matches EntryView::Dir { is_symlink: was_symlink, .. } && was_symlink
                == is_symlink))
            &&& now.children().len() == listing.len()
            &&& forall|i: int|
                0 <= i < listing.len() ==> #[trigger] now.children()[i]
                    == listing[i].metadata.inode
        }),
{
}

/// The inodes in a listing are those of its lines, in their order.
pub proof fn law_listed_inodes_are_those_of_lines(listing: Seq<DirRecordView>, i: int)
    ensures
        listed_inodes(listing).len() == listing.len(),
        0 <= i < listing.len() ==> listed_inodes(listing)[i] == listing[i].metadata.inode,
{
}

/// The lines of a listing that are directories.
pub open spec fn directory_lines(listing: Seq<DirRecordView>) -> Seq<DirRecordView> {
    listing.filter(|record: DirRecordView| record.metadata.is_dir)
}

proof fn lemma_jobs_are_those_of_directories(job: ScanJobView, listing: Seq<DirRecordView>)
    ensures
        scanned_jobs(job, listing).len() == directory_lines(listing).len(),
        forall|i: int|
            0 <= i < directory_lines(listing).len() ==> directory_lines(listing)[i].metadata.is_dir
                && #[trigger] scanned_jobs(job, listing)[i] == child_job(
                job,
                directory_lines(listing)[i],
            ),
    decreases listing.len(),
{
    reveal(Seq::filter);
    if listing.len() > 0 {
        lemma_jobs_are_those_of_directories(job, listing.drop_last());
        let before = scanned_jobs(job, listing.drop_last());
        let all = scanned_jobs(job, listing);
        let lines = directory_lines(listing);
        let earlier = directory_lines(listing.drop_last());
        assert(lines == if listing.last().metadata.is_dir {
            earlier.push(listing.last())
        } else {
            earlier
        });
        assert forall|i: int| 0 <= i < lines.len() implies lines[i].metadata.is_dir
            && #[trigger] all[i] == child_job(job, lines[i]) by {
            if i < before.len() {
                assert(all[i] == before[i]);
                assert(lines[i] == earlier[i]);
            }
        }
    }
}

/// Every directory in a listing, and nothing else, is listed next, in the order of the lines: under
/// its inode, at the directory's path with its own name behind it, and likewise below the root.
/// Rules are applied there where it is not ignored.
pub proof fn law_directories_are_listed_next(job: ScanJobView, listing: Seq<DirRecordView>, i: int)
    requires
        0 <= i < directory_lines(listing).len(),
    ensures
        scanned_jobs(job, listing).len() == directory_lines(listing).len(),
        ({
            let next = scanned_jobs(job, listing)[i];
            let line = directory_lines(listing)[i];
            &&& line.metadata.is_dir
            &&& next.ino == line.metadata.inode
            &&& next.path == pushed(job.path, line.name)
            &&& next.relative_path == pushed(job.relative_path, line.name)
            &&& is_plain_name(line.name) ==> {
                &&& components(next.path) == components(job.path).push(line.name)
                &&& components(next.relative_path) == components(job.relative_path).push(line.name)
            }
            &&& next.ignore <==> job.ignore && !line.metadata.matches_ignore && line.name != seq![
                46u8,
                103u8,
                105u8,
                116u8,
            ]
            &&& match next.dir_entry {
                EntryView::Dir { parent, name, inode, is_symlink, is_ignored, children, pending } => {
                    &&& parent == Some(job.ino)
                    &&& name == line.name
                    &&& inode == line.metadata.inode
                    &&& is_symlink == line.metadata.is_symlink
                    &&& is_ignored == !next.ignore
                    &&& children.len() == 0
                    &&& pending
                },
                EntryView::File { .. } => false,
            }
        }),
{
    lemma_jobs_are_those_of_directories(job, listing);
    let line = directory_lines(listing)[i];
    assert(scanned_jobs(job, listing)[i] == child_job(job, line));
    if is_plain_name(line.name) {
        law_push_name(job.path, line.name);
        law_push_name(job.relative_path, line.name);
    }
}

/// A listing without directories has nothing listed next.
pub proof fn law_files_have_nothing_listed_next(job: ScanJobView, listing: Seq<DirRecordView>)
    ensures
        scanned_jobs(job, listing).len() == 0 <==> forall|i: int|
            0 <= i < listing.len() ==> !(#[trigger] listing[i]).metadata.is_dir,
    decreases listing.len(),
{
    if listing.len() > 0 {
        let front = listing.drop_last();
        law_files_have_nothing_listed_next(job, front);
        if forall|i: int| 0 <= i < listing.len() ==> !(#[trigger] listing[i]).metadata.is_dir {
            assert forall|i: int| 0 <= i < front.len() implies !(
            #[trigger] front[i]).metadata.is_dir by {
                assert(front[i] == listing[i]);
            }
            assert(!listing[listing.len() - 1].metadata.is_dir);
        }
        if scanned_jobs(job, listing).len() == 0 {
            assert forall|i: int| 0 <= i < listing.len() implies !(
            #[trigger] listing[i]).metadata.is_dir by {
                if i < front.len() {
                    assert(front[i] == listing[i]);
                }
            }
        }
    }
}

/// At the end of a scan, what was listed is ignored where a rule matched it, where no rules were
/// applied, or where it is a directory named `.git`, and nowhere else.
pub proof fn law_scanned_entries_are_ignored_by_rule(
    states: Seq<SnapshotView>,
    queues: Seq<Seq<ScanJobView>>,
    picks: Seq<int>,
    listings: Seq<Seq<DirRecordView>>,
    n: int,
    i: int,
)
    requires
        is_scan(states, queues, picks, listings),
        scan_holds(states[0], queues[0]),
        0 <= n < listings.len(),
        0 <= i < listings[n].len(),
    ensures
        ({
            let line = listings[n][i];
            let job = queues[n][picks[n]];
            let m = states.last().entries;
            &&& m.contains_key(line.metadata.inode)
            &&& m[line.metadata.inode].is_ignored() <==> {
                ||| line.metadata.matches_ignore
                ||| !job.ignore
                ||| line.metadata.is_dir && line.name == seq![46u8, 103u8, 105u8, 116u8]
            }
            &&& m[line.metadata.inode] matches EntryView::File { path, is_ignored, .. }
                ==> path.is_ignored == is_ignored
        }),
{
    law_scan_run(states, queues, picks, listings);
    let job = queues[n][picks[n]];
    assert(keeps_listing(states.last().entries, job, listings[n]));
    let line = listings[n][i];
    assert(states.last().entries.contains_key(line.metadata.inode));
    if line.metadata.matches_ignore || !job.ignore {
        law_matched_line_is_ignored(job, listings[n], i);
    } else {
        law_unmatched_line_is_not_ignored(job, listings[n], i);
    }
}

/// Whether a job knows the path of its directory below the root.
pub open spec fn knows_its_path(s: SnapshotView, job: ScanJobView) -> bool {
    components(job.relative_path) == components(path_to(s.entries, job.ino, false))
}

/// Whether a file knows its path below the root.
pub open spec fn file_knows_its_path(m: Map<u64, EntryView>, inode: u64) -> bool {
    m[inode] matches EntryView::File { path, .. } ==> components(path.path) == components(
        path_to(m, inode, false),
    )
}

/// Where a job knows the path of its directory below the root, every file listed there knows its
/// own, and so do the jobs for the directories listed there.
pub proof fn law_listed_files_know_their_paths(
    s: SnapshotView,
    job: ScanJobView,
    listing: Seq<DirRecordView>,
    i: int,
)
    requires
        is_ready(s, job),
        is_fresh(s.entries, listing),
        has_lineage(s.entries, job.ino),
        knows_its_path(s, job),
    ensures
        0 <= i < listing.len() ==> file_knows_its_path(
            advanced(s, job, listing).entries,
            listing[i].metadata.inode,
        ),
        0 <= i < scanned_jobs(job, listing).len() ==> knows_its_path(
            advanced(s, job, listing),
            scanned_jobs(job, listing)[i],
        ),
{
    let after = advanced(s, job, listing).entries;
    lemma_advanced(s, job, listing);
    let own = path_to(s.entries, job.ino, false);
    if 0 <= i < listing.len() {
        let line = listing[i];
        assert(is_plain_name(line.name));
        law_line_becomes_an_entry(job, listing, i);
        law_listed_entries_have_paths(s, job, listing, i);
        law_push_name(own, line.name);
        assert(after[line.metadata.inode] == scanned_entries(job, listing)[i]);
    }
    if 0 <= i < scanned_jobs(job, listing).len() {
        lemma_scanned_jobs(job, listing);
        let next = scanned_jobs(job, listing)[i];
        let k = choose|k: int|
            0 <= k < listing.len() && (#[trigger] listing[k]).metadata.is_dir && next == child_job(
                job,
                listing[k],
            );
        assert(is_plain_name(listing[k].name));
        law_listed_entries_have_paths(s, job, listing, k);
        law_push_name(own, listing[k].name);
        law_push_name(job.relative_path, listing[k].name);
    }
}

/// Listing a directory leaves the paths of what was known.
proof fn lemma_listing_keeps_paths(
    s: SnapshotView,
    job: ScanJobView,
    listing: Seq<DirRecordView>,
    inode: u64,
)
    requires
        is_ready(s, job),
        is_fresh(s.entries, listing),
        has_lineage(s.entries, inode),
    ensures
        path_to(advanced(s, job, listing).entries, inode, false) == path_to(s.entries, inode, false),
{
    lemma_advanced_keeps_lineage(s, job, listing, inode);
}

/// All through a scan that starts with directories whose jobs know their paths below the root, as
/// those that events ask for do, the jobs know their paths, and every file that is listed knows its
/// own.
pub proof fn law_scanned_files_know_their_paths(
    states: Seq<SnapshotView>,
    queues: Seq<Seq<ScanJobView>>,
    picks: Seq<int>,
    listings: Seq<Seq<DirRecordView>>,
)
    requires
        is_scan(states, queues, picks, listings),
        scan_holds(states[0], queues[0]),
        forall|i: int| 0 <= i < queues[0].len() ==> knows_its_path(states[0], #[trigger] queues[0][i]),
    ensures
        forall|i: int|
            0 <= i < queues.last().len() ==> knows_its_path(
                states.last(),
                #[trigger] queues.last()[i],
            ),
        forall|k: u64| #[trigger]
            states.last().entries.contains_key(k) && !states[0].entries.contains_key(k)
                ==> file_knows_its_path(states.last().entries, k),
    decreases listings.len(),
{
    if listings.len() > 0 {
        let n = listings.len() as int;
        lemma_scan_before(states, queues, picks, listings);
        let before = states.drop_last();
        let waiting = queues.drop_last();
        lemma_scan_holds_on(before, waiting, picks.drop_last(), listings.drop_last());
        assert(waiting[0] == queues[0] && before[0] == states[0]);
        law_scanned_files_know_their_paths(
            before,
            waiting,
            picks.drop_last(),
            listings.drop_last(),
        );
        let s = states[n - 1];
        let jobs = queues[n - 1];
        let pick = picks.last();
        let job = jobs[pick];
        let listing = listings.last();
        let next = advanced(s, job, listing);
        assert(is_ready(s, job));
        assert(has_lineage(s.entries, job.ino));
        assert(knows_its_path(s, job));
        lemma_advanced(s, job, listing);
        let left = jobs.remove(pick);
        let found = scanned_jobs(job, listing);
        let all = queues.last();
        assert(all == left + found);
        assert forall|i: int| 0 <= i < all.len() implies knows_its_path(next, #[trigger] all[i]) by {
            if i < left.len() {
                let at = if i < pick {
                    i
                } else {
                    i + 1
                };
                assert(all[i] == jobs[at]);
                assert(is_ready(s, jobs[at]));
                assert(has_lineage(s.entries, jobs[at].ino));
                lemma_listing_keeps_paths(s, job, listing, jobs[at].ino);
            } else {
                law_listed_files_know_their_paths(s, job, listing, i - left.len());
            }
        }
        assert forall|k: u64| #[trigger]
            next.entries.contains_key(k) && !states[0].entries.contains_key(
                k,
            ) implies file_knows_its_path(next.entries, k) by {
            if s.entries.contains_key(k) {
                assert(has_lineage(s.entries, k));
                lemma_listing_keeps_paths(s, job, listing, k);
                if k != job.ino {
                    assert(next.entries[k] == s.entries[k]);
                }
            } else {
                let i = choose|i: int|
                    0 <= i < listing.len() && (#[trigger] listing[i]).metadata.inode == k;
                law_listed_files_know_their_paths(s, job, listing, i);
            }
        }
    }
}

/// A directory that an event found is listed with its own path: the job knows the path that the
/// entry has below the root, and so every file listed there and below knows the path that it has.
pub proof fn law_new_directory_knows_its_path(
    batch: EventBatchView,
    path: Seq<u8>,
    relative_path: Seq<u8>,
    metadata: FsMetadata,
    parent: u64,
)
    requires
        batch.snapshot.root_inode matches Some(root) && {
            &&& is_forest(batch.snapshot.entries, root, batch.possible_removed_inodes)
            &&& resolved(batch.snapshot.entries, root, components(relative_path).drop_last()) == Some(
                parent,
            )
            &&& metadata.inode != root
        },
        keyed_by_inode(batch.snapshot.entries),
        relative_to(path, batch.snapshot.path) == Some(relative_path),
        components(relative_path).len() > 0,
        is_plain_name(components(relative_path).last()),
        components(relative_path).last() != seq![46u8, 46u8],
        batch.snapshot.entries[parent] is Dir,
        !batch.snapshot.entries.contains_key(metadata.inode),
        metadata.is_dir,
    ensures
        ({
            let entry = found_entry(batch.snapshot.path, path, metadata, Some(parent));
            let after = batch.applied(path, relative_path, Ok(Some(entry)));
            let job = after.jobs.last();
            &&& after.jobs.len() == batch.jobs.len() + 1
            &&& job.ino == metadata.inode
            &&& after.snapshot.entries[job.ino] == job.dir_entry
            &&& components(job.path) == components(path)
            &&& components(job.relative_path) == components(path).skip(
                components(batch.snapshot.path).len() as int,
            )
            &&& knows_its_path(after.snapshot, job)
        }),
{
    let m = batch.snapshot.entries;
    let root = batch.snapshot.root_inode->0;
    let entry = found_entry(batch.snapshot.path, path, metadata, Some(parent));
    lemma_resolved_has_lineage(m, root, components(relative_path).drop_last());
    let line = lineage(m, parent);
    assert(is_lineage(m, line));
    assert(!line.contains(metadata.inode)) by {
        if line.contains(metadata.inode) {
            assert(m.contains_key(line[line.index_of(metadata.inode)]));
        }
    }
    law_found_entry_is_what_lies_there(batch.snapshot.path, path, metadata, Some(parent));
    law_unknown_entry_is_put_in(batch, path, relative_path, entry);
    law_found_entry_lies_at_its_path(batch, path, relative_path, metadata, parent);
}

} // verus!
