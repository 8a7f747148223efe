//! What a whole batch of events does to a snapshot.
use vstd::prelude::*;
use crate::batch::{can_process, cleaned, processed};
use crate::batch_steps::{
    batch_holds, is_done, is_job_for_new, is_traced, lemma_arrived_is_settled, lemma_batch_begins,
    lemma_batch_ends,
};
use crate::change::{
    agrees, holds, is_below_new, is_change, is_changed, is_event, is_new, is_told_of_losses,
    lemma_agreed_way, lemma_child_is_found, lemma_cleaning_keeps_ways, lemma_first_new,
    lemma_found_child, lemma_names_in, lemma_nothing_below, lemma_prefix_not_below_new, names_in,
    tells,
};
use crate::entry::EntryView;
use crate::entry_tree::keyed_by_inode;
use crate::error::WorktreeError;
use crate::events::{sorted_paths, EventBatchView};
use crate::forest_laws::{is_forest, law_orphan_removal_leaves_a_tree};
use crate::path::{components, relative_to};
use crate::path_laws::{is_plain_name, law_path_of_names};
use crate::scan::ScanJobView;
use crate::scan_laws::{is_ready, scan_holds};
use crate::snapshot::{
    is_lineage, lemma_resolved_needs_prefix, lineage, names_along, resolved, SnapshotView,
};
use crate::tree_laws::{downlinked, is_tree, lemma_resolved_has_lineage, plainly_named};

verus! {

/// A directory that its path leads to is ready to be listed, where nothing is known to lie in it.
proof fn lemma_ready(s: SnapshotView, root: u64, job: ScanJobView)
    requires
        s.root_inode == Some(root),
        s.entries.contains_key(root),
        s.entries[root].parent() is None,
        downlinked(s.entries),
        plainly_named(s.entries),
        names_in(job.path, s.path) matches Some(names) && resolved(s.entries, root, names) == Some(
            job.ino,
        ),
        s.entries[job.ino] == job.dir_entry,
        job.dir_entry is Dir,
        job.dir_entry->pending,
        job.dir_entry.ino() == job.ino,
        job.dir_entry.children().len() == 0,
    ensures
        is_ready(s, job),
{
    let m = s.entries;
    let names = names_in(job.path, s.path)->0;
    lemma_resolved_has_lineage(m, root, names);
    let line = lineage(m, job.ino);
    assert(is_lineage(m, line));
    let bearing = names_along(m, line).skip(1);
    assert forall|i: int| 0 <= i < bearing.len() implies is_plain_name(#[trigger] bearing[i]) by {
        assert(m[line[i + 1]].parent() == Some(line[i]));
        assert(m.contains_key(line[i + 1]));
    }
    law_path_of_names(bearing);
    lemma_names_in(job.path, s.path);
}

/// Where a path leads once a batch is processed.
pub proof fn lemma_batch_leads(
    end: EventBatchView,
    s: SnapshotView,
    files: SnapshotView,
    paths: Seq<Seq<u8>>,
    names: Seq<Seq<u8>>,
)
    requires
        is_change(s, files, paths),
        batch_holds(end, s, files, paths, paths.len() as int),
        resolved(files.entries, s.root_inode->0, names) is Some,
        !is_below_new(s.entries, files.entries, s.root_inode->0, names),
    ensures
        resolved(end.snapshot.entries, s.root_inode->0, names) == resolved(
            files.entries,
            s.root_inode->0,
            names,
        ),
        resolved(cleaned(end).entries, s.root_inode->0, names) == resolved(
            files.entries,
            s.root_inode->0,
            names,
        ),
{
    let m = end.snapshot.entries;
    let fs = files.entries;
    let root = s.root_inode->0;
    let n = paths.len() as int;
    assert(paths.take(n) =~= paths);
    assert forall|j: int|
        0 < j <= names.len() && resolved(fs, root, #[trigger] names.take(j)) is Some implies agrees(
        m,
        fs,
        resolved(fs, root, names.take(j))->0,
    ) by {
        lemma_prefix_not_below_new(s.entries, fs, root, names, j);
        assert(is_done(paths, s.path, n, names.take(j)));
    }
    lemma_agreed_way(m, fs, root, names);
    lemma_cleaning_keeps_ways(m, root, end.possible_removed_inodes, names);
}

/// No path below something new leads anywhere once a batch is processed.
proof fn lemma_batch_leads_below_nothing_new(
    end: EventBatchView,
    s: SnapshotView,
    files: SnapshotView,
    paths: Seq<Seq<u8>>,
    names: Seq<Seq<u8>>,
)
    requires
        is_change(s, files, paths),
        batch_holds(end, s, files, paths, paths.len() as int),
        is_below_new(s.entries, files.entries, s.root_inode->0, names),
    ensures
        resolved(cleaned(end).entries, s.root_inode->0, names) is None,
{
    let m = end.snapshot.entries;
    let fs = files.entries;
    let root = s.root_inode->0;
    let j = choose|j: int|
        0 <= j < names.len() && resolved(fs, root, #[trigger] names.take(j)) is Some
            && !s.entries.contains_key(resolved(fs, root, names.take(j))->0);
    let i = lemma_first_new(s.entries, fs, root, names, j);
    let part = names.take(i);
    lemma_batch_leads(end, s, files, paths, part);
    law_orphan_removal_leaves_a_tree(m, root, end.possible_removed_inodes);
    lemma_resolved_has_lineage(cleaned(end).entries, root, part);
    let k = resolved(fs, root, part)->0;
    assert(m.contains_key(k));
    assert(part =~= names.subrange(0, part.len() as int));
    lemma_nothing_below(cleaned(end).entries, root, part, names);
}

/// A directory that is where it should be does not hold what is gone from it, once a batch is
/// processed: where it was known to hold it there is an event.
pub proof fn lemma_batch_leaves_nothing_else(
    end: EventBatchView,
    s: SnapshotView,
    files: SnapshotView,
    paths: Seq<Seq<u8>>,
    names: Seq<Seq<u8>>,
    d: u64,
)
    requires
        is_change(s, files, paths),
        batch_holds(end, s, files, paths, paths.len() as int),
        names.len() > 0,
        resolved(files.entries, s.root_inode->0, names) is None,
        resolved(files.entries, s.root_inode->0, names.drop_last()) == Some(d),
        !is_below_new(s.entries, files.entries, s.root_inode->0, names),
        holds(s.entries, d, names.last()) ==> is_event(paths, s.path, names),
    ensures
        resolved(end.snapshot.entries, s.root_inode->0, names) is None,
        resolved(cleaned(end).entries, s.root_inode->0, names) is None,
{
    let m = end.snapshot.entries;
    let fs = files.entries;
    let root = s.root_inode->0;
    let upper = names.drop_last();
    assert(paths.take(paths.len() as int) =~= paths);
    if resolved(m, root, names) is Some {
        assert(upper =~= names.take(names.len() - 1));
        lemma_prefix_not_below_new(s.entries, fs, root, names, names.len() - 1);
        lemma_batch_leads(end, s, files, paths, upper);
        lemma_found_child(m, root, names);
        let x = resolved(m, root, names)->0;
        reveal(is_traced);
        assert(m.contains_key(x));
        if fs.contains_key(x) && agrees(m, fs, x) {
            lemma_child_is_found(fs, root, names, d, x);
        }
        assert(s.entries.contains_key(x));
        assert(holds(s.entries, d, names.last()));
        assert(is_event(paths.take(paths.len() as int), s.path, names));
    }
    lemma_cleaning_keeps_ways(m, root, end.possible_removed_inodes, names);
}

/// What is not there on the file system is not there once a batch is processed, where there is an
/// event for all that directories have lost.
proof fn lemma_batch_leads_nowhere_else(
    end: EventBatchView,
    s: SnapshotView,
    files: SnapshotView,
    paths: Seq<Seq<u8>>,
    names: Seq<Seq<u8>>,
)
    requires
        is_change(s, files, paths),
        batch_holds(end, s, files, paths, paths.len() as int),
        is_told_of_losses(s, files, paths),
        resolved(files.entries, s.root_inode->0, names) is None,
        !is_below_new(s.entries, files.entries, s.root_inode->0, names),
    ensures
        resolved(cleaned(end).entries, s.root_inode->0, names) is None,
    decreases names.len(),
{
    let fs = files.entries;
    let root = s.root_inode->0;
    let upper = names.drop_last();
    assert(names.len() > 0);
    assert(upper =~= names.take(names.len() - 1));
    lemma_prefix_not_below_new(s.entries, fs, root, names, names.len() - 1);
    if resolved(fs, root, upper) is None {
        lemma_batch_leads_nowhere_else(end, s, files, paths, upper);
        lemma_resolved_needs_prefix(cleaned(end).entries, root, names, names.len() - 1);
    } else {
        let d = resolved(fs, root, upper)->0;
        assert(holds(s.entries, d, names.last()) ==> is_event(paths, s.path, names));
        lemma_batch_leaves_nothing_else(end, s, files, paths, names, d);
    }
}

/// The directories that a batch leaves to be listed are ready, before and after the orphans are
/// taken out.
proof fn lemma_batch_jobs_are_ready(
    end: EventBatchView,
    s: SnapshotView,
    files: SnapshotView,
    paths: Seq<Seq<u8>>,
    i: int,
)
    requires
        is_change(s, files, paths),
        batch_holds(end, s, files, paths, paths.len() as int),
        0 <= i < end.jobs.len(),
    ensures
        is_ready(end.snapshot, end.jobs[i]),
        is_ready(cleaned(end), end.jobs[i]),
{
    let job = end.jobs[i];
    let m = end.snapshot.entries;
    let root = s.root_inode->0;
    let names = names_in(job.path, s.path)->0;
    assert(is_job_for_new(job, m, s, files, paths, paths.len() as int));
    lemma_batch_leads(end, s, files, paths, names);
    law_orphan_removal_leaves_a_tree(m, root, end.possible_removed_inodes);
    lemma_resolved_has_lineage(cleaned(end).entries, root, names);
    lemma_ready(end.snapshot, root, job);
    lemma_ready(cleaned(end), root, job);
}

/// Whether `job` is for a directory of the file system that is new to a snapshot, in a directory
/// that the snapshot knows.
pub open spec fn is_job_for(job: ScanJobView, s: SnapshotView, files: SnapshotView) -> bool {
    let fs = files.entries;
    let root = s.root_inode->0;
    &&& names_in(job.path, s.path) matches Some(names) && is_new(s.entries, fs, root, names)
        && resolved(fs, root, names) == Some(job.ino)
    &&& fs[job.ino] is Dir
}

/// Whether no directory is still to be listed.
pub open spec fn is_all_listed(m: Map<u64, EntryView>) -> bool {
    forall|k: u64| #[trigger] m.contains_key(k) ==> !(m[k] is Dir && m[k]->pending)
}

/// A whole batch brings the snapshot up to date, but for what lies below something new, which is
/// still to be listed.
///
/// Where the events are those for a change of the file system, every one of them can be applied.
/// Once the orphans are gone the entries make up a tree again. Every path that is there on the file
/// system leads to what is there, unless it lies below something new. Every event path that is not
/// there leads nowhere, and no path below something new leads anywhere yet. Where there is an event
/// for all that directories have lost, no other path leads anywhere either.
///
/// There is one job, and only one, for each new directory in a directory that was known, and it is
/// ready: it can be listed before the orphans are taken out or afterwards. Where every directory had
/// been listed before, these are all that is left to be listed.
pub proof fn law_batch_brings_the_snapshot_up_to_date(
    batch: EventBatchView,
    files: SnapshotView,
    looks: spec_fn(Seq<u8>) -> Result<Option<EntryView>, WorktreeError>,
)
    requires
        is_change(batch.snapshot, files, batch.paths),
        sorted_paths(batch.paths),
        batch.possible_removed_inodes.len() == 0,
        batch.jobs.len() == 0,
        forall|i: int| 0 <= i < batch.paths.len() ==> tells(looks, files, #[trigger] batch.paths[i]),
    ensures
        can_process(batch, looks),
        ({
            let s = batch.snapshot;
            let fs = files.entries;
            let root = s.root_inode->0;
            let end = processed(batch, looks);
            let after = cleaned(end);
            let jobs = end.jobs;
            &&& after.path == s.path
            &&& after.root_inode == s.root_inode
            &&& is_forest(end.snapshot.entries, root, end.possible_removed_inodes)
            &&& !end.possible_removed_inodes.contains(root)
            &&& keyed_by_inode(end.snapshot.entries)
            &&& is_tree(after.entries, root)
            &&& after.entries.dom().subset_of(s.entries.dom().union(fs.dom()))
            &&& forall|relative_path: Seq<u8>| #[trigger]
                files.inode_at(relative_path) is Some && !is_below_new(
                    s.entries,
                    fs,
                    root,
                    components(relative_path),
                ) ==> after.inode_at(relative_path) == files.inode_at(relative_path)
            &&& forall|relative_path: Seq<u8>|
                is_below_new(s.entries, fs, root, components(relative_path))
                    ==> #[trigger] after.inode_at(relative_path) is None
            &&& forall|i: int|
                0 <= i < batch.paths.len() ==> (#[trigger] relative_to(
                    batch.paths[i],
                    after.path,
                ) matches Some(relative_path) ==> !is_below_new(
                    s.entries,
                    fs,
                    root,
                    components(relative_path),
                ) ==> after.inode_at(relative_path) == files.inode_at(relative_path))
            &&& is_told_of_losses(s, files, batch.paths) ==> forall|relative_path: Seq<u8>|
                !is_below_new(s.entries, fs, root, components(relative_path))
                    ==> #[trigger] after.inode_at(relative_path) == files.inode_at(relative_path)
            &&& forall|i: int|
                0 <= i < jobs.len() ==> is_job_for(#[trigger] jobs[i], s, files) && is_ready(
                    end.snapshot,
                    jobs[i],
                ) && is_ready(after, jobs[i])
            &&& forall|i: int, j: int|
                #![trigger jobs[i], jobs[j]]
                0 <= i < j < jobs.len() ==> jobs[i].ino != jobs[j].ino
            &&& forall|names: Seq<Seq<u8>>| #[trigger]
                is_new(s.entries, fs, root, names) && fs[resolved(fs, root, names)->0] is Dir
                    ==> exists|i: int|
                    0 <= i < jobs.len() && Some((#[trigger] jobs[i]).ino) == resolved(
                        fs,
                        root,
                        names,
                    )
            &&& is_all_listed(s.entries) ==> scan_holds(after, jobs)
        }),
{
    let s = batch.snapshot;
    let paths = batch.paths;
    let root = s.root_inode->0;
    let fs = files.entries;
    lemma_batch_begins(batch, files);
    lemma_batch_ends(batch, s, files, paths, 0, looks);
    let end = processed(batch, looks);
    let m = end.snapshot.entries;
    let candidates = end.possible_removed_inodes;
    let after = cleaned(end);
    let jobs = end.jobs;
    law_orphan_removal_leaves_a_tree(m, root, candidates);
    let n = paths.len() as int;
    assert(paths.take(n) =~= paths);
    assert forall|relative_path: Seq<u8>| #[trigger]
        files.inode_at(relative_path) is Some && !is_below_new(
            s.entries,
            fs,
            root,
            components(relative_path),
        ) implies after.inode_at(relative_path) == files.inode_at(relative_path) by {
        lemma_batch_leads(end, s, files, paths, components(relative_path));
    }
    assert forall|relative_path: Seq<u8>|
        is_below_new(s.entries, fs, root, components(relative_path)) implies #[trigger] after.inode_at(
        relative_path,
    ) is None by {
        lemma_batch_leads_below_nothing_new(end, s, files, paths, components(relative_path));
    }
    assert forall|i: int|
        0 <= i < paths.len() && #[trigger] relative_to(paths[i], after.path) is Some && !is_below_new(
            s.entries,
            fs,
            root,
            components(relative_to(paths[i], after.path)->0),
        ) implies after.inode_at(relative_to(paths[i], after.path)->0) == files.inode_at(
        relative_to(paths[i], after.path)->0,
    ) by {
        let names = components(relative_to(paths[i], after.path)->0);
        assert(names_in(paths[i], s.path) == Some(names));
        if resolved(fs, root, names) is None {
            assert(is_event(paths.take(n), s.path, names));
            lemma_cleaning_keeps_ways(m, root, candidates, names);
        } else {
            lemma_batch_leads(end, s, files, paths, names);
        }
    }
    if is_told_of_losses(s, files, paths) {
        assert forall|relative_path: Seq<u8>|
            !is_below_new(
                s.entries,
                fs,
                root,
                components(relative_path),
            ) implies #[trigger] after.inode_at(relative_path) == files.inode_at(relative_path) by {
            let names = components(relative_path);
            if resolved(fs, root, names) is None {
                lemma_batch_leads_nowhere_else(end, s, files, paths, names);
            } else {
                assert(files.inode_at(relative_path) is Some);
            }
        }
    }
    assert forall|i: int| 0 <= i < jobs.len() implies is_job_for(#[trigger] jobs[i], s, files)
        && is_ready(end.snapshot, jobs[i]) && is_ready(after, jobs[i]) by {
        assert(is_job_for_new(jobs[i], m, s, files, paths, n));
        lemma_batch_jobs_are_ready(end, s, files, paths, i);
    }
    assert forall|names: Seq<Seq<u8>>| #[trigger]
        is_new(s.entries, fs, root, names) && fs[resolved(fs, root, names)->0] is Dir implies exists|
        i: int,
    | 0 <= i < jobs.len() && Some((#[trigger] jobs[i]).ino) == resolved(fs, root, names) by {
        assert(is_changed(s.entries, fs, root, names)) by {
            reveal(is_changed);
            if names.len() == 0 {
                assert(s.entries.contains_key(root));
            }
        }
        assert(is_event(paths.take(n), s.path, names));
    }
    assert forall|k: u64| after.entries.contains_key(k) implies s.entries.contains_key(k)
        || fs.contains_key(k) by {
        assert(m.contains_key(k));
        if !s.entries.contains_key(k) {
            lemma_arrived_is_settled(end, s, files, paths, n, k);
        }
    }
    if is_all_listed(s.entries) {
        assert forall|k: u64| #[trigger]
            after.entries.contains_key(k) && after.entries[k] is Dir
                && after.entries[k]->pending implies exists|i: int|
            0 <= i < jobs.len() && (#[trigger] jobs[i]).ino == k by {
            assert(m.contains_key(k) && after.entries[k] == m[k]);
            assert(!s.entries.contains_key(k));
            let names = choose|names: Seq<Seq<u8>>| #[trigger]
                is_new(s.entries, fs, root, names) && is_event(paths.take(n), s.path, names)
                    && resolved(fs, root, names) == Some(k);
            let i = choose|i: int|
                0 <= i < jobs.len() && Some((#[trigger] jobs[i]).ino) == resolved(fs, root, names);
            assert(jobs[i].ino == k);
        }
        assert(keyed_by_inode(after.entries)) by {
            assert forall|k: u64| #[trigger]
                after.entries.contains_key(k) implies after.entries[k].ino() == k by {
                assert(m.contains_key(k));
            }
        }
    }
}

} // verus!
