//! What a whole update does to a snapshot: the events, the listing of what is new, and the taking
//! out of the orphans.
use vstd::prelude::*;
use crate::batch::{cleaned, processed, without_orphans};
use crate::batch_laws::{
    is_all_listed, law_batch_brings_the_snapshot_up_to_date, lemma_batch_leads,
    lemma_batch_leaves_nothing_else,
};
use crate::batch_steps::{
    batch_holds, is_done, is_job_for_new, lemma_batch_begins, lemma_batch_ends,
};
use crate::change::{
    agrees, holds, is_below_new, is_change, is_event, is_gone, is_new, is_told_of_losses,
    lemma_agreed_way, lemma_child_is_found, lemma_found_child, lemma_names_are_unique,
    lemma_names_in, lemma_prefix_not_below_new, names_in, tells,
};
use crate::entry::EntryView;
use crate::error::WorktreeError;
use crate::events::{sorted_paths, EventBatchView};
use crate::forest_laws::{
    is_forest, law_orphan_removal_leaves_a_tree, law_orphans_hang_on_candidates,
};
use crate::lineage::lemma_lineage_prefix;
use crate::orphans::{
    is_reached, is_trail, lemma_closed_set_holds_trail, orphaned, owns, parentless,
};
use crate::path::{components, path_starts_with, pushed, relative_to};
use crate::path_laws::{is_plain_name, law_push_name, law_strip_prefix_drops_components};
use crate::scan::{
    child_job, listed_inodes, scanned_entries, scanned_jobs, DirRecordView, ScanJobView,
};
use crate::scan_laws::{
    advanced, is_fresh, is_ready, is_scan, keeps_listing, law_scan_goes_on, law_scan_run,
    lemma_advanced, lemma_scanned_jobs, scan_holds, stays_put,
};
use crate::snapshot::{
    child_named, has_lineage, inserted, is_lineage, lemma_resolved_needs_prefix, lineage, resolved,
    SnapshotView,
};
use crate::tree_laws::{
    downlinked, is_tree, lemma_lineage_extends, lemma_lineage_is, lemma_resolved_has_lineage,
    uplinked,
};

verus! {

/// Whether directories are listed one after the other, as they wait in a queue: each moment takes one
/// of them, puts in what it was found to hold, and has the directories found there wait at the end.
pub open spec fn is_run(
    states: Seq<SnapshotView>,
    queues: Seq<Seq<ScanJobView>>,
    picks: Seq<int>,
    listings: Seq<Seq<DirRecordView>>,
) -> bool {
    &&& states.len() == listings.len() + 1
    &&& queues.len() == listings.len() + 1
    &&& picks.len() == listings.len()
    &&& forall|i: int|
        #![trigger listings[i]]
        0 <= i < listings.len() ==> {
            &&& 0 <= picks[i] < queues[i].len()
            &&& states[i + 1] == advanced(states[i], queues[i][picks[i]], listings[i])
            &&& queues[i + 1] == queues[i].remove(picks[i]) + scanned_jobs(
                queues[i][picks[i]],
                listings[i],
            )
        }
}

/// What the first `n` listings make of a snapshot.
pub open spec fn listed_into(
    start: SnapshotView,
    queues: Seq<Seq<ScanJobView>>,
    picks: Seq<int>,
    listings: Seq<Seq<DirRecordView>>,
    n: int,
) -> SnapshotView
    decreases n,
{
    if n <= 0 {
        start
    } else {
        advanced(
            listed_into(start, queues, picks, listings, n - 1),
            queues[n - 1][picks[n - 1]],
            listings[n - 1],
        )
    }
}

/// The moments of a scan that starts elsewhere and has the same listings.
pub open spec fn states_from(
    start: SnapshotView,
    queues: Seq<Seq<ScanJobView>>,
    picks: Seq<int>,
    listings: Seq<Seq<DirRecordView>>,
    n: int,
) -> Seq<SnapshotView> {
    Seq::new((n + 1) as nat, |i: int| listed_into(start, queues, picks, listings, i))
}

/// Putting entries in does not touch what lies underneath.
proof fn lemma_inserted_over(
    under: Map<u64, EntryView>,
    m: Map<u64, EntryView>,
    entries: Seq<EntryView>,
)
    ensures
        inserted(under.union_prefer_right(m), entries) == under.union_prefer_right(
            inserted(m, entries),
        ),
    decreases entries.len(),
{
    if entries.len() > 0 {
        lemma_inserted_over(under, m, entries.drop_last());
    }
    assert(inserted(under.union_prefer_right(m), entries) =~= under.union_prefer_right(
        inserted(m, entries),
    ));
}

/// What a run comes to is what it makes of a part of the entries, put over all of them.
proof fn lemma_run_over(
    states: Seq<SnapshotView>,
    queues: Seq<Seq<ScanJobView>>,
    picks: Seq<int>,
    listings: Seq<Seq<DirRecordView>>,
    start: SnapshotView,
    n: int,
)
    requires
        is_run(states, queues, picks, listings),
        start == states[0].with_entries(start.entries),
        start.entries.submap_of(states[0].entries),
        0 <= n <= listings.len(),
    ensures
        ({
            let part = listed_into(start, queues, picks, listings, n);
            &&& part == states[0].with_entries(part.entries)
            &&& states[n] == states[0].with_entries(
                states[0].entries.union_prefer_right(part.entries),
            )
        }),
    decreases n,
{
    if n == 0 {
        assert(states[0].entries.union_prefer_right(start.entries) =~= states[0].entries);
    } else {
        lemma_run_over(states, queues, picks, listings, start, n - 1);
        let part = listed_into(start, queues, picks, listings, n - 1);
        let job = queues[n - 1][picks[n - 1]];
        let listing = listings[n - 1];
        assert(states[n - 1 + 1] == advanced(states[n - 1], job, listing));
        lemma_inserted_over(states[0].entries, part.entries, scanned_entries(job, listing));
    }
}

/// What stays when listings are put over all entries and the orphans are then taken out: the listings
/// with what was in the tree, and of what came loose only what lies in a directory that is put back.
proof fn lemma_what_is_put_back_stays(
    m: Map<u64, EntryView>,
    root: u64,
    candidates: Seq<u64>,
    part: Map<u64, EntryView>,
)
    requires
        is_forest(m, root, candidates),
        !candidates.contains(root),
        is_tree(part, root),
        m.remove_keys(orphaned(m, candidates)).dom().subset_of(part.dom()),
    ensures
        orphaned(m.union_prefer_right(part), candidates).subset_of(
            orphaned(m, candidates).difference(part.dom()),
        ),
{
    let gone = orphaned(m, candidates);
    let all = m.union_prefer_right(part);
    let left = gone.difference(part.dom());
    let starts = parentless(all, candidates);
    assert forall|k: u64| all.contains_key(k) implies part.contains_key(k) || left.contains(k) by {
        if !part.contains_key(k) && !gone.contains(k) {
            assert(m.remove_keys(gone).dom().contains(k));
        }
    }
    assert forall|z: u64| orphaned(all, candidates).contains(z) implies left.contains(z) by {
        let trail = choose|trail: Seq<u64>| #[trigger]
            is_trail(all, trail) && starts.contains(trail[0]) && trail.last() == z;
        let top = trail[0];
        assert(left.contains(top)) by {
            if part.contains_key(top) {
                assert(has_lineage(part, top));
                let line = lineage(part, top);
                assert(is_lineage(part, line));
                if line.len() > 1 {
                    let n = line.len() as int;
                    assert(part[line[n - 1]].parent() == Some(line[n - 2]));
                }
            }
        }
        assert forall|a: u64, b: u64|
            left.contains(a) && #[trigger] owns(all, a, b) && all.contains_key(
                b,
            ) implies left.contains(b) by {
            if part.contains_key(b) {
                assert(part[b].parent() == Some(a));
                assert(part.contains_key(a));
            }
        }
        lemma_closed_set_holds_trail(all, left, trail);
    }
}

/// What came loose and is not put back is taken out with the orphans, where all that lies in what is
/// put back is put back too.
proof fn lemma_what_is_not_put_back_goes(
    m: Map<u64, EntryView>,
    root: u64,
    candidates: Seq<u64>,
    part: Map<u64, EntryView>,
)
    requires
        is_forest(m, root, candidates),
        !candidates.contains(root),
        is_tree(part, root),
        m.remove_keys(orphaned(m, candidates)).dom().subset_of(part.dom()),
        forall|y: u64|
            orphaned(m, candidates).contains(y) ==> (#[trigger] m[y].parent() matches Some(x)
                ==> part.contains_key(x) ==> part.contains_key(y)),
    ensures
        m.union_prefer_right(part).remove_keys(
            orphaned(m.union_prefer_right(part), candidates),
        ) == part,
{
    let gone = orphaned(m, candidates);
    let all = m.union_prefer_right(part);
    let left = gone.difference(part.dom());
    let starts = parentless(all, candidates);
    lemma_what_is_put_back_stays(m, root, candidates, part);
    assert forall|k: u64| all.contains_key(k) implies part.contains_key(k) || left.contains(k) by {
        if !part.contains_key(k) && !gone.contains(k) {
            assert(m.remove_keys(gone).dom().contains(k));
        }
    }
    assert forall|z: u64| left.contains(z) implies orphaned(all, candidates).contains(z) by {
        assert(m.contains_key(z));
        assert(has_lineage(m, z));
        let line = lineage(m, z);
        assert(is_lineage(m, line));
        law_orphans_hang_on_candidates(m, candidates, z);
        assert forall|i: int| 0 <= i < line.len() implies left.contains(#[trigger] line[i]) by {
            lemma_line_is_left(m, candidates, part, line, i);
        }
        assert(is_trail(all, line)) by {
            assert forall|i: int| 0 <= i < line.len() implies all.contains_key(
                #[trigger] line[i],
            ) by {
                assert(left.contains(line[i]));
            }
            assert forall|i: int, j: int|
                #![trigger line[i], line[j]]
                0 <= i && j == i + 1 && j < line.len() implies owns(all, line[i], line[j]) by {
                assert(left.contains(line[i]) && left.contains(line[j]));
                assert(m[line[j]].parent() == Some(line[i]));
                assert(m.contains_key(line[j]));
            }
        }
        assert(left.contains(line[0]));
        assert(starts.contains(line[0]));
        assert(is_reached(all, starts, z));
    }
    assert(orphaned(all, candidates) =~= left);
    assert(all.remove_keys(left) =~= part);
}

/// What lies above an entry that came loose and is not put back is not put back either.
proof fn lemma_line_is_left(
    m: Map<u64, EntryView>,
    candidates: Seq<u64>,
    part: Map<u64, EntryView>,
    line: Seq<u64>,
    i: int,
)
    requires
        downlinked(m),
        uplinked(m),
        is_lineage(m, line),
        candidates.contains(line[0]),
        !part.contains_key(line.last()),
        forall|y: u64|
            orphaned(m, candidates).contains(y) ==> (#[trigger] m[y].parent() matches Some(x)
                ==> part.contains_key(x) ==> part.contains_key(y)),
        0 <= i < line.len(),
    ensures
        orphaned(m, candidates).contains(line[i]),
        !part.contains_key(line[i]),
    decreases line.len() - i,
{
    lemma_lineage_prefix(m, line, i + 1);
    lemma_lineage_is(m, line.take(i + 1));
    assert(line.take(i + 1)[0] == line[0]);
    law_orphans_hang_on_candidates(m, candidates, line[i]);
    assert(m.contains_key(line[i]));
    if i + 1 < line.len() {
        lemma_line_is_left(m, candidates, part, line, i + 1);
        assert(m[line[i + 1]].parent() == Some(line[i]));
    }
}

/// Whether the orphans are taken out before or after a run of listings. What is there when they are
/// taken out before is there when they are taken out afterwards, and besides it only entries that came
/// loose, as they were. Where all that lay in what the listings put back is put back too, it comes to
/// the same.
pub proof fn law_orphans_can_be_taken_out_first(
    states: Seq<SnapshotView>,
    queues: Seq<Seq<ScanJobView>>,
    picks: Seq<int>,
    listings: Seq<Seq<DirRecordView>>,
    root: u64,
    candidates: Seq<u64>,
)
    requires
        is_run(states, queues, picks, listings),
        is_forest(states[0].entries, root, candidates),
        !candidates.contains(root),
        is_tree(
            listed_into(
                without_orphans(states[0], candidates),
                queues,
                picks,
                listings,
                listings.len() as int,
            ).entries,
            root,
        ),
    ensures
        ({
            let m = states[0].entries;
            let part = listed_into(
                without_orphans(states[0], candidates),
                queues,
                picks,
                listings,
                listings.len() as int,
            );
            let end = without_orphans(states.last(), candidates);
            &&& end == part.with_entries(end.entries)
            &&& part.entries.submap_of(end.entries)
            &&& forall|k: u64| #[trigger]
                end.entries.contains_key(k) && !part.entries.contains_key(k) ==> orphaned(
                    m,
                    candidates,
                ).contains(k) && end.entries[k] == m[k]
            &&& (forall|y: u64|
                orphaned(m, candidates).contains(y) ==> (#[trigger] m[y].parent() matches Some(x)
                    ==> part.entries.contains_key(x) ==> part.entries.contains_key(y))) ==> end
                == part
        }),
{
    let m = states[0].entries;
    let start = without_orphans(states[0], candidates);
    let n = listings.len() as int;
    let part = listed_into(start, queues, picks, listings, n);
    let end = without_orphans(states.last(), candidates);
    lemma_run_over(states, queues, picks, listings, start, n);
    lemma_listed_into_grows(start, queues, picks, listings, n);
    assert(states[n] == states.last());
    assert(states.last().entries == m.union_prefer_right(part.entries));
    lemma_what_is_put_back_stays(m, root, candidates, part.entries);
    assert(part.entries.submap_of(end.entries));
    assert forall|k: u64| #[trigger]
        end.entries.contains_key(k) && !part.entries.contains_key(k) implies orphaned(
        m,
        candidates,
    ).contains(k) && end.entries[k] == m[k] by {
        if !orphaned(m, candidates).contains(k) {
            assert(start.entries.dom().contains(k));
        }
    }
    if forall|y: u64|
        orphaned(m, candidates).contains(y) ==> (#[trigger] m[y].parent() matches Some(x)
            ==> part.entries.contains_key(x) ==> part.entries.contains_key(y)) {
        lemma_what_is_not_put_back_goes(m, root, candidates, part.entries);
    }
}

/// Among entries that one map has as another has them, a name finds the same.
proof fn lemma_same_child(
    part: Map<u64, EntryView>,
    m: Map<u64, EntryView>,
    children: Seq<u64>,
    name: Seq<u8>,
)
    requires
        part.submap_of(m),
        forall|i: int| 0 <= i < children.len() ==> part.contains_key(#[trigger] children[i]),
    ensures
        child_named(m, children, name) == child_named(part, children, name),
    decreases children.len(),
{
    if children.len() > 0 {
        assert(part.dom().contains(children[0]));
        assert(m.contains_key(children[0]) && m[children[0]] == part[children[0]]);
        let rest = children.drop_first();
        assert forall|i: int| 0 <= i < rest.len() implies part.contains_key(#[trigger] rest[i]) by {
            assert(rest[i] == children[i + 1]);
        }
        lemma_same_child(part, m, rest, name);
    }
}

/// What is known besides a tree opens no way in it.
proof fn lemma_tree_leads_the_same(
    part: Map<u64, EntryView>,
    m: Map<u64, EntryView>,
    root: u64,
    names: Seq<Seq<u8>>,
)
    requires
        is_tree(part, root),
        part.submap_of(m),
    ensures
        resolved(m, root, names) == resolved(part, root, names),
    decreases names.len(),
{
    if names.len() > 0 {
        let upper = names.drop_last();
        lemma_tree_leads_the_same(part, m, root, upper);
        if resolved(part, root, upper) is Some {
            lemma_resolved_has_lineage(part, root, upper);
            let d = resolved(part, root, upper)->0;
            assert(m[d] == part[d] && m.contains_key(d));
            let children = part[d].children();
            assert forall|i: int| 0 <= i < children.len() implies part.contains_key(
                #[trigger] children[i],
            ) by {
                assert(part.contains_key(part[d].children()[i]));
            }
            lemma_same_child(part, m, children, names.last());
        }
    }
}

/// Listings take nothing out.
proof fn lemma_listed_into_grows(
    start: SnapshotView,
    queues: Seq<Seq<ScanJobView>>,
    picks: Seq<int>,
    listings: Seq<Seq<DirRecordView>>,
    n: int,
)
    requires
        n >= 0,
    ensures
        start.entries.dom().subset_of(
            listed_into(start, queues, picks, listings, n).entries.dom(),
        ),
    decreases n,
{
    if n > 0 {
        lemma_listed_into_grows(start, queues, picks, listings, n - 1);
        lemma_inserted_grows(
            listed_into(start, queues, picks, listings, n - 1).entries,
            scanned_entries(queues[n - 1][picks[n - 1]], listings[n - 1]),
        );
    }
}

/// Putting entries in takes nothing out.
proof fn lemma_inserted_grows(m: Map<u64, EntryView>, entries: Seq<EntryView>)
    ensures
        m.dom().subset_of(inserted(m, entries).dom()),
    decreases entries.len(),
{
    if entries.len() > 0 {
        lemma_inserted_grows(m, entries.drop_last());
    }
}

/// Whether a listing has what lies in the directory `d` of the file system, each once, with its name
/// and its kind, and nothing else.
pub open spec fn is_listing_of(
    fs: Map<u64, EntryView>,
    d: u64,
    listing: Seq<DirRecordView>,
) -> bool {
    &&& forall|i: int|
        0 <= i < listing.len() ==> {
            let k = (#[trigger] listing[i]).metadata.inode;
            &&& fs.contains_key(k)
            &&& fs[k].parent() == Some(d)
            &&& fs[k].name() == listing[i].name
            &&& (fs[k] is Dir) == listing[i].metadata.is_dir
        }
    &&& forall|i: int, j: int|
        #![trigger listing[i], listing[j]]
        0 <= i < j < listing.len() ==> listing[i].metadata.inode != listing[j].metadata.inode
    &&& forall|k: u64|
        fs.contains_key(k) && #[trigger] fs[k].parent() == Some(d) ==> exists|i: int|
            0 <= i < listing.len() && (#[trigger] listing[i]).metadata.inode == k
}

/// Whether a listing has what `files`, the state of the file system, holds in the directory at
/// `path`.
pub open spec fn lists(files: SnapshotView, path: Seq<u8>, listing: Seq<DirRecordView>) -> bool {
    relative_to(path, files.path) matches Some(relative_path) ==> (files.inode_at(
        relative_path,
    ) matches Some(d) ==> is_listing_of(files.entries, d, listing))
}

/// Whether an inode lies below something new on the file system.
pub open spec fn is_found_below_new(s: SnapshotView, files: SnapshotView, k: u64) -> bool {
    exists|names: Seq<Seq<u8>>| #[trigger]
        is_below_new(s.entries, files.entries, s.root_inode->0, names) && resolved(
            files.entries,
            s.root_inode->0,
            names,
        ) == Some(k)
}

/// Whether what lies below something new on the file system is parted from the tree that a batch
/// leaves: nothing of it is in that tree.
pub open spec fn is_parted(end: EventBatchView, s: SnapshotView, files: SnapshotView) -> bool {
    forall|k: u64| #[trigger]
        cleaned(end).entries.contains_key(k) ==> !is_found_below_new(s, files, k)
}

/// Whether, where a directory came loose and lies below something new, all that it was known to hold
/// lies there too.
pub open spec fn is_found_whole(end: EventBatchView, s: SnapshotView, files: SnapshotView) -> bool {
    let m = end.snapshot.entries;
    forall|y: u64|
        orphaned(m, end.possible_removed_inodes).contains(y) ==> (
        #[trigger] m[y].parent() matches Some(x) ==> is_found_below_new(s, files, x)
            ==> is_found_below_new(s, files, y))
}

/// Where nothing that the snapshot knew lies below something new, all of it is parted from the tree,
/// and no directory is found there in part.
pub proof fn law_unknown_is_parted(
    batch: EventBatchView,
    files: SnapshotView,
    looks: spec_fn(Seq<u8>) -> Result<Option<EntryView>, WorktreeError>,
)
    requires
        is_change(batch.snapshot, files, batch.paths),
        sorted_paths(batch.paths),
        batch.possible_removed_inodes.len() == 0,
        batch.jobs.len() == 0,
        forall|i: int| 0 <= i < batch.paths.len() ==> tells(looks, files, #[trigger] batch.paths[i]),
        forall|k: u64| #[trigger]
            is_found_below_new(batch.snapshot, files, k) ==> !batch.snapshot.entries.contains_key(k),
    ensures
        is_parted(processed(batch, looks), batch.snapshot, files),
        is_found_whole(processed(batch, looks), batch.snapshot, files),
{
    let s = batch.snapshot;
    let paths = batch.paths;
    let n = paths.len() as int;
    let fs = files.entries;
    let root = s.root_inode->0;
    let end = processed(batch, looks);
    let m = end.snapshot.entries;
    lemma_batch_begins(batch, files);
    lemma_batch_ends(batch, s, files, paths, 0, looks);
    assert forall|k: u64| #[trigger] m.contains_key(k) implies !is_found_below_new(
        s,
        files,
        k,
    ) by {
        if !s.entries.contains_key(k) && is_found_below_new(s, files, k) {
            let below = choose|names: Seq<Seq<u8>>| #[trigger]
                is_below_new(s.entries, fs, root, names) && resolved(fs, root, names) == Some(k);
            let names = choose|names: Seq<Seq<u8>>| #[trigger]
                is_new(s.entries, fs, root, names) && is_event(paths.take(n), s.path, names)
                    && resolved(fs, root, names) == Some(k);
            lemma_names_are_unique(fs, root, below, names);
        }
    }
    assert forall|y: u64|
        orphaned(m, end.possible_removed_inodes).contains(
            y,
        ) && #[trigger] m[y].parent() is Some implies !is_found_below_new(
        s,
        files,
        m[y].parent()->0,
    ) by {
        assert(m.contains_key(y));
        assert(m.contains_key(m[y].parent()->0));
    }
}

/// Whether a job is for the directory that lies at its path on the file system, which is new or lies
/// below something new.
spec fn is_true_job(job: ScanJobView, s: SnapshotView, fs: Map<u64, EntryView>) -> bool {
    let root = s.root_inode->0;
    &&& names_in(job.path, s.path) is Some
    &&& resolved(fs, root, names_in(job.path, s.path)->0) == Some(job.ino)
    &&& is_below_new(s.entries, fs, root, names_in(job.path, s.path)->0)
        || !s.entries.contains_key(job.ino)
}

/// What lies in a directory that is new, or lies below something new, lies below something new.
proof fn lemma_below_true_job(
    job: ScanJobView,
    s: SnapshotView,
    fs: Map<u64, EntryView>,
    name: Seq<u8>,
)
    requires
        is_true_job(job, s, fs),
    ensures
        is_below_new(
            s.entries,
            fs,
            s.root_inode->0,
            (names_in(job.path, s.path)->0).push(name),
        ),
{
    let root = s.root_inode->0;
    let names = names_in(job.path, s.path)->0;
    let longer = names.push(name);
    if is_below_new(s.entries, fs, root, names) {
        let j = choose|j: int|
            0 <= j < names.len() && resolved(fs, root, #[trigger] names.take(j)) is Some
                && !s.entries.contains_key(resolved(fs, root, names.take(j))->0);
        assert(longer.take(j) =~= names.take(j));
    } else {
        assert(longer.take(names.len() as int) =~= names);
    }
}

/// What a true job lists lies at its path, and below something new.
proof fn lemma_listed_is_below_new(
    job: ScanJobView,
    record: DirRecordView,
    s: SnapshotView,
    fs: Map<u64, EntryView>,
)
    requires
        is_tree(fs, s.root_inode->0),
        is_true_job(job, s, fs),
        fs.contains_key(record.metadata.inode),
        fs[record.metadata.inode].parent() == Some(job.ino),
        fs[record.metadata.inode].name() == record.name,
    ensures
        is_true_job(child_job(job, record), s, fs),
        ({
            let longer = (names_in(job.path, s.path)->0).push(record.name);
            &&& is_below_new(s.entries, fs, s.root_inode->0, longer)
            &&& resolved(fs, s.root_inode->0, longer) == Some(record.metadata.inode)
        }),
{
    let root = s.root_inode->0;
    let base = s.path;
    let path = pushed(job.path, record.name);
    let names = names_in(job.path, base)->0;
    let longer = names.push(record.name);
    let top = components(base);
    law_push_name(job.path, record.name);
    lemma_names_in(job.path, base);
    assert(components(path) =~= top + longer);
    assert(top =~= (top + longer).subrange(0, top.len() as int));
    assert(path_starts_with(path, base));
    law_strip_prefix_drops_components(path, base);
    assert((top + longer).skip(top.len() as int) =~= longer);
    assert(names_in(path, base) == Some(longer));
    assert(longer.drop_last() =~= names);
    lemma_child_is_found(fs, root, longer, job.ino, record.metadata.inode);
    lemma_below_true_job(job, s, fs, record.name);
}

/// What holds after the first `n` listings of what is new, with the orphans taken out before.
spec fn listing_holds(
    m: SnapshotView,
    jobs: Seq<ScanJobView>,
    after: Map<u64, EntryView>,
    s: SnapshotView,
    fs: Map<u64, EntryView>,
) -> bool {
    &&& scan_holds(m, jobs)
    &&& m.root_inode == s.root_inode
    &&& m.path == s.path
    &&& forall|j: int| 0 <= j < jobs.len() ==> is_true_job(#[trigger] jobs[j], s, fs)
    &&& forall|k: u64| #[trigger]
        m.entries.contains_key(k) ==> after.contains_key(k) || (fs.contains_key(k)
            && fs[k].parent() is Some && {
            let d = fs[k].parent()->0;
            &&& m.entries.contains_key(d)
            &&& m.entries[d] is Dir
            &&& !m.entries[d]->pending
            &&& exists|names: Seq<Seq<u8>>| #[trigger]
                is_below_new(s.entries, fs, s.root_inode->0, names) && resolved(
                    fs,
                    s.root_inode->0,
                    names,
                ) == Some(k)
        })
}

/// A listing of a new directory has nothing in it that is known by then.
proof fn lemma_true_listing_is_fresh(
    m: SnapshotView,
    jobs: Seq<ScanJobView>,
    after: Map<u64, EntryView>,
    s: SnapshotView,
    files: SnapshotView,
    p: int,
    listing: Seq<DirRecordView>,
)
    requires
        listing_holds(m, jobs, after, s, files.entries),
        files.root_inode == s.root_inode,
        is_tree(files.entries, s.root_inode->0),
        forall|k: u64| #[trigger] after.contains_key(k) ==> !is_found_below_new(s, files, k),
        0 <= p < jobs.len(),
        is_listing_of(files.entries, jobs[p].ino, listing),
    ensures
        is_fresh(m.entries, listing),
{
    let fs = files.entries;
    let root = s.root_inode->0;
    let job = jobs[p];
    assert(is_ready(m, job));
    assert(is_true_job(job, s, fs));
    assert forall|i: int| 0 <= i < listing.len() implies !m.entries.contains_key(
        (#[trigger] listing[i]).metadata.inode,
    ) && is_plain_name(listing[i].name) by {
        let k = listing[i].metadata.inode;
        lemma_listed_is_below_new(job, listing[i], s, fs);
        assert(is_found_below_new(s, files, k));
    }
    assert forall|i: int, j: int|
        #![trigger listing[i], listing[j]]
        0 <= i < j < listing.len() implies listing[i].metadata.inode != listing[j].metadata.inode
        && listing[i].name != listing[j].name by {
        let a = listing[i].metadata.inode;
        let b = listing[j].metadata.inode;
        let d = job.ino;
        let names = (names_in(job.path, s.path)->0).push(listing[i].name);
        lemma_listed_is_below_new(job, listing[i], s, fs);
        lemma_listed_is_below_new(job, listing[j], s, fs);
    }
}

/// The jobs that wait after another listing are for the directories that lie at their paths.
proof fn lemma_jobs_stay_true(
    jobs: Seq<ScanJobView>,
    s: SnapshotView,
    fs: Map<u64, EntryView>,
    p: int,
    listing: Seq<DirRecordView>,
)
    requires
        is_tree(fs, s.root_inode->0),
        forall|j: int| 0 <= j < jobs.len() ==> is_true_job(#[trigger] jobs[j], s, fs),
        0 <= p < jobs.len(),
        is_listing_of(fs, jobs[p].ino, listing),
    ensures
        ({
            let all = jobs.remove(p) + scanned_jobs(jobs[p], listing);
            forall|j: int| 0 <= j < all.len() ==> is_true_job(#[trigger] all[j], s, fs)
        }),
{
    let job = jobs[p];
    let all = jobs.remove(p) + scanned_jobs(job, listing);
    lemma_scanned_jobs(job, listing);
    assert forall|j: int| 0 <= j < all.len() implies is_true_job(#[trigger] all[j], s, fs) by {
        let rest = jobs.remove(p);
        let found = scanned_jobs(job, listing);
        if j < rest.len() {
            let from = if j < p {
                j
            } else {
                j + 1
            };
            assert(all[j] == jobs[from]);
        } else {
            assert(all[j] == found[j - rest.len()]);
            let k = choose|k: int|
                0 <= k < listing.len() && (#[trigger] listing[k]).metadata.is_dir && found[j
                    - rest.len()] == child_job(job, listing[k]);
            lemma_listed_is_below_new(job, listing[k], s, fs);
        }
    }
}

/// Another listing keeps what holds.
proof fn lemma_listing_goes_on(
    m: SnapshotView,
    jobs: Seq<ScanJobView>,
    after: Map<u64, EntryView>,
    s: SnapshotView,
    files: SnapshotView,
    p: int,
    listing: Seq<DirRecordView>,
)
    requires
        listing_holds(m, jobs, after, s, files.entries),
        files.root_inode == s.root_inode,
        is_tree(files.entries, s.root_inode->0),
        0 <= p < jobs.len(),
        is_listing_of(files.entries, jobs[p].ino, listing),
        is_fresh(m.entries, listing),
    ensures
        listing_holds(
            advanced(m, jobs[p], listing),
            jobs.remove(p) + scanned_jobs(jobs[p], listing),
            after,
            s,
            files.entries,
        ),
{
    let fs = files.entries;
    let root = s.root_inode->0;
    let job = jobs[p];
    let next = advanced(m, job, listing);
    let all = jobs.remove(p) + scanned_jobs(job, listing);
    assert(is_ready(m, job));
    law_scan_goes_on(m, jobs, p, listing);
    lemma_advanced(m, job, listing);
    assert(is_true_job(job, s, fs));
    lemma_jobs_stay_true(jobs, s, fs, p, listing);
    assert forall|k: u64| #[trigger] next.entries.contains_key(k) && !after.contains_key(
        k,
    ) implies fs.contains_key(k) && fs[k].parent() is Some && {
        let d = fs[k].parent()->0;
        &&& next.entries.contains_key(d)
        &&& next.entries[d] is Dir
        &&& !next.entries[d]->pending
        &&& exists|names: Seq<Seq<u8>>| #[trigger]
            is_below_new(s.entries, fs, root, names) && resolved(fs, root, names) == Some(k)
    } by {
        if m.entries.contains_key(k) {
            let d = fs[k].parent()->0;
            assert(d != job.ino);
            assert(next.entries[d] == m.entries[d]);
        } else {
            let i = choose|i: int|
                0 <= i < listing.len() && (#[trigger] listing[i]).metadata.inode == k;
            lemma_listed_is_below_new(job, listing[i], s, fs);
        }
    }
}

/// What holds all through the listing of what is new.
proof fn lemma_listing_runs(
    end: EventBatchView,
    s: SnapshotView,
    files: SnapshotView,
    paths: Seq<Seq<u8>>,
    states: Seq<SnapshotView>,
    queues: Seq<Seq<ScanJobView>>,
    picks: Seq<int>,
    listings: Seq<Seq<DirRecordView>>,
    n: int,
)
    requires
        is_change(s, files, paths),
        batch_holds(end, s, files, paths, paths.len() as int),
        scan_holds(cleaned(end), end.jobs),
        is_parted(end, s, files),
        is_run(states, queues, picks, listings),
        states[0] == end.snapshot,
        queues[0] == end.jobs,
        forall|i: int|
            #![trigger listings[i]]
            0 <= i < listings.len() ==> lists(files, queues[i][picks[i]].path, listings[i]),
        0 <= n <= listings.len(),
    ensures
        listing_holds(
            listed_into(cleaned(end), queues, picks, listings, n),
            queues[n],
            cleaned(end).entries,
            s,
            files.entries,
        ),
        n > 0 ==> is_listing_of(
            files.entries,
            queues[n - 1][picks[n - 1]].ino,
            listings[n - 1],
        ) && is_fresh(
            listed_into(cleaned(end), queues, picks, listings, n - 1).entries,
            listings[n - 1],
        ),
    decreases n,
{
    let fs = files.entries;
    let after = cleaned(end).entries;
    if n == 0 {
        assert forall|j: int| 0 <= j < queues[0].len() implies is_true_job(
            #[trigger] queues[0][j],
            s,
            fs,
        ) by {
            assert(is_job_for_new(
                end.jobs[j],
                end.snapshot.entries,
                s,
                files,
                paths,
                paths.len() as int,
            ));
        }
    } else {
        lemma_listing_runs(end, s, files, paths, states, queues, picks, listings, n - 1);
        let m = listed_into(cleaned(end), queues, picks, listings, n - 1);
        let listing = listings[n - 1];
        let p = picks[n - 1];
        let job = queues[n - 1][p];
        assert(queues[n - 1 + 1] == queues[n - 1].remove(p) + scanned_jobs(job, listing));
        assert(is_true_job(job, s, fs));
        assert(files.inode_at(relative_to(job.path, files.path)->0) == Some(job.ino));
        assert(lists(files, job.path, listings[n - 1]));
        lemma_true_listing_is_fresh(m, queues[n - 1], after, s, files, p, listing);
        lemma_listing_goes_on(m, queues[n - 1], after, s, files, p, listing);
    }
}

/// What is known of the entries at the end of an update: `after` are those that the events left, and
/// `jobs` the directories that were listed.
spec fn is_result(
    end: Map<u64, EntryView>,
    after: Map<u64, EntryView>,
    s: SnapshotView,
    files: SnapshotView,
    jobs: Seq<ScanJobView>,
    listings: Seq<Seq<DirRecordView>>,
) -> bool {
    &&& is_tree(end, s.root_inode->0)
    &&& forall|k: u64| #[trigger] after.contains_key(k) ==> stays_put(after, end, k)
    &&& jobs.len() == listings.len()
    &&& forall|i: int|
        0 <= i < jobs.len() ==> keeps_listing(end, #[trigger] jobs[i], listings[i])
            && is_listing_of(files.entries, jobs[i].ino, listings[i])
    &&& forall|k: u64| #[trigger] after.contains_key(k) ==> !is_found_below_new(s, files, k)
    &&& forall|d: u64| #[trigger]
        end.contains_key(d) && end[d] is Dir ==> (after.contains_key(d) && after[d] is Dir
            && !after[d]->pending) || exists|i: int|
            0 <= i < jobs.len() && (#[trigger] jobs[i]).ino == d
}

/// A new directory has been listed at the end of an update.
proof fn lemma_new_is_listed(
    end: Map<u64, EntryView>,
    batch: EventBatchView,
    s: SnapshotView,
    files: SnapshotView,
    paths: Seq<Seq<u8>>,
    jobs: Seq<ScanJobView>,
    listings: Seq<Seq<DirRecordView>>,
    d: u64,
) -> (i: int)
    requires
        batch_holds(batch, s, files, paths, paths.len() as int),
        is_result(end, cleaned(batch).entries, s, files, jobs, listings),
        end.contains_key(d),
        end[d] is Dir,
        !s.entries.contains_key(d) || is_found_below_new(s, files, d),
    ensures
        0 <= i < jobs.len(),
        jobs[i].ino == d,
{
    let n = paths.len() as int;
    let m = batch.snapshot.entries;
    let fs = files.entries;
    let root = s.root_inode->0;
    let after = cleaned(batch).entries;
    assert(!(after.contains_key(d) && after[d] is Dir && !after[d]->pending)) by {
        if after.contains_key(d) && after[d] is Dir {
            assert(m.contains_key(d) && after[d] == m[d]);
            let names = choose|names: Seq<Seq<u8>>| #[trigger]
                is_new(s.entries, fs, root, names) && is_event(paths.take(n), s.path, names)
                    && resolved(fs, root, names) == Some(d);
            let j = choose|j: int|
                0 <= j < batch.jobs.len() && Some((#[trigger] batch.jobs[j]).ino) == resolved(
                    fs,
                    root,
                    names,
                );
            assert(is_job_for_new(batch.jobs[j], m, s, files, paths, n));
        }
    }
    choose|i: int| 0 <= i < jobs.len() && (#[trigger] jobs[i]).ino == d
}

/// What lies on the file system is known at the end of an update, with its parent and its name.
proof fn lemma_all_agrees(
    end: Map<u64, EntryView>,
    batch: EventBatchView,
    s: SnapshotView,
    files: SnapshotView,
    paths: Seq<Seq<u8>>,
    jobs: Seq<ScanJobView>,
    listings: Seq<Seq<DirRecordView>>,
    names: Seq<Seq<u8>>,
)
    requires
        is_change(s, files, paths),
        batch_holds(batch, s, files, paths, paths.len() as int),
        is_result(end, cleaned(batch).entries, s, files, jobs, listings),
        names.len() > 0,
        resolved(files.entries, s.root_inode->0, names) is Some,
    ensures
        ({
            let k = resolved(files.entries, s.root_inode->0, names)->0;
            &&& agrees(end, files.entries, k)
            &&& !s.entries.contains_key(k) || is_below_new(
                s.entries,
                files.entries,
                s.root_inode->0,
                names,
            ) ==> (end[k] is Dir) == (files.entries[k] is Dir)
        }),
    decreases names.len(),
{
    let n = paths.len() as int;
    let m = batch.snapshot.entries;
    let fs = files.entries;
    let root = s.root_inode->0;
    let after = cleaned(batch).entries;
    let k = resolved(fs, root, names)->0;
    assert(paths.take(n) =~= paths);
    if !is_below_new(s.entries, fs, root, names) {
        assert(is_done(paths, s.path, n, names));
        assert(agrees(m, fs, k));
        lemma_batch_leads(batch, s, files, paths, names);
        law_orphan_removal_leaves_a_tree(m, root, batch.possible_removed_inodes);
        lemma_resolved_has_lineage(after, root, names);
        assert(after.contains_key(k) && after[k] == m[k]);
        assert(stays_put(after, end, k));
    } else {
        let upper = names.drop_last();
        lemma_found_child(fs, root, names);
        let d = resolved(fs, root, upper)->0;
        let j = choose|j: int|
            0 <= j < names.len() && resolved(fs, root, #[trigger] names.take(j)) is Some
                && !s.entries.contains_key(resolved(fs, root, names.take(j))->0);
        assert(upper.len() > 0 && (!s.entries.contains_key(d) || is_below_new(
            s.entries,
            fs,
            root,
            upper,
        ))) by {
            if j == names.len() - 1 {
                assert(names.take(j) =~= upper);
                if upper.len() == 0 {
                    assert(s.entries.contains_key(root));
                }
            } else {
                assert(upper.take(j) =~= names.take(j));
                assert(is_below_new(s.entries, fs, root, upper));
            }
        }
        lemma_all_agrees(end, batch, s, files, paths, jobs, listings, upper);
        assert(fs[d].children().contains(k));
        assert(fs[d] is Dir);
        let i = lemma_new_is_listed(end, batch, s, files, paths, jobs, listings, d);
        assert(keeps_listing(end, jobs[i], listings[i]));
        assert(fs[k].parent() == Some(d));
        let t = choose|t: int|
            0 <= t < listings[i].len() && (#[trigger] listings[i][t]).metadata.inode == k;
        assert(listings[i][t].metadata.inode == k);
    }
}

/// Every path that is there on the file system leads to what is there, at the end of an update.
proof fn lemma_all_is_reached(
    end: Map<u64, EntryView>,
    batch: EventBatchView,
    s: SnapshotView,
    files: SnapshotView,
    paths: Seq<Seq<u8>>,
    jobs: Seq<ScanJobView>,
    listings: Seq<Seq<DirRecordView>>,
    names: Seq<Seq<u8>>,
)
    requires
        is_change(s, files, paths),
        batch_holds(batch, s, files, paths, paths.len() as int),
        is_result(end, cleaned(batch).entries, s, files, jobs, listings),
        resolved(files.entries, s.root_inode->0, names) is Some,
    ensures
        resolved(end, s.root_inode->0, names) == resolved(files.entries, s.root_inode->0, names),
{
    let fs = files.entries;
    let root = s.root_inode->0;
    assert forall|j: int|
        0 < j <= names.len() && resolved(fs, root, #[trigger] names.take(j)) is Some implies agrees(
        end,
        fs,
        resolved(fs, root, names.take(j))->0,
    ) by {
        lemma_all_agrees(end, batch, s, files, paths, jobs, listings, names.take(j));
    }
    lemma_agreed_way(end, fs, root, names);
}

/// What is not there on the file system is not reached at the end of an update, where there is an
/// event for it, or it lies below something new, or there is an event for all that directories have
/// lost.
proof fn lemma_nothing_else_is_reached(
    end: Map<u64, EntryView>,
    batch: EventBatchView,
    s: SnapshotView,
    files: SnapshotView,
    paths: Seq<Seq<u8>>,
    jobs: Seq<ScanJobView>,
    listings: Seq<Seq<DirRecordView>>,
    names: Seq<Seq<u8>>,
)
    requires
        is_change(s, files, paths),
        is_all_listed(s.entries),
        batch_holds(batch, s, files, paths, paths.len() as int),
        is_result(end, cleaned(batch).entries, s, files, jobs, listings),
        resolved(files.entries, s.root_inode->0, names) is None,
        is_event(paths, s.path, names) || is_below_new(
            s.entries,
            files.entries,
            s.root_inode->0,
            names,
        ) || is_told_of_losses(s, files, paths),
    ensures
        resolved(end, s.root_inode->0, names) is None,
    decreases names.len(),
{
    let fs = files.entries;
    let root = s.root_inode->0;
    assert(names.len() > 0);
    let upper = names.drop_last();
    assert(upper =~= names.take(names.len() - 1));
    if resolved(fs, root, upper) is Some {
        let d = resolved(fs, root, upper)->0;
        if is_below_new(s.entries, fs, root, names) {
            lemma_new_holds_nothing_else(
                end,
                batch,
                s,
                files,
                paths,
                jobs,
                listings,
                names,
                d,
            );
        } else {
            assert(holds(s.entries, d, names.last()) ==> is_event(paths, s.path, names));
            lemma_known_holds_nothing_else(
                end,
                batch,
                s,
                files,
                paths,
                jobs,
                listings,
                names,
                d,
            );
        }
    } else if is_below_new(s.entries, fs, root, names) || is_told_of_losses(s, files, paths) {
        if is_below_new(s.entries, fs, root, names) {
            lemma_directory_below_new(s.entries, fs, root, names);
        }
        lemma_nothing_else_is_reached(end, batch, s, files, paths, jobs, listings, upper);
        lemma_resolved_needs_prefix(end, root, names, names.len() - 1);
    } else {
        let i = choose|i: int|
            0 <= i < paths.len() && #[trigger] names_in(paths[i], s.path) == Some(names);
        assert(is_gone(s, files, paths, upper));
        reveal(is_gone);
        let j = choose|j: int|
            0 < j <= upper.len() && resolved(fs, root, #[trigger] upper.take(j)) is None && (
            is_event(paths, s.path, upper.take(j)) || (resolved(
                fs,
                root,
                upper.take(j - 1),
            ) matches Some(d) && !holds(s.entries, d, upper[j - 1])));
        let part = upper.take(j);
        assert(part =~= names.take(j));
        lemma_prefix_not_below_new(s.entries, fs, root, names, j);
        if is_event(paths, s.path, part) {
            lemma_nothing_else_is_reached(end, batch, s, files, paths, jobs, listings, part);
        } else {
            assert(part.drop_last() =~= upper.take(j - 1));
            assert(part.last() == upper[j - 1]);
            let d = resolved(fs, root, upper.take(j - 1))->0;
            lemma_known_holds_nothing_else(
                end,
                batch,
                s,
                files,
                paths,
                jobs,
                listings,
                part,
                d,
            );
        }
        lemma_resolved_needs_prefix(end, root, names, j);
    }
}

/// A directory that is new, or lies below something new, holds nothing that it does not hold on the
/// file system, at the end of an update.
proof fn lemma_new_holds_nothing_else(
    end: Map<u64, EntryView>,
    batch: EventBatchView,
    s: SnapshotView,
    files: SnapshotView,
    paths: Seq<Seq<u8>>,
    jobs: Seq<ScanJobView>,
    listings: Seq<Seq<DirRecordView>>,
    names: Seq<Seq<u8>>,
    d: u64,
)
    requires
        is_change(s, files, paths),
        batch_holds(batch, s, files, paths, paths.len() as int),
        is_result(end, cleaned(batch).entries, s, files, jobs, listings),
        resolved(files.entries, s.root_inode->0, names) is None,
        names.len() > 0,
        resolved(files.entries, s.root_inode->0, names.drop_last()) == Some(d),
        is_below_new(s.entries, files.entries, s.root_inode->0, names),
    ensures
        resolved(end, s.root_inode->0, names) is None,
{
    let fs = files.entries;
    let root = s.root_inode->0;
    let upper = names.drop_last();
    if resolved(end, root, names) is Some {
        let c = resolved(end, root, names)->0;
        lemma_found_child(end, root, names);
        lemma_all_is_reached(end, batch, s, files, paths, jobs, listings, upper);
        assert(end[c].parent() == Some(d));
        assert(end[d].children().contains(c));
        lemma_directory_below_new(s.entries, fs, root, names);
        assert(end[d] is Dir);
        let i = lemma_new_is_listed(end, batch, s, files, paths, jobs, listings, d);
        assert(keeps_listing(end, jobs[i], listings[i]));
        let t = end[d].children().index_of(c);
        assert(listed_inodes(listings[i])[t] == c);
        assert(listings[i][t].metadata.inode == c);
        lemma_child_is_found(fs, root, names, d, c);
    }
}

/// The directory of what lies below something new is new or lies below something new.
proof fn lemma_directory_below_new(
    m: Map<u64, EntryView>,
    fs: Map<u64, EntryView>,
    root: u64,
    names: Seq<Seq<u8>>,
)
    requires
        is_below_new(m, fs, root, names),
    ensures
        is_below_new(m, fs, root, names.drop_last()) || (resolved(
            fs,
            root,
            names.drop_last(),
        ) matches Some(d) && !m.contains_key(d)),
{
    let upper = names.drop_last();
    let j = choose|j: int|
        0 <= j < names.len() && resolved(fs, root, #[trigger] names.take(j)) is Some
            && !m.contains_key(resolved(fs, root, names.take(j))->0);
    if j == names.len() - 1 {
        assert(names.take(j) =~= upper);
    } else {
        assert(upper.take(j) =~= names.take(j));
    }
}

/// A directory that was known holds nothing of a name that is gone from it, at the end of an update:
/// where it was known to hold it there is an event.
proof fn lemma_known_holds_nothing_else(
    end: Map<u64, EntryView>,
    batch: EventBatchView,
    s: SnapshotView,
    files: SnapshotView,
    paths: Seq<Seq<u8>>,
    jobs: Seq<ScanJobView>,
    listings: Seq<Seq<DirRecordView>>,
    names: Seq<Seq<u8>>,
    d: u64,
)
    requires
        is_change(s, files, paths),
        is_all_listed(s.entries),
        batch_holds(batch, s, files, paths, paths.len() as int),
        is_result(end, cleaned(batch).entries, s, files, jobs, listings),
        resolved(files.entries, s.root_inode->0, names) is None,
        names.len() > 0,
        resolved(files.entries, s.root_inode->0, names.drop_last()) == Some(d),
        !is_below_new(s.entries, files.entries, s.root_inode->0, names),
        holds(s.entries, d, names.last()) ==> is_event(paths, s.path, names),
    ensures
        resolved(end, s.root_inode->0, names) is None,
{
    let m = batch.snapshot.entries;
    let fs = files.entries;
    let root = s.root_inode->0;
    let after = cleaned(batch).entries;
    let upper = names.drop_last();
    lemma_batch_leaves_nothing_else(batch, s, files, paths, names, d);
    if resolved(end, root, names) is Some {
        let c = resolved(end, root, names)->0;
        lemma_found_child(end, root, names);
        lemma_all_is_reached(end, batch, s, files, paths, jobs, listings, upper);
        assert(end[c].parent() == Some(d));
        assert(end[d].children().contains(c));
        assert(upper =~= names.take(names.len() - 1));
        lemma_prefix_not_below_new(s.entries, fs, root, names, names.len() - 1);
        assert(s.entries.contains_key(d)) by {
            if !s.entries.contains_key(d) {
                assert(resolved(fs, root, names.take(names.len() - 1)) is Some);
            }
        }
        lemma_batch_leads(batch, s, files, paths, upper);
        law_orphan_removal_leaves_a_tree(m, root, batch.possible_removed_inodes);
        lemma_resolved_has_lineage(after, root, upper);
        assert(after[d] == m[d]);
        assert(stays_put(after, end, d));
        assert(end[d] == after[d]);
        let t = after[d].children().index_of(c);
        assert(after[d].children()[t] == c);
        assert(after.contains_key(c) && after[c].parent() == Some(d));
        assert(stays_put(after, end, c));
        lemma_child_is_found(after, root, names, d, c);
    }
}

/// The directories that a scan lists, in order.
pub open spec fn listed_jobs(queues: Seq<Seq<ScanJobView>>, picks: Seq<int>) -> Seq<ScanJobView> {
    Seq::new(picks.len(), |i: int| queues[i][picks[i]])
}

/// The listing of what is new is a scan of the tree that the events left.
proof fn lemma_listing_is_a_scan(
    batch: EventBatchView,
    s: SnapshotView,
    files: SnapshotView,
    paths: Seq<Seq<u8>>,
    states: Seq<SnapshotView>,
    queues: Seq<Seq<ScanJobView>>,
    picks: Seq<int>,
    listings: Seq<Seq<DirRecordView>>,
)
    requires
        is_change(s, files, paths),
        batch_holds(batch, s, files, paths, paths.len() as int),
        scan_holds(cleaned(batch), batch.jobs),
        is_parted(batch, s, files),
        is_run(states, queues, picks, listings),
        states[0] == batch.snapshot,
        queues[0] == batch.jobs,
        forall|i: int|
            #![trigger listings[i]]
            0 <= i < listings.len() ==> lists(files, queues[i][picks[i]].path, listings[i]),
    ensures
        is_scan(
            states_from(cleaned(batch), queues, picks, listings, listings.len() as int),
            queues,
            picks,
            listings,
        ),
        forall|i: int|
            #![trigger listings[i]]
            0 <= i < listings.len() ==> is_listing_of(
                files.entries,
                queues[i][picks[i]].ino,
                listings[i],
            ),
{
    let start = cleaned(batch);
    let kept = states_from(start, queues, picks, listings, listings.len() as int);
    assert forall|i: int| #![trigger listings[i]] 0 <= i < listings.len() implies {
        &&& 0 <= picks[i] < queues[i].len()
        &&& is_fresh(kept[i].entries, listings[i])
        &&& kept[i + 1] == advanced(kept[i], queues[i][picks[i]], listings[i])
        &&& queues[i + 1] == queues[i].remove(picks[i]) + scanned_jobs(
            queues[i][picks[i]],
            listings[i],
        )
        &&& is_listing_of(files.entries, queues[i][picks[i]].ino, listings[i])
    } by {
        lemma_listing_runs(batch, s, files, paths, states, queues, picks, listings, i + 1);
    }
}

/// What is known once what is new is listed, with the orphans taken out before.
proof fn lemma_listing_has_result(
    batch: EventBatchView,
    s: SnapshotView,
    files: SnapshotView,
    paths: Seq<Seq<u8>>,
    states: Seq<SnapshotView>,
    queues: Seq<Seq<ScanJobView>>,
    picks: Seq<int>,
    listings: Seq<Seq<DirRecordView>>,
)
    requires
        is_change(s, files, paths),
        batch_holds(batch, s, files, paths, paths.len() as int),
        scan_holds(cleaned(batch), batch.jobs),
        is_parted(batch, s, files),
        is_run(states, queues, picks, listings),
        states[0] == batch.snapshot,
        queues[0] == batch.jobs,
        queues.last().len() == 0,
        forall|i: int|
            #![trigger listings[i]]
            0 <= i < listings.len() ==> lists(files, queues[i][picks[i]].path, listings[i]),
    ensures
        ({
            let part = listed_into(
                cleaned(batch),
                queues,
                picks,
                listings,
                listings.len() as int,
            );
            &&& is_result(
                part.entries,
                cleaned(batch).entries,
                s,
                files,
                listed_jobs(queues, picks),
                listings,
            )
            &&& is_all_listed(part.entries)
            &&& part.path == s.path
            &&& part.root_inode == s.root_inode
        }),
{
    let start = cleaned(batch);
    let n = listings.len() as int;
    let part = listed_into(start, queues, picks, listings, n);
    let kept = states_from(start, queues, picks, listings, n);
    let jobs = listed_jobs(queues, picks);
    let after = start.entries;
    lemma_listing_is_a_scan(batch, s, files, paths, states, queues, picks, listings);
    law_scan_run(kept, queues, picks, listings);
    assert(kept.last() == part);
    assert(kept[0] == start);
    assert forall|i: int| 0 <= i < jobs.len() implies keeps_listing(
        part.entries,
        #[trigger] jobs[i],
        listings[i],
    ) && is_listing_of(files.entries, jobs[i].ino, listings[i]) by {}
    assert forall|d: u64| #[trigger]
        part.entries.contains_key(d) && part.entries[d] is Dir implies (after.contains_key(d)
        && after[d] is Dir && !after[d]->pending) || exists|i: int|
        0 <= i < jobs.len() && (#[trigger] jobs[i]).ino == d by {
        if !(after.contains_key(d) && after[d] is Dir && !after[d]->pending) {
            let i = choose|i: int|
                0 <= i < listings.len() && (#[trigger] queues[i][picks[i]]).ino == d;
            assert(jobs[i].ino == d);
        }
    }
}

/// Of what came loose, that is put back by the listings which lies below something new.
proof fn lemma_put_back_is_below_new(
    batch: EventBatchView,
    s: SnapshotView,
    files: SnapshotView,
    paths: Seq<Seq<u8>>,
    states: Seq<SnapshotView>,
    queues: Seq<Seq<ScanJobView>>,
    picks: Seq<int>,
    listings: Seq<Seq<DirRecordView>>,
    x: u64,
)
    requires
        is_change(s, files, paths),
        batch_holds(batch, s, files, paths, paths.len() as int),
        scan_holds(cleaned(batch), batch.jobs),
        is_parted(batch, s, files),
        is_run(states, queues, picks, listings),
        states[0] == batch.snapshot,
        queues[0] == batch.jobs,
        queues.last().len() == 0,
        forall|i: int|
            #![trigger listings[i]]
            0 <= i < listings.len() ==> lists(files, queues[i][picks[i]].path, listings[i]),
        orphaned(batch.snapshot.entries, batch.possible_removed_inodes).contains(x),
    ensures
        listed_into(
            cleaned(batch),
            queues,
            picks,
            listings,
            listings.len() as int,
        ).entries.contains_key(x) == is_found_below_new(s, files, x),
{
    let root = s.root_inode->0;
    let fs = files.entries;
    let n = listings.len() as int;
    let part = listed_into(cleaned(batch), queues, picks, listings, n);
    let jobs = listed_jobs(queues, picks);
    lemma_listing_has_result(batch, s, files, paths, states, queues, picks, listings);
    lemma_listing_runs(batch, s, files, paths, states, queues, picks, listings, n);
    if is_found_below_new(s, files, x) {
        let names = choose|names: Seq<Seq<u8>>| #[trigger]
            is_below_new(s.entries, fs, root, names) && resolved(fs, root, names) == Some(x);
        lemma_all_agrees(part.entries, batch, s, files, paths, jobs, listings, names);
    }
    if part.entries.contains_key(x) {
        assert(!cleaned(batch).entries.contains_key(x));
    }
}

/// What is known at the end of an update.
proof fn lemma_update_has_result(
    batch: EventBatchView,
    s: SnapshotView,
    files: SnapshotView,
    paths: Seq<Seq<u8>>,
    states: Seq<SnapshotView>,
    queues: Seq<Seq<ScanJobView>>,
    picks: Seq<int>,
    listings: Seq<Seq<DirRecordView>>,
)
    requires
        is_change(s, files, paths),
        batch_holds(batch, s, files, paths, paths.len() as int),
        scan_holds(cleaned(batch), batch.jobs),
        is_parted(batch, s, files),
        is_run(states, queues, picks, listings),
        states[0] == batch.snapshot,
        queues[0] == batch.jobs,
        queues.last().len() == 0,
        forall|i: int|
            #![trigger listings[i]]
            0 <= i < listings.len() ==> lists(files, queues[i][picks[i]].path, listings[i]),
    ensures
        ({
            let end = without_orphans(states.last(), batch.possible_removed_inodes);
            let part = listed_into(
                cleaned(batch),
                queues,
                picks,
                listings,
                listings.len() as int,
            );
            &&& part.entries.submap_of(end.entries)
            &&& forall|k: u64| #[trigger]
                end.entries.contains_key(k) && !part.entries.contains_key(k) ==> orphaned(
                    batch.snapshot.entries,
                    batch.possible_removed_inodes,
                ).contains(k) && end.entries[k] == batch.snapshot.entries[k]
            &&& is_found_whole(batch, s, files) ==> end == part
            &&& end.path == s.path
            &&& end.root_inode == s.root_inode
        }),
{
    let root = s.root_inode->0;
    let candidates = batch.possible_removed_inodes;
    let m = batch.snapshot.entries;
    let part = listed_into(cleaned(batch), queues, picks, listings, listings.len() as int);
    lemma_listing_has_result(batch, s, files, paths, states, queues, picks, listings);
    law_orphans_can_be_taken_out_first(states, queues, picks, listings, root, candidates);
    if is_found_whole(batch, s, files) {
        assert forall|y: u64|
            orphaned(m, candidates).contains(y)
                && #[trigger] m[y].parent() is Some && part.entries.contains_key(
                m[y].parent()->0,
            ) implies part.entries.contains_key(y) by {
            let x = m[y].parent()->0;
            lemma_parent_is_gone_too(m, root, candidates, y);
            lemma_put_back_is_below_new(
                batch,
                s,
                files,
                paths,
                states,
                queues,
                picks,
                listings,
                x,
            );
            lemma_put_back_is_below_new(
                batch,
                s,
                files,
                paths,
                states,
                queues,
                picks,
                listings,
                y,
            );
        }
    }
}

/// The parent of what came loose, and has one, came loose.
proof fn lemma_parent_is_gone_too(
    m: Map<u64, EntryView>,
    root: u64,
    candidates: Seq<u64>,
    y: u64,
)
    requires
        is_forest(m, root, candidates),
        orphaned(m, candidates).contains(y),
        m[y].parent() is Some,
    ensures
        orphaned(m, candidates).contains(m[y].parent()->0),
{
    let x = m[y].parent()->0;
    assert(m.contains_key(y));
    assert(m.contains_key(x));
    assert(has_lineage(m, x));
    assert(has_lineage(m, y));
    let line = lineage(m, x);
    assert(is_lineage(m, line));
    lemma_lineage_extends(m, line, y);
    assert(line.push(y)[0] == line[0]);
    law_orphans_hang_on_candidates(m, candidates, x);
    law_orphans_hang_on_candidates(m, candidates, y);
}

/// What came loose is known from before.
proof fn lemma_loose_was_known(
    end: EventBatchView,
    s: SnapshotView,
    files: SnapshotView,
    paths: Seq<Seq<u8>>,
    k: u64,
)
    requires
        is_change(s, files, paths),
        batch_holds(end, s, files, paths, paths.len() as int),
        orphaned(end.snapshot.entries, end.possible_removed_inodes).contains(k),
    ensures
        s.entries.contains_key(k),
{
    let n = paths.len() as int;
    let fs = files.entries;
    let root = s.root_inode->0;
    let m = end.snapshot.entries;
    assert(m.contains_key(k));
    if !s.entries.contains_key(k) {
        let names = choose|names: Seq<Seq<u8>>| #[trigger]
            is_new(s.entries, fs, root, names) && is_event(paths.take(n), s.path, names)
                && resolved(fs, root, names) == Some(k);
        lemma_batch_leads(end, s, files, paths, names);
        law_orphan_removal_leaves_a_tree(m, root, end.possible_removed_inodes);
        lemma_resolved_has_lineage(cleaned(end).entries, root, names);
    }
}

/// A whole update brings the snapshot up to date.
///
/// The events of a change are processed, the directories that are new are listed with all that lies
/// below them, in whatever order, and the orphans are taken out. Where what lies below something new
/// is parted from the tree that the events leave, every directory is then listed. Every path that is
/// there on the file system leads to what is there, and every event path that is not there leads
/// nowhere. Where there is an event for all that directories have lost, no other path leads anywhere.
///
/// Where besides each directory that came loose is found below something new with all that it was
/// known to hold, or not at all, what is left is a tree.
pub proof fn law_update_reaches_every_path(
    batch: EventBatchView,
    files: SnapshotView,
    looks: spec_fn(Seq<u8>) -> Result<Option<EntryView>, WorktreeError>,
    states: Seq<SnapshotView>,
    queues: Seq<Seq<ScanJobView>>,
    picks: Seq<int>,
    listings: Seq<Seq<DirRecordView>>,
)
    requires
        is_change(batch.snapshot, files, batch.paths),
        is_all_listed(batch.snapshot.entries),
        sorted_paths(batch.paths),
        batch.possible_removed_inodes.len() == 0,
        batch.jobs.len() == 0,
        forall|i: int| 0 <= i < batch.paths.len() ==> tells(looks, files, #[trigger] batch.paths[i]),
        is_parted(processed(batch, looks), batch.snapshot, files),
        is_run(states, queues, picks, listings),
        states[0] == processed(batch, looks).snapshot,
        queues[0] == processed(batch, looks).jobs,
        queues.last().len() == 0,
        forall|i: int|
            #![trigger listings[i]]
            0 <= i < listings.len() ==> lists(files, queues[i][picks[i]].path, listings[i]),
    ensures
        ({
            let s = batch.snapshot;
            let end = without_orphans(
                states.last(),
                processed(batch, looks).possible_removed_inodes,
            );
            &&& end.path == s.path
            &&& end.root_inode == s.root_inode
            &&& is_all_listed(end.entries)
            &&& forall|relative_path: Seq<u8>| #[trigger]
                files.inode_at(relative_path) is Some ==> end.inode_at(relative_path)
                    == files.inode_at(relative_path)
            &&& forall|i: int|
                0 <= i < batch.paths.len() ==> (#[trigger] relative_to(
                    batch.paths[i],
                    end.path,
                ) matches Some(relative_path) ==> end.inode_at(relative_path) == files.inode_at(
                    relative_path,
                ))
            &&& is_told_of_losses(s, files, batch.paths) ==> forall|relative_path: Seq<u8>| #[trigger]
                end.inode_at(relative_path) == files.inode_at(relative_path)
            &&& is_found_whole(processed(batch, looks), s, files) ==> is_tree(
                end.entries,
                s.root_inode->0,
            )
        }),
{
    let s = batch.snapshot;
    let paths = batch.paths;
    let root = s.root_inode->0;
    let fs = files.entries;
    let last = processed(batch, looks);
    let end = without_orphans(states.last(), last.possible_removed_inodes);
    let part = listed_into(cleaned(last), queues, picks, listings, listings.len() as int);
    let jobs = listed_jobs(queues, picks);
    lemma_batch_begins(batch, files);
    lemma_batch_ends(batch, s, files, paths, 0, looks);
    law_batch_brings_the_snapshot_up_to_date(batch, files, looks);
    lemma_listing_has_result(last, s, files, paths, states, queues, picks, listings);
    lemma_update_has_result(last, s, files, paths, states, queues, picks, listings);
    assert forall|k: u64| #[trigger] end.entries.contains_key(k) implies !(end.entries[k] is Dir
        && end.entries[k]->pending) by {
        if part.entries.contains_key(k) {
            assert(end.entries[k] == part.entries[k]);
        } else {
            lemma_loose_was_known(last, s, files, paths, k);
        }
    }
    assert forall|names: Seq<Seq<u8>>|
        resolved(fs, root, names) is Some || is_event(paths, s.path, names) || is_told_of_losses(
            s,
            files,
            paths,
        ) implies #[trigger] resolved(end.entries, root, names) == resolved(fs, root, names) by {
        lemma_tree_leads_the_same(part.entries, end.entries, root, names);
        if resolved(fs, root, names) is Some {
            lemma_all_is_reached(part.entries, last, s, files, paths, jobs, listings, names);
        } else {
            lemma_nothing_else_is_reached(
                part.entries,
                last,
                s,
                files,
                paths,
                jobs,
                listings,
                names,
            );
        }
    }
    assert forall|relative_path: Seq<u8>| #[trigger]
        files.inode_at(relative_path) is Some implies end.inode_at(relative_path) == files.inode_at(
        relative_path,
    ) by {
        assert(resolved(end.entries, root, components(relative_path)) == resolved(
            fs,
            root,
            components(relative_path),
        ));
    }
    assert forall|i: int|
        0 <= i < paths.len() && #[trigger] relative_to(
            paths[i],
            end.path,
        ) is Some implies end.inode_at(relative_to(paths[i], end.path)->0) == files.inode_at(
        relative_to(paths[i], end.path)->0,
    ) by {
        let names = components(relative_to(paths[i], end.path)->0);
        assert(names_in(paths[i], s.path) == Some(names));
        assert(resolved(end.entries, root, names) == resolved(fs, root, names));
    }
    if is_told_of_losses(s, files, paths) {
        assert forall|relative_path: Seq<u8>| #[trigger]
            end.inode_at(relative_path) == files.inode_at(relative_path) by {
            assert(resolved(end.entries, root, components(relative_path)) == resolved(
                fs,
                root,
                components(relative_path),
            ));
        }
    }
}

} // verus!
