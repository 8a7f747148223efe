//! What every event of a batch keeps, where the events are those for a change of the file system.
use vstd::prelude::*;
use crate::batch::{can_process, processed, stepped, taken};
use crate::change::{
    agrees, holds, is_below_new, is_change, is_changed, is_event, is_gone, is_lookup_of, is_new,
    lemma_agreed_way, lemma_child_is_found, lemma_directory_comes_first, lemma_first_new, lemma_found_child, lemma_later_is_no_prefix,
    lemma_more_events, lemma_names_are_unique, lemma_nothing_below, lemma_one_more_event,
    lemma_prefix_not_below_new, lemma_prefix_of_names, lemma_prefix_of_prefix, lemma_same_way,
    names_in, tells,
};
use crate::entry::EntryView;
use crate::entry_tree::keyed_by_inode;
use crate::error::WorktreeError;
use crate::event_laws::{
    law_found_path_leads_to_what_was_found, law_listing_covers_the_events_below,
    law_vanished_path_leads_nowhere, lemma_cleared,
};
use crate::events::{new_job, recorded, sorted_paths, EventBatchView};
use crate::forest_laws::{
    is_forest, law_detach_keeps_the_forest, law_placing_touches_little, law_tree_is_a_forest,
    placed,
};
use crate::lineage::{law_lineage_does_not_repeat, lemma_lineage_prefix};
use crate::path::{components, path_ordered, path_starts_with, relative_to};
use crate::path_laws::is_plain_name;
use crate::scan::ScanJobView;
use crate::snapshot::{
    can_reparent, has_lineage, is_lineage, lemma_resolved_needs_prefix, lineage, names_along,
    reparented, resolved, SnapshotView,
};
use crate::tree_laws::{
    law_reparent_touches_little, lemma_lineage_extends, lemma_lineage_is, lemma_names_lead_down,
    lemma_resolved_has_lineage,
};

verus! {

/// Whether the entry that `names` lead to on the file system needs no more events: there is none for
/// `names`, or it has been processed.
pub open spec fn is_done(
    paths: Seq<Seq<u8>>,
    base: Seq<u8>,
    n: int,
    names: Seq<Seq<u8>>,
) -> bool {
    !is_event(paths, base, names) || is_event(paths.take(n), base, names)
}

/// Whether what is there on the file system, and needs no more events, is where it should be.
pub open spec fn is_settled(
    m: Map<u64, EntryView>,
    s: SnapshotView,
    files: SnapshotView,
    paths: Seq<Seq<u8>>,
    n: int,
) -> bool {
    let fs = files.entries;
    let root = s.root_inode->0;
    forall|names: Seq<Seq<u8>>|
        names.len() > 0 && #[trigger] resolved(fs, root, names) is Some && !is_below_new(
            s.entries,
            fs,
            root,
            names,
        ) && is_done(paths, s.path, n, names) ==> agrees(m, fs, resolved(fs, root, names)->0)
}

/// Whether nothing lies at the event paths so far that are not there on the file system.
pub open spec fn is_vacated(
    m: Map<u64, EntryView>,
    s: SnapshotView,
    files: SnapshotView,
    paths: Seq<Seq<u8>>,
    n: int,
) -> bool {
    let fs = files.entries;
    let root = s.root_inode->0;
    forall|names: Seq<Seq<u8>>| #[trigger]
        is_event(paths.take(n), s.path, names) && resolved(fs, root, names) is None ==> resolved(
            m,
            root,
            names,
        ) is None
}

/// Whether something lies at `names` on the file system that the snapshot did not know.
pub open spec fn is_unknown(s: SnapshotView, files: SnapshotView, names: Seq<Seq<u8>>) -> bool {
    let there = resolved(files.entries, s.root_inode->0, names);
    there is Some && !s.entries.contains_key(there->0)
}

/// Whether the events at and below what is new have been passed over.
pub open spec fn is_passed(s: SnapshotView, files: SnapshotView, paths: Seq<Seq<u8>>, n: int) -> bool {
    forall|names: Seq<Seq<u8>>, i: int|
        #![trigger is_event(paths.take(n), s.path, names), names_in(paths[i], s.path)]
        is_event(paths.take(n), s.path, names) && is_unknown(s, files, names) && n <= i
            < paths.len() ==> (names_in(paths[i], s.path) matches Some(t) ==> !names.is_prefix_of(
            t,
        ))
}

/// Whether `k` is new on the file system, and its event is among the first `n`.
pub open spec fn has_arrived(
    s: SnapshotView,
    files: SnapshotView,
    paths: Seq<Seq<u8>>,
    n: int,
    k: u64,
) -> bool {
    let fs = files.entries;
    let root = s.root_inode->0;
    exists|names: Seq<Seq<u8>>| #[trigger]
        is_new(s.entries, fs, root, names) && is_event(paths.take(n), s.path, names) && resolved(
            fs,
            root,
            names,
        ) == Some(k)
}

/// Whether what the snapshot knew is known, of the kind that it was, and what is new has come with
/// its event and holds nothing yet.
pub open spec fn is_grown(
    m: Map<u64, EntryView>,
    s: SnapshotView,
    files: SnapshotView,
    paths: Seq<Seq<u8>>,
    n: int,
) -> bool {
    &&& forall|k: u64| #[trigger]
        s.entries.contains_key(k) ==> m.contains_key(k) && (m[k] is Dir) == (s.entries[k] is Dir)
            && (s.entries[k] is Dir ==> m[k]->pending == s.entries[k]->pending)
    &&& forall|k: u64| #[trigger]
        m.contains_key(k) && !s.entries.contains_key(k) ==> m[k].children().len() == 0 && (
        m[k] is Dir) == (files.entries[k] is Dir) && has_arrived(s, files, paths, n, k)
}

/// Whether every entry has come loose, or is where it should be, or is where the snapshot had it.
#[verifier::opaque]
pub open spec fn is_traced(m: Map<u64, EntryView>, s: SnapshotView, files: SnapshotView) -> bool {
    forall|k: u64| #[trigger]
        m.contains_key(k) ==> m[k].parent() is None || (files.entries.contains_key(k) && agrees(
            m,
            files.entries,
            k,
        )) || (s.entries.contains_key(k) && m[k].parent() == s.entries[k].parent() && m[k].name()
            == s.entries[k].name())
}

/// Whether `job` lists a new directory whose event is among the first `n`.
pub open spec fn is_job_for_new(
    job: ScanJobView,
    m: Map<u64, EntryView>,
    s: SnapshotView,
    files: SnapshotView,
    paths: Seq<Seq<u8>>,
    n: int,
) -> bool {
    let fs = files.entries;
    let root = s.root_inode->0;
    &&& names_in(job.path, s.path) is Some
    &&& is_event(paths.take(n), s.path, names_in(job.path, s.path)->0)
    &&& is_new(s.entries, fs, root, names_in(job.path, s.path)->0)
    &&& resolved(fs, root, names_in(job.path, s.path)->0) == Some(job.ino)
    &&& fs[job.ino] is Dir
    &&& m.contains_key(job.ino)
    &&& m[job.ino] == job.dir_entry
    &&& job.dir_entry is Dir
    &&& job.dir_entry->pending
    &&& job.dir_entry.ino() == job.ino
    &&& job.dir_entry.children().len() == 0
}

/// Whether `jobs` are those for the new directories whose events are among the first `n`.
pub open spec fn is_queued(
    jobs: Seq<ScanJobView>,
    m: Map<u64, EntryView>,
    s: SnapshotView,
    files: SnapshotView,
    paths: Seq<Seq<u8>>,
    n: int,
) -> bool {
    let fs = files.entries;
    let root = s.root_inode->0;
    &&& forall|i: int|
        0 <= i < jobs.len() ==> is_job_for_new(#[trigger] jobs[i], m, s, files, paths, n)
    &&& forall|i: int, j: int|
        #![trigger jobs[i], jobs[j]]
        0 <= i < j < jobs.len() ==> jobs[i].ino != jobs[j].ino
    &&& forall|names: Seq<Seq<u8>>| #[trigger]
        is_new(s.entries, fs, root, names) && is_event(paths.take(n), s.path, names) && fs[resolved(
            fs,
            root,
            names,
        )->0] is Dir ==> exists|i: int|
            0 <= i < jobs.len() && Some((#[trigger] jobs[i]).ino) == resolved(fs, root, names)
}

/// What holds of a batch after its first `n` events.
pub open spec fn batch_holds(
    batch: EventBatchView,
    s: SnapshotView,
    files: SnapshotView,
    paths: Seq<Seq<u8>>,
    n: int,
) -> bool {
    let m = batch.snapshot.entries;
    &&& 0 <= n <= paths.len()
    &&& batch.paths == paths.skip(n)
    &&& batch.snapshot.path == s.path
    &&& batch.snapshot.root_inode == s.root_inode
    &&& is_forest(m, s.root_inode->0, batch.possible_removed_inodes)
    &&& !batch.possible_removed_inodes.contains(s.root_inode->0)
    &&& keyed_by_inode(m)
    &&& is_grown(m, s, files, paths, n)
    &&& is_traced(m, s, files)
    &&& is_settled(m, s, files, paths, n)
    &&& is_vacated(m, s, files, paths, n)
    &&& is_passed(s, files, paths, n)
    &&& is_queued(batch.jobs, m, s, files, paths, n)
}

/// A batch begins with what holds all through it.
pub proof fn lemma_batch_begins(batch: EventBatchView, files: SnapshotView)
    requires
        is_change(batch.snapshot, files, batch.paths),
        batch.possible_removed_inodes.len() == 0,
        batch.jobs.len() == 0,
    ensures
        batch_holds(batch, batch.snapshot, files, batch.paths, 0),
{
    let s = batch.snapshot;
    let m = s.entries;
    let fs = files.entries;
    let root = s.root_inode->0;
    let paths = batch.paths;
    law_tree_is_a_forest(m, root, batch.possible_removed_inodes);
    assert(is_traced(m, s, files)) by {
        reveal(is_traced);
    }
    assert(paths.skip(0) =~= paths);
    assert forall|names: Seq<Seq<u8>>| !is_event(#[trigger] paths.take(0), s.path, names) by {}
    assert(is_settled(m, s, files, paths, 0)) by {
        assert forall|names: Seq<Seq<u8>>|
            names.len() > 0 && #[trigger] resolved(fs, root, names) is Some && !is_below_new(
                s.entries,
                fs,
                root,
                names,
            ) && is_done(paths, s.path, 0, names) implies agrees(
            m,
            fs,
            resolved(fs, root, names)->0,
        ) by {
            let k = resolved(fs, root, names)->0;
            assert(!is_event(paths.take(0), s.path, names));
            assert(!is_changed(m, fs, root, names));
            reveal(is_changed);
        }
    }
}

/// The next event does not lie below something new: such events have been passed over.
proof fn lemma_next_is_not_below_new(
    s: SnapshotView,
    files: SnapshotView,
    paths: Seq<Seq<u8>>,
    n: int,
    names: Seq<Seq<u8>>,
)
    requires
        is_change(s, files, paths),
        sorted_paths(paths),
        is_passed(s, files, paths, n),
        0 <= n < paths.len(),
        names_in(paths[n], s.path) == Some(names),
    ensures
        !is_below_new(s.entries, files.entries, s.root_inode->0, names),
{
    let m = s.entries;
    let fs = files.entries;
    let root = s.root_inode->0;
    if is_below_new(m, fs, root, names) {
        let j = choose|j: int|
            0 <= j < names.len() && resolved(fs, root, #[trigger] names.take(j)) is Some
                && !m.contains_key(resolved(fs, root, names.take(j))->0);
        let i = lemma_first_new(m, fs, root, names, j);
        let part = names.take(i);
        assert(part.len() > 0) by {
            if part.len() == 0 {
                assert(m.contains_key(root));
            }
        }
        assert(is_changed(m, fs, root, part)) by {
            reveal(is_changed);
        }
        assert(part.is_prefix_of(names)) by {
            assert(part =~= names.subrange(0, part.len() as int));
        }
        lemma_directory_comes_first(paths, s.path, n, part);
        assert(is_unknown(s, files, part));
    }
}

/// Everything on the way to the directory of the next event is where it should be.
proof fn lemma_way_is_clear(
    batch: EventBatchView,
    s: SnapshotView,
    files: SnapshotView,
    paths: Seq<Seq<u8>>,
    n: int,
    names: Seq<Seq<u8>>,
)
    requires
        is_change(s, files, paths),
        sorted_paths(paths),
        batch_holds(batch, s, files, paths, n),
        n < paths.len(),
        names_in(paths[n], s.path) is Some,
        names.is_prefix_of(names_in(paths[n], s.path)->0),
        names.len() < (names_in(paths[n], s.path)->0).len(),
        resolved(files.entries, s.root_inode->0, names) is Some,
    ensures
        ({
            let m = batch.snapshot.entries;
            let fs = files.entries;
            let root = s.root_inode->0;
            let d = resolved(fs, root, names)->0;
            &&& resolved(m, root, names) == Some(d)
            &&& has_lineage(m, d)
            &&& lineage(m, d) == lineage(fs, d)
            &&& lineage(m, d)[0] == root
        }),
{
    let m = batch.snapshot.entries;
    let fs = files.entries;
    let root = s.root_inode->0;
    let whole = names_in(paths[n], s.path)->0;
    lemma_next_is_not_below_new(s, files, paths, n, whole);
    assert forall|j: int|
        0 < j <= names.len() && resolved(fs, root, #[trigger] names.take(j)) is Some implies agrees(
        m,
        fs,
        resolved(fs, root, names.take(j))->0,
    ) by {
        let part = names.take(j);
        assert(part.is_prefix_of(whole)) by {
            assert forall|i: int| 0 <= i < part.len() implies part[i] == whole[i] by {
                assert(names[i] == whole.subrange(0, names.len() as int)[i]);
            }
            assert(part =~= whole.subrange(0, part.len() as int));
        }
        assert(part =~= whole.take(j));
        lemma_prefix_not_below_new(s.entries, fs, root, whole, j);
        if is_event(paths, s.path, part) {
            lemma_directory_comes_first(paths, s.path, n, part);
        }
        assert(is_done(paths, s.path, n, part));
    }
    lemma_agreed_way(m, fs, root, names);
}

/// Nothing is left in the directory of the next event where that is gone.
proof fn lemma_gone_leads_nowhere(
    batch: EventBatchView,
    s: SnapshotView,
    files: SnapshotView,
    paths: Seq<Seq<u8>>,
    n: int,
    upper: Seq<Seq<u8>>,
)
    requires
        is_change(s, files, paths),
        sorted_paths(paths),
        batch_holds(batch, s, files, paths, n),
        n < paths.len(),
        names_in(paths[n], s.path) is Some,
        (names_in(paths[n], s.path)->0).len() > 0,
        upper == (names_in(paths[n], s.path)->0).drop_last(),
        is_gone(s, files, paths, upper),
    ensures
        resolved(batch.snapshot.entries, s.root_inode->0, upper) is None,
{
    let m = batch.snapshot.entries;
    let fs = files.entries;
    let root = s.root_inode->0;
    let names = names_in(paths[n], s.path)->0;
    reveal(is_gone);
    reveal(is_traced);
    let j = choose|j: int|
        0 < j <= upper.len() && resolved(fs, root, #[trigger] upper.take(j)) is None && (is_event(
            paths,
            s.path,
            upper.take(j),
        ) || (resolved(fs, root, upper.take(j - 1)) matches Some(d) && !holds(
            s.entries,
            d,
            upper[j - 1],
        )));
    let part = upper.take(j);
    assert(part =~= names.subrange(0, j));
    assert(resolved(m, root, part) is None) by {
        if is_event(paths, s.path, part) {
            lemma_directory_comes_first(paths, s.path, n, part);
        } else if resolved(m, root, part) is Some {
            let above = upper.take(j - 1);
            let d = resolved(fs, root, above)->0;
            assert(part.drop_last() =~= above);
            assert(above =~= names.subrange(0, j - 1));
            lemma_way_is_clear(batch, s, files, paths, n, above);
            lemma_found_child(m, root, part);
            let x = resolved(m, root, part)->0;
            assert(part.last() == upper[j - 1]);
            if files.entries.contains_key(x) && agrees(m, fs, x) {
                lemma_child_is_found(fs, root, part, d, x);
            }
            assert(s.entries.contains_key(x));
            assert(holds(s.entries, d, upper[j - 1]));
        }
    }
    if resolved(m, root, upper) is Some {
        lemma_resolved_needs_prefix(m, root, upper, j);
    }
}

/// What the next event detaches is not where it should be.
proof fn lemma_detached_is_astray(
    batch: EventBatchView,
    s: SnapshotView,
    files: SnapshotView,
    paths: Seq<Seq<u8>>,
    n: int,
    c: u64,
)
    requires
        is_change(s, files, paths),
        sorted_paths(paths),
        batch_holds(batch, s, files, paths, n),
        n < paths.len(),
        names_in(paths[n], s.path) is Some,
        (names_in(paths[n], s.path)->0).len() > 0,
        resolved(batch.snapshot.entries, s.root_inode->0, names_in(paths[n], s.path)->0) == Some(c),
        resolved(files.entries, s.root_inode->0, names_in(paths[n], s.path)->0) != Some(c),
        files.entries.contains_key(c),
    ensures
        !agrees(batch.snapshot.entries, files.entries, c),
{
    let m = batch.snapshot.entries;
    let fs = files.entries;
    let root = s.root_inode->0;
    let names = names_in(paths[n], s.path)->0;
    let upper = names.drop_last();
    assert(upper =~= names.subrange(0, upper.len() as int));
    assert(upper =~= names.take(names.len() - 1));
    lemma_found_child(m, root, names);
    lemma_next_is_not_below_new(s, files, paths, n, names);
    if agrees(m, fs, c) {
        if resolved(fs, root, upper) is Some {
            lemma_way_is_clear(batch, s, files, paths, n, upper);
            let d = resolved(fs, root, upper)->0;
            lemma_resolved_has_lineage(fs, root, upper);
            let line = lineage(fs, d);
            lemma_lineage_extends(fs, line, c);
            let longer = line.push(c);
            assert(is_lineage(fs, line));
            assert(longer[0] == root);
            assert(names_along(fs, longer).skip(1) =~= names) by {
                let had = names_along(fs, line);
                assert(names_along(fs, longer) =~= had.push(names.last()));
                assert(had.push(names.last()).skip(1) =~= had.skip(1).push(names.last()));
                assert(upper.push(names.last()) =~= names);
            }
            lemma_names_lead_down(fs, longer);
        } else {
            assert(names_in(paths[n], s.path) == Some(names));
            lemma_gone_leads_nowhere(batch, s, files, paths, n, upper);
        }
    }
}

/// Detaching an entry opens no way that was not there.
proof fn lemma_detach_opens_no_way(
    m: Map<u64, EntryView>,
    root: u64,
    strays: Seq<u64>,
    c: u64,
    names: Seq<Seq<u8>>,
)
    requires
        is_forest(m, root, strays),
        m.contains_key(c),
        c != root,
        resolved(m, root, names) is None,
    ensures
        resolved(reparented(m, c, m[c].parent(), None), root, names) is None,
{
    let after = reparented(m, c, m[c].parent(), None);
    law_detach_keeps_the_forest(m, root, strays, c);
    if resolved(after, root, names) is Some {
        lemma_resolved_has_lineage(after, root, names);
        let line = lineage(after, resolved(after, root, names)->0);
        assert(is_lineage(after, line));
        law_reparent_touches_little(m, c, m[c].parent(), None, c);
        assert forall|i: int| 0 <= i < line.len() implies m.contains_key(#[trigger] line[i])
            && m[line[i]].name() == after[line[i]].name() && m[line[i]].parent()
            == after[line[i]].parent() by {
            assert(after.contains_key(line[i]));
            if i > 0 {
                assert(after[line[i]].parent() == Some(line[i - 1]));
            }
            law_reparent_touches_little(m, c, m[c].parent(), None, line[i]);
        }
        lemma_same_way(after, m, root, line, names);
    }
}

/// Placing an entry opens no way but to it and through it.
proof fn lemma_placing_opens_one_way(
    m: Map<u64, EntryView>,
    root: u64,
    strays: Seq<u64>,
    entry: EntryView,
    place: Seq<Seq<u8>>,
    names: Seq<Seq<u8>>,
)
    requires
        is_forest(m, root, strays),
        is_forest(placed(m, entry), root, strays),
        entry.ino() != root,
        resolved(placed(m, entry), root, place) == Some(entry.ino()),
        resolved(m, root, names) is None,
        resolved(placed(m, entry), root, names) is Some,
    ensures
        place.is_prefix_of(names),
{
    let k = entry.ino();
    let after = placed(m, entry);
    lemma_resolved_has_lineage(after, root, names);
    lemma_resolved_has_lineage(after, root, place);
    let line = lineage(after, resolved(after, root, names)->0);
    assert(is_lineage(after, line));
    if line.contains(k) {
        let t = line.index_of(k);
        lemma_lineage_prefix(after, line, t + 1);
        lemma_lineage_is(after, line.take(t + 1));
        let part = names_along(after, line.take(t + 1)).skip(1);
        assert(part == place);
        assert(names.len() == line.len() - 1);
        assert forall|i: int| 0 <= i < place.len() implies place[i] == names[i] by {
            assert(names_along(after, line).skip(1)[i] == part[i]);
        }
        assert(place =~= names.subrange(0, place.len() as int));
    } else {
        assert forall|i: int| 0 <= i < line.len() implies m.contains_key(#[trigger] line[i])
            && m[line[i]].name() == after[line[i]].name() && m[line[i]].parent()
            == after[line[i]].parent() by {
            assert(after.contains_key(line[i]));
            assert(line.contains(line[i]));
            law_placing_touches_little(m, entry, line[i]);
        }
        lemma_same_way(after, m, root, line, names);
    }
}

/// What can be taken out of its parent in a forest.
proof fn lemma_can_leave(m: Map<u64, EntryView>, root: u64, strays: Seq<u64>, c: u64, to: Option<u64>)
    requires
        is_forest(m, root, strays),
        m.contains_key(c),
        to matches Some(q) ==> m[q] is Dir,
    ensures
        can_reparent(m, c, m[c].parent(), to),
{
    if m[c].parent() is Some {
        let p = m[c].parent()->0;
        assert(m.contains_key(p) && m[p].children().contains(c));
        let i = m[p].children().index_of(c);
        assert(m[p].children().len() > 0);
    }
}

/// Whether an event leaves an entry where it was.
pub open spec fn is_left_alone(m: Map<u64, EntryView>, after: Map<u64, EntryView>, x: u64) -> bool {
    &&& after.contains_key(x)
    &&& after[x].parent() == m[x].parent()
    &&& after[x].name() == m[x].name()
}

/// What has arrived stays arrived.
proof fn lemma_arrived_stays(
    s: SnapshotView,
    files: SnapshotView,
    paths: Seq<Seq<u8>>,
    n: int,
    more: int,
    k: u64,
)
    requires
        0 <= n <= more <= paths.len(),
        has_arrived(s, files, paths, n, k),
    ensures
        has_arrived(s, files, paths, more, k),
{
    let fs = files.entries;
    let root = s.root_inode->0;
    let names = choose|names: Seq<Seq<u8>>| #[trigger]
        is_new(s.entries, fs, root, names) && is_event(paths.take(n), s.path, names) && resolved(
            fs,
            root,
            names,
        ) == Some(k);
    lemma_more_events(paths, s.path, n, more, names);
}

/// What is new and has arrived is where it should be.
pub proof fn lemma_arrived_is_settled(
    batch: EventBatchView,
    s: SnapshotView,
    files: SnapshotView,
    paths: Seq<Seq<u8>>,
    n: int,
    x: u64,
)
    requires
        is_change(s, files, paths),
        batch_holds(batch, s, files, paths, n),
        batch.snapshot.entries.contains_key(x),
        !s.entries.contains_key(x),
    ensures
        agrees(batch.snapshot.entries, files.entries, x),
        files.entries.contains_key(x),
{
    let fs = files.entries;
    let root = s.root_inode->0;
    let names = choose|names: Seq<Seq<u8>>| #[trigger]
        is_new(s.entries, fs, root, names) && is_event(paths.take(n), s.path, names) && resolved(
            fs,
            root,
            names,
        ) == Some(x);
    lemma_resolved_has_lineage(fs, root, names);
    if names.len() == 0 {
        assert(s.entries.contains_key(root));
    }
    assert(is_done(paths, s.path, n, names));
}

/// The jobs of a batch stay what they are when an event leaves their directories alone, and queues
/// none.
proof fn lemma_jobs_stay(
    batch: EventBatchView,
    entries: Map<u64, EntryView>,
    s: SnapshotView,
    files: SnapshotView,
    paths: Seq<Seq<u8>>,
    n: int,
)
    requires
        batch_holds(batch, s, files, paths, n),
        n < paths.len(),
        forall|i: int|
            0 <= i < batch.jobs.len() ==> entries.contains_key((#[trigger] batch.jobs[i]).ino)
                && entries[batch.jobs[i].ino] == batch.snapshot.entries[batch.jobs[i].ino],
        names_in(paths[n], s.path) matches Some(names) ==> !is_unknown(s, files, names),
    ensures
        is_queued(batch.jobs, entries, s, files, paths, n + 1),
{
    let jobs = batch.jobs;
    let fs = files.entries;
    let root = s.root_inode->0;
    assert forall|i: int| 0 <= i < jobs.len() implies is_job_for_new(
        #[trigger] jobs[i],
        entries,
        s,
        files,
        paths,
        n + 1,
    ) by {
        assert(is_job_for_new(jobs[i], batch.snapshot.entries, s, files, paths, n));
        lemma_more_events(paths, s.path, n, n + 1, names_in(jobs[i].path, s.path)->0);
    }
    assert forall|names: Seq<Seq<u8>>| #[trigger]
        is_new(s.entries, fs, root, names) && is_event(paths.take(n + 1), s.path, names)
            && fs[resolved(fs, root, names)->0] is Dir implies exists|i: int|
        0 <= i < jobs.len() && Some((#[trigger] jobs[i]).ino) == resolved(fs, root, names) by {
        lemma_more_events(paths, s.path, n, n + 1, names);
        assert(is_unknown(s, files, names));
        assert(is_event(paths.take(n), s.path, names));
    }
}

/// What has been passed over stays so when the next event is for nothing new.
proof fn lemma_passed_stays(s: SnapshotView, files: SnapshotView, paths: Seq<Seq<u8>>, n: int)
    requires
        0 <= n < paths.len(),
        is_passed(s, files, paths, n),
        names_in(paths[n], s.path) matches Some(names) ==> !is_unknown(s, files, names),
    ensures
        is_passed(s, files, paths, n + 1),
{
    assert forall|names: Seq<Seq<u8>>, i: int|
        #![trigger is_event(paths.take(n + 1), s.path, names), names_in(paths[i], s.path)]
        is_event(paths.take(n + 1), s.path, names) && is_unknown(s, files, names) && n + 1 <= i
            < paths.len() && names_in(paths[i], s.path) is Some implies !names.is_prefix_of(
        names_in(paths[i], s.path)->0,
    ) by {
        lemma_more_events(paths, s.path, n, n + 1, names);
        assert(is_event(paths.take(n), s.path, names));
    }
}

/// A directory that is new lists nothing, so that it is no entry's parent.
proof fn lemma_new_is_no_parent(
    batch: EventBatchView,
    s: SnapshotView,
    files: SnapshotView,
    paths: Seq<Seq<u8>>,
    n: int,
    x: u64,
    c: u64,
)
    requires
        batch_holds(batch, s, files, paths, n),
        batch.snapshot.entries.contains_key(x),
        !s.entries.contains_key(x),
        batch.snapshot.entries.contains_key(c),
    ensures
        batch.snapshot.entries[c].parent() != Some(x),
{
    let m = batch.snapshot.entries;
    if m[c].parent() == Some(x) {
        assert(m[x].children().contains(c));
    }
}

/// Where entries are, once one of them is detached.
proof fn lemma_detaching_traces(
    m: Map<u64, EntryView>,
    s: SnapshotView,
    files: SnapshotView,
    c: u64,
)
    requires
        is_traced(m, s, files),
        m.contains_key(c),
    ensures
        is_traced(reparented(m, c, m[c].parent(), None), s, files),
{
    let entries = reparented(m, c, m[c].parent(), None);
    reveal(is_traced);
    assert forall|k: u64| #[trigger] entries.contains_key(k) implies entries[k].parent() is None || (
    files.entries.contains_key(k) && agrees(entries, files.entries, k)) || (
    s.entries.contains_key(k) && entries[k].parent() == s.entries[k].parent() && entries[k].name()
        == s.entries[k].name()) by {
        assert(m.contains_key(k));
        law_reparent_touches_little(m, c, m[c].parent(), None, k);
    }
}

/// The next event, where nothing is found and something is detached.
proof fn lemma_step_detaches(
    batch: EventBatchView,
    s: SnapshotView,
    files: SnapshotView,
    paths: Seq<Seq<u8>>,
    n: int,
    relative_path: Seq<u8>,
    c: u64,
)
    requires
        is_change(s, files, paths),
        sorted_paths(paths),
        batch_holds(batch, s, files, paths, n),
        n < paths.len(),
        relative_to(paths[n], s.path) == Some(relative_path),
        resolved(files.entries, s.root_inode->0, components(relative_path)) is None,
        resolved(batch.snapshot.entries, s.root_inode->0, components(relative_path)) == Some(c),
    ensures
        batch_holds(
            taken(batch).applied(paths[n], relative_path, Ok(None)),
            s,
            files,
            paths,
            n + 1,
        ),
        taken(batch).can_apply(relative_path, Ok(None)),
{
    let b = taken(batch);
    let m = batch.snapshot.entries;
    let fs = files.entries;
    let root = s.root_inode->0;
    let strays = batch.possible_removed_inodes;
    let names = components(relative_path);
    let after = b.applied(paths[n], relative_path, Ok(None));
    let entries = after.snapshot.entries;
    assert(names_in(paths[n], s.path) == Some(names));
    assert(paths.skip(n).drop_first() =~= paths.skip(n + 1));
    assert(names.len() > 0);
    lemma_found_child(m, root, names);
    assert(b.snapshot.entry_at(relative_path) == Some(m[c]));
    assert(m[c].ino() == c);
    lemma_can_leave(m, root, strays, c, None);
    law_vanished_path_leads_nowhere(b, root, paths[n], relative_path);
    law_detach_keeps_the_forest(m, root, strays, c);
    assert(entries == reparented(m, c, m[c].parent(), None));
    law_reparent_touches_little(m, c, m[c].parent(), None, c);
    assert(!recorded(strays, c).contains(root)) by {
        if recorded(strays, c).contains(root) {
            let i = recorded(strays, c).index_of(root);
            if i < strays.len() {
                assert(strays[i] == root);
            }
        }
    }
    assert(keyed_by_inode(entries)) by {
        assert forall|k: u64| #[trigger] entries.contains_key(k) implies entries[k].ino() == k by {
            assert(m.contains_key(k));
            law_reparent_touches_little(m, c, m[c].parent(), None, k);
        }
    }
    assert(is_grown(entries, s, files, paths, n + 1)) by {
        assert forall|k: u64| #[trigger] s.entries.contains_key(k) implies entries.contains_key(k)
            && (entries[k] is Dir) == (s.entries[k] is Dir) && (s.entries[k] is Dir
            ==> entries[k]->pending == s.entries[k]->pending) by {
            assert(m.contains_key(k));
            law_reparent_touches_little(m, c, m[c].parent(), None, k);
        }
        assert forall|k: u64| #[trigger]
            entries.contains_key(k) && !s.entries.contains_key(k) implies entries[k].children().len()
            == 0 && (entries[k] is Dir) == (fs[k] is Dir) && has_arrived(
            s,
            files,
            paths,
            n + 1,
            k,
        ) by {
            assert(m.contains_key(k));
            lemma_arrived_stays(s, files, paths, n, n + 1, k);
            lemma_new_is_no_parent(batch, s, files, paths, n, k, c);
            law_reparent_touches_little(m, c, m[c].parent(), None, k);
            assert(entries[k].children() == m[k].children());
        }
    }
    lemma_detaching_traces(m, s, files, c);
    assert(is_settled(entries, s, files, paths, n + 1)) by {
        assert forall|other: Seq<Seq<u8>>|
            other.len() > 0 && #[trigger] resolved(fs, root, other) is Some && !is_below_new(
                s.entries,
                fs,
                root,
                other,
            ) && is_done(paths, s.path, n + 1, other) implies agrees(
            entries,
            fs,
            resolved(fs, root, other)->0,
        ) by {
            let k = resolved(fs, root, other)->0;
            lemma_one_more_event(paths, s.path, n, other);
            assert(is_done(paths, s.path, n, other));
            assert(agrees(m, fs, k));
            lemma_found_child(fs, root, other);
            if k == c {
                lemma_detached_is_astray(batch, s, files, paths, n, c);
            }
            law_reparent_touches_little(m, c, m[c].parent(), None, k);
        }
    }
    assert(is_vacated(entries, s, files, paths, n + 1)) by {
        assert forall|other: Seq<Seq<u8>>| #[trigger]
            is_event(paths.take(n + 1), s.path, other) && resolved(
                fs,
                root,
                other,
            ) is None implies resolved(entries, root, other) is None by {
            lemma_one_more_event(paths, s.path, n, other);
            if other != names {
                lemma_detach_opens_no_way(m, root, strays, c, other);
            }
        }
    }
    lemma_passed_stays(s, files, paths, n);
    assert forall|i: int| 0 <= i < batch.jobs.len() implies entries.contains_key(
        (#[trigger] batch.jobs[i]).ino,
    ) && entries[batch.jobs[i].ino] == m[batch.jobs[i].ino] by {
        let k = batch.jobs[i].ino;
        assert(is_job_for_new(batch.jobs[i], m, s, files, paths, n));
        lemma_arrived_is_settled(batch, s, files, paths, n, k);
        if k == c {
            lemma_detached_is_astray(batch, s, files, paths, n, c);
        }
        lemma_new_is_no_parent(batch, s, files, paths, n, k, c);
        law_reparent_touches_little(m, c, m[c].parent(), None, k);
    }
    lemma_jobs_stay(batch, entries, s, files, paths, n);
}

/// The next event, where it leaves the snapshot as it is.
proof fn lemma_step_in_place(
    batch: EventBatchView,
    s: SnapshotView,
    files: SnapshotView,
    paths: Seq<Seq<u8>>,
    n: int,
)
    requires
        is_change(s, files, paths),
        batch_holds(batch, s, files, paths, n),
        n < paths.len(),
        names_in(paths[n], s.path) matches Some(names) ==> {
            let there = resolved(files.entries, s.root_inode->0, names);
            &&& !is_unknown(s, files, names)
            &&& there is Some && names.len() > 0 ==> agrees(
                batch.snapshot.entries,
                files.entries,
                there->0,
            )
            &&& there is None ==> resolved(
                batch.snapshot.entries,
                s.root_inode->0,
                names,
            ) is None
        },
    ensures
        batch_holds(taken(batch), s, files, paths, n + 1),
{
    let m = batch.snapshot.entries;
    let fs = files.entries;
    let root = s.root_inode->0;
    assert(paths.skip(n).drop_first() =~= paths.skip(n + 1));
    assert(is_grown(m, s, files, paths, n + 1)) by {
        assert forall|k: u64| #[trigger]
            m.contains_key(k) && !s.entries.contains_key(k) implies m[k].children().len() == 0 && (
        m[k] is Dir) == (fs[k] is Dir) && has_arrived(s, files, paths, n + 1, k) by {
            lemma_arrived_stays(s, files, paths, n, n + 1, k);
        }
    }
    assert(is_settled(m, s, files, paths, n + 1)) by {
        assert forall|other: Seq<Seq<u8>>|
            other.len() > 0 && #[trigger] resolved(fs, root, other) is Some && !is_below_new(
                s.entries,
                fs,
                root,
                other,
            ) && is_done(paths, s.path, n + 1, other) implies agrees(
            m,
            fs,
            resolved(fs, root, other)->0,
        ) by {
            lemma_one_more_event(paths, s.path, n, other);
            if names_in(paths[n], s.path) != Some(other) {
                assert(is_done(paths, s.path, n, other));
            }
        }
    }
    assert(is_vacated(m, s, files, paths, n + 1)) by {
        assert forall|other: Seq<Seq<u8>>| #[trigger]
            is_event(paths.take(n + 1), s.path, other) && resolved(
                fs,
                root,
                other,
            ) is None implies resolved(m, root, other) is None by {
            lemma_one_more_event(paths, s.path, n, other);
        }
    }
    lemma_passed_stays(s, files, paths, n);
    lemma_jobs_stay(batch, m, s, files, paths, n);
}

/// How far the next event takes a batch: past itself, and for something new past all that lies at
/// and below it.
pub open spec fn is_reach(
    s: SnapshotView,
    files: SnapshotView,
    paths: Seq<Seq<u8>>,
    n: int,
    more: int,
) -> bool {
    let names = names_in(paths[n], s.path)->0;
    &&& n < more <= paths.len()
    &&& is_unknown(s, files, names) ==> forall|i: int|
        n <= i < paths.len() ==> (#[trigger] names_in(paths[i], s.path) matches Some(t) ==> (
        names.is_prefix_of(t) <==> i < more))
    &&& !is_unknown(s, files, names) ==> more == n + 1
    &&& forall|i: int|
        n <= i < more ==> (#[trigger] names_in(paths[i], s.path) matches Some(t)
            && names.is_prefix_of(t))
}

/// What is done once the next event is processed that finds something.
proof fn lemma_done_in_reach(
    s: SnapshotView,
    files: SnapshotView,
    paths: Seq<Seq<u8>>,
    n: int,
    more: int,
    other: Seq<Seq<u8>>,
)
    requires
        0 <= n < paths.len(),
        names_in(paths[n], s.path) is Some,
        is_reach(s, files, paths, n, more),
        is_event(paths.take(more), s.path, other),
        !is_event(paths.take(n), s.path, other),
    ensures
        (names_in(paths[n], s.path)->0).is_prefix_of(other),
        other != names_in(paths[n], s.path)->0 ==> is_below_new(
            s.entries,
            files.entries,
            s.root_inode->0,
            other,
        ),
{
    let names = names_in(paths[n], s.path)->0;
    lemma_more_events(paths, s.path, n, more, other);
    let i = choose|i: int| n <= i < more && #[trigger] names_in(paths[i], s.path) == Some(other);
    if other != names {
        assert(i > n);
        assert(is_unknown(s, files, names));
        assert(names.len() < other.len()) by {
            if names.len() == other.len() {
                assert(names =~= other.subrange(0, names.len() as int));
                assert(other =~= other.subrange(0, other.len() as int));
            }
        }
        assert(other.take(names.len() as int) =~= names);
        assert(resolved(files.entries, s.root_inode->0, other.take(names.len() as int)) is Some);
    }
}

/// Whether `entries` are `m` once `k` is put where it belongs and `known` is taken from there.
pub open spec fn is_move(
    m: Map<u64, EntryView>,
    entries: Map<u64, EntryView>,
    s: SnapshotView,
    k: u64,
    known: Option<u64>,
) -> bool {
    &&& forall|x: u64| #[trigger]
        m.contains_key(x) ==> {
            &&& entries.contains_key(x)
            &&& (entries[x] is Dir) == (m[x] is Dir)
            &&& m[x] is Dir ==> entries[x]->pending == m[x]->pending
            &&& entries[x].ino() == x
            &&& x != k && known != Some(x) ==> is_left_alone(m, entries, x) && (
            !s.entries.contains_key(x) ==> entries[x] == m[x])
        }
    &&& forall|x: u64| #[trigger] entries.contains_key(x) ==> m.contains_key(x) || x == k
    &&& entries.contains_key(k)
    &&& known matches Some(c) ==> m.contains_key(c) && s.entries.contains_key(c) && c != k
        && entries[c].parent() is None
    &&& m.contains_key(k) == s.entries.contains_key(k)
}

/// Where the next event finds something that is not there yet in the snapshot, its directory is
/// known and where it should be.
proof fn lemma_found_has_a_place(
    batch: EventBatchView,
    s: SnapshotView,
    files: SnapshotView,
    paths: Seq<Seq<u8>>,
    n: int,
    relative_path: Seq<u8>,
    entry: EntryView,
) -> (q: u64)
    requires
        is_change(s, files, paths),
        sorted_paths(paths),
        batch_holds(batch, s, files, paths, n),
        n < paths.len(),
        relative_to(paths[n], s.path) == Some(relative_path),
        components(relative_path).len() > 0,
        resolved(files.entries, s.root_inode->0, components(relative_path)) == Some(entry.ino()),
        is_lookup_of(entry, files.entries[entry.ino()]),
    ensures
        ({
            let m = batch.snapshot.entries;
            let fs = files.entries;
            let root = s.root_inode->0;
            let names = components(relative_path);
            &&& names_in(paths[n], s.path) == Some(names)
            &&& !is_below_new(s.entries, fs, root, names)
            &&& resolved(m, root, names.drop_last()) == Some(q)
            &&& resolved(fs, root, names.drop_last()) == Some(q)
            &&& s.entries.contains_key(q)
            &&& m.contains_key(q)
            &&& m[q] is Dir
            &&& !lineage(m, q).contains(entry.ino())
            &&& entry.parent() == Some(q)
            &&& entry.name() == names.last()
            &&& is_plain_name(entry.name())
            &&& entry.ino() != root
            &&& fs.contains_key(entry.ino())
            &&& fs[entry.ino()].parent() == Some(q)
            &&& fs[entry.ino()].name() == names.last()
        }),
{
    let m = batch.snapshot.entries;
    let fs = files.entries;
    let root = s.root_inode->0;
    let names = components(relative_path);
    let upper = names.drop_last();
    let k = entry.ino();
    assert(upper =~= names.subrange(0, upper.len() as int));
    assert(upper =~= names.take(names.len() - 1));
    lemma_found_child(fs, root, names);
    let q = resolved(fs, root, upper)->0;
    lemma_next_is_not_below_new(s, files, paths, n, names);
    assert(s.entries.contains_key(q)) by {
        if !s.entries.contains_key(q) {
            assert(resolved(fs, root, names.take(names.len() - 1)) is Some);
            assert(is_below_new(s.entries, fs, root, names));
        }
    }
    lemma_way_is_clear(batch, s, files, paths, n, upper);
    lemma_resolved_has_lineage(fs, root, upper);
    assert(fs[k].parent() == Some(q));
    assert(!lineage(m, q).contains(k)) by {
        let line = lineage(fs, q);
        assert(is_lineage(fs, line));
        lemma_lineage_extends(fs, line, k);
        law_lineage_does_not_repeat(fs, line.push(k));
        if line.contains(k) {
            let t = line.index_of(k);
            assert(line.push(k)[t] == k && line.push(k)[line.len() as int] == k);
        }
    }
    assert(fs[k].ino() == k);
    q
}

/// What is put in its place when the next event finds something.
#[verifier::rlimit(40)]
proof fn lemma_found_is_placed(
    batch: EventBatchView,
    s: SnapshotView,
    files: SnapshotView,
    paths: Seq<Seq<u8>>,
    n: int,
    relative_path: Seq<u8>,
    entry: EntryView,
)
    requires
        is_change(s, files, paths),
        sorted_paths(paths),
        batch_holds(batch, s, files, paths, n),
        n < paths.len(),
        relative_to(paths[n], s.path) == Some(relative_path),
        components(relative_path).len() > 0,
        resolved(files.entries, s.root_inode->0, components(relative_path)) == Some(entry.ino()),
        is_lookup_of(entry, files.entries[entry.ino()]),
        !taken(batch).is_current(relative_path, entry),
        batch.snapshot.entries.contains_key(entry.ino()) == s.entries.contains_key(entry.ino()),
    ensures
        ({
            let b = taken(batch);
            let m = batch.snapshot.entries;
            let fs = files.entries;
            let root = s.root_inode->0;
            let k = entry.ino();
            let names = components(relative_path);
            let known = resolved(m, root, names);
            let cleared = b.cleared(relative_path);
            let after = b.applied(paths[n], relative_path, Ok(Some(entry)));
            let entries = after.snapshot.entries;
            &&& is_move(m, entries, s, k, known)
            &&& is_forest(
                cleared.snapshot.entries,
                root,
                cleared.possible_removed_inodes,
            )
            &&& entries == placed(cleared.snapshot.entries, entry)
            &&& known matches Some(c) ==> cleared.snapshot.entries == reparented(
                m,
                c,
                m[c].parent(),
                None,
            ) && c != root
            &&& known is None ==> cleared.snapshot.entries == m
            &&& cleared.snapshot.entries.dom() == m.dom()
            &&& is_forest(entries, root, after.possible_removed_inodes)
            &&& after.possible_removed_inodes == cleared.possible_removed_inodes
            &&& !after.possible_removed_inodes.contains(root)
            &&& keyed_by_inode(entries)
            &&& resolved(entries, root, names) == Some(k)
            &&& agrees(entries, fs, k)
            &&& !s.entries.contains_key(k) ==> entries[k] == entry
            &&& after.snapshot.path == s.path
            &&& after.snapshot.root_inode == s.root_inode
            &&& after.jobs == if !s.entries.contains_key(k) && entry is Dir {
                batch.jobs.push(new_job(paths[n], relative_path, entry))
            } else {
                batch.jobs
            }
            &&& b.can_apply(relative_path, Ok(Some(entry)))
        }),
{
    let b = taken(batch);
    let m = batch.snapshot.entries;
    let fs = files.entries;
    let root = s.root_inode->0;
    let strays = batch.possible_removed_inodes;
    let names = components(relative_path);
    let k = entry.ino();
    let cleared = b.cleared(relative_path);
    let between = cleared.snapshot.entries;
    let after = b.applied(paths[n], relative_path, Ok(Some(entry)));
    let entries = after.snapshot.entries;
    let q = lemma_found_has_a_place(batch, s, files, paths, n, relative_path, entry);
    law_found_path_leads_to_what_was_found(b, root, paths[n], relative_path, entry, q);
    lemma_cleared(b, root, relative_path, q);
    assert(entries == placed(between, entry));
    law_placing_touches_little(between, entry, k);
    let known = resolved(m, root, names);
    assert(known != Some(k)) by {
        if known == Some(k) {
            assert(m[k].parent() == Some(q));
            assert(m[k].ino() == k);
            assert(b.snapshot.entry_at(relative_path) == Some(m[k]));
        }
    }
    assert(known is None ==> cleared == b);
    assert(known matches Some(c) ==> between == reparented(m, c, m[c].parent(), None)
        && cleared.possible_removed_inodes == recorded(strays, c) && c != root && m.contains_key(c)
        && m[c].parent() == Some(q)) by {
        if known is Some {
            assert(m[known->0].ino() == known->0);
        }
    }
    assert(!after.possible_removed_inodes.contains(root)) by {
        if known is Some && after.possible_removed_inodes.contains(root) {
            let i = after.possible_removed_inodes.index_of(root);
            if i < strays.len() {
                assert(strays[i] == root);
            }
        }
    }
    assert(known matches Some(c) ==> entries[c].parent() is None) by {
        if known is Some {
            law_reparent_touches_little(m, known->0, m[known->0].parent(), None, known->0);
            law_placing_touches_little(between, entry, known->0);
        }
    }
    assert(known is Some ==> s.entries.contains_key(known->0)) by {
        if known is Some && !s.entries.contains_key(known->0) {
            lemma_arrived_is_settled(batch, s, files, paths, n, known->0);
            lemma_detached_is_astray(batch, s, files, paths, n, known->0);
        }
    }
    assert forall|x: u64| #[trigger] m.contains_key(x) implies {
        &&& entries.contains_key(x)
        &&& (entries[x] is Dir) == (m[x] is Dir)
        &&& m[x] is Dir ==> entries[x]->pending == m[x]->pending
        &&& entries[x].ino() == x
        &&& x != k && known != Some(x) ==> is_left_alone(m, entries, x) && (!s.entries.contains_key(
            x,
        ) ==> entries[x] == m[x])
    } by {
        if known is Some {
            law_reparent_touches_little(m, known->0, m[known->0].parent(), None, x);
            law_reparent_touches_little(m, known->0, m[known->0].parent(), None, k);
        }
        law_placing_touches_little(between, entry, x);
        if !s.entries.contains_key(x) && x != k {
            if m.contains_key(k) {
                lemma_new_is_no_parent(batch, s, files, paths, n, x, k);
            }
            if known is Some {
                lemma_new_is_no_parent(batch, s, files, paths, n, x, known->0);
            }
        }
    }
    assert(b.can_apply(relative_path, Ok(Some(entry)))) by {
        if known is Some {
            lemma_can_leave(m, root, strays, known->0, None);
            law_reparent_touches_little(m, known->0, m[known->0].parent(), None, q);
        }
        if between.contains_key(k) {
            lemma_can_leave(between, root, cleared.possible_removed_inodes, k, Some(q));
        }
    }
}

/// What is known, once something is put in its place.
proof fn lemma_placing_grows(
    batch: EventBatchView,
    entries: Map<u64, EntryView>,
    s: SnapshotView,
    files: SnapshotView,
    paths: Seq<Seq<u8>>,
    n: int,
    more: int,
    names: Seq<Seq<u8>>,
    k: u64,
    known: Option<u64>,
)
    requires
        is_grown(batch.snapshot.entries, s, files, paths, n),
        is_move(batch.snapshot.entries, entries, s, k, known),
        0 <= n < more <= paths.len(),
        names_in(paths[n], s.path) == Some(names),
        resolved(files.entries, s.root_inode->0, names) == Some(k),
        !is_below_new(s.entries, files.entries, s.root_inode->0, names),
        !s.entries.contains_key(k) ==> entries[k].children().len() == 0 && (entries[k] is Dir) == (
        files.entries[k] is Dir),
    ensures
        is_grown(entries, s, files, paths, more),
{
    let m = batch.snapshot.entries;
    assert forall|x: u64| #[trigger] s.entries.contains_key(x) implies entries.contains_key(x) && (
    entries[x] is Dir) == (s.entries[x] is Dir) && (s.entries[x] is Dir ==> entries[x]->pending
        == s.entries[x]->pending) by {
        assert(m.contains_key(x));
    }
    assert forall|x: u64| #[trigger]
        entries.contains_key(x) && !s.entries.contains_key(x) implies entries[x].children().len()
        == 0 && (entries[x] is Dir) == (files.entries[x] is Dir) && has_arrived(
        s,
        files,
        paths,
        more,
        x,
    ) by {
        if x == k {
            assert(paths.take(more)[n] == paths[n]);
            assert(is_event(paths.take(more), s.path, names));
            assert(is_new(s.entries, files.entries, s.root_inode->0, names));
        } else {
            assert(m.contains_key(x));
            lemma_arrived_stays(s, files, paths, n, more, x);
            assert(entries[x] == m[x]);
        }
    }
}

/// Where entries are, once something is put in its place.
proof fn lemma_placing_traces(
    m: Map<u64, EntryView>,
    entries: Map<u64, EntryView>,
    s: SnapshotView,
    files: SnapshotView,
    k: u64,
    known: Option<u64>,
)
    requires
        is_traced(m, s, files),
        is_move(m, entries, s, k, known),
        files.entries.contains_key(k),
        agrees(entries, files.entries, k),
    ensures
        is_traced(entries, s, files),
{
    reveal(is_traced);
    assert forall|x: u64| #[trigger] entries.contains_key(x) implies entries[x].parent() is None || (
    files.entries.contains_key(x) && agrees(entries, files.entries, x)) || (
    s.entries.contains_key(x) && entries[x].parent() == s.entries[x].parent() && entries[x].name()
        == s.entries[x].name()) by {
        if x != k && known != Some(x) {
            assert(m.contains_key(x));
            assert(is_left_alone(m, entries, x));
        }
    }
}

/// What is settled, once something is put in its place.
proof fn lemma_placing_settles(
    batch: EventBatchView,
    entries: Map<u64, EntryView>,
    s: SnapshotView,
    files: SnapshotView,
    paths: Seq<Seq<u8>>,
    n: int,
    more: int,
    names: Seq<Seq<u8>>,
    k: u64,
)
    requires
        is_change(s, files, paths),
        sorted_paths(paths),
        batch_holds(batch, s, files, paths, n),
        is_move(
            batch.snapshot.entries,
            entries,
            s,
            k,
            resolved(batch.snapshot.entries, s.root_inode->0, names),
        ),
        n < paths.len(),
        names.len() > 0,
        names_in(paths[n], s.path) == Some(names),
        resolved(files.entries, s.root_inode->0, names) == Some(k),
        is_reach(s, files, paths, n, more),
        agrees(entries, files.entries, k),
    ensures
        is_settled(entries, s, files, paths, more),
{
    let m = batch.snapshot.entries;
    let fs = files.entries;
    let root = s.root_inode->0;
    assert forall|other: Seq<Seq<u8>>|
        other.len() > 0 && #[trigger] resolved(fs, root, other) is Some && !is_below_new(
            s.entries,
            fs,
            root,
            other,
        ) && is_done(paths, s.path, more, other) implies agrees(
        entries,
        fs,
        resolved(fs, root, other)->0,
    ) by {
        let x = resolved(fs, root, other)->0;
        lemma_found_child(fs, root, other);
        if other != names {
            if is_event(paths.take(more), s.path, other) && !is_event(
                paths.take(n),
                s.path,
                other,
            ) {
                lemma_done_in_reach(s, files, paths, n, more, other);
            }
            assert(is_done(paths, s.path, n, other));
            assert(agrees(m, fs, x));
            if x == k {
                lemma_names_are_unique(fs, root, other, names);
            }
            if resolved(m, root, names) == Some(x) {
                lemma_detached_is_astray(batch, s, files, paths, n, x);
            }
            assert(is_left_alone(m, entries, x));
        }
    }
}

/// What is vacated, once something is put in its place.
proof fn lemma_placing_vacates(
    batch: EventBatchView,
    between: Map<u64, EntryView>,
    strays: Seq<u64>,
    entry: EntryView,
    s: SnapshotView,
    files: SnapshotView,
    paths: Seq<Seq<u8>>,
    n: int,
    more: int,
    names: Seq<Seq<u8>>,
)
    requires
        sorted_paths(paths),
        batch_holds(batch, s, files, paths, n),
        n < paths.len(),
        names_in(paths[n], s.path) == Some(names),
        resolved(files.entries, s.root_inode->0, names) == Some(entry.ino()),
        is_reach(s, files, paths, n, more),
        is_forest(between, s.root_inode->0, strays),
        is_forest(placed(between, entry), s.root_inode->0, strays),
        entry.ino() != s.root_inode->0,
        entry.children().len() == 0,
        resolved(placed(between, entry), s.root_inode->0, names) == Some(entry.ino()),
        between.contains_key(entry.ino()) == s.entries.contains_key(entry.ino()),
        resolved(batch.snapshot.entries, s.root_inode->0, names) matches Some(c) ==> between
            == reparented(batch.snapshot.entries, c, batch.snapshot.entries[c].parent(), None) && c
            != s.root_inode->0 && batch.snapshot.entries.contains_key(c),
        resolved(batch.snapshot.entries, s.root_inode->0, names) is None ==> between
            == batch.snapshot.entries,
    ensures
        is_vacated(placed(between, entry), s, files, paths, more),
{
    let m = batch.snapshot.entries;
    let fs = files.entries;
    let root = s.root_inode->0;
    let known = resolved(m, root, names);
    let entries = placed(between, entry);
    let k = entry.ino();
    assert forall|other: Seq<Seq<u8>>| #[trigger]
        is_event(paths.take(more), s.path, other) && resolved(
            fs,
            root,
            other,
        ) is None implies resolved(entries, root, other) is None by {
        if is_event(paths.take(n), s.path, other) {
            assert(resolved(m, root, other) is None);
            if known is Some {
                lemma_detach_opens_no_way(
                    m,
                    root,
                    batch.possible_removed_inodes,
                    known->0,
                    other,
                );
            }
            if resolved(entries, root, other) is Some {
                lemma_placing_opens_one_way(between, root, strays, entry, names, other);
                let done = paths.take(n);
                let j = choose|j: int|
                    0 <= j < done.len() && #[trigger] names_in(done[j], s.path) == Some(other);
                assert(paths[j] == done[j]);
                lemma_later_is_no_prefix(paths, s.path, j, n);
            }
        } else {
            lemma_done_in_reach(s, files, paths, n, more, other);
            lemma_more_events(paths, s.path, n, more, other);
            assert(is_unknown(s, files, names)) by {
                let i = choose|i: int|
                    n <= i < more && #[trigger] names_in(paths[i], s.path) == Some(other);
                assert(i > n);
            }
            law_placing_touches_little(between, entry, k);
            lemma_nothing_below(entries, root, names, other);
        }
    }
}

/// What is passed over, once something is found.
proof fn lemma_reach_passes(
    s: SnapshotView,
    files: SnapshotView,
    paths: Seq<Seq<u8>>,
    n: int,
    more: int,
)
    requires
        is_passed(s, files, paths, n),
        0 <= n < paths.len(),
        names_in(paths[n], s.path) is Some,
        is_reach(s, files, paths, n, more),
    ensures
        is_passed(s, files, paths, more),
{
    let names = names_in(paths[n], s.path)->0;
    assert forall|other: Seq<Seq<u8>>, i: int|
        #![trigger is_event(paths.take(more), s.path, other), names_in(paths[i], s.path)]
        is_event(paths.take(more), s.path, other) && is_unknown(s, files, other) && more <= i
            < paths.len() && names_in(paths[i], s.path) is Some implies !other.is_prefix_of(
        names_in(paths[i], s.path)->0,
    ) by {
        let t = names_in(paths[i], s.path)->0;
        if is_event(paths.take(n), s.path, other) {
            assert(!other.is_prefix_of(t));
        } else {
            lemma_done_in_reach(s, files, paths, n, more, other);
            lemma_more_events(paths, s.path, n, more, other);
            assert(is_unknown(s, files, names)) by {
                let j = choose|j: int|
                    n <= j < more && #[trigger] names_in(paths[j], s.path) == Some(other);
                assert(j == n ==> other == names);
            }
            if other.is_prefix_of(t) {
                lemma_prefix_of_prefix(names, other, t);
            }
        }
    }
}

/// What is queued, once something is put in its place.
proof fn lemma_placing_queues(
    batch: EventBatchView,
    entries: Map<u64, EntryView>,
    s: SnapshotView,
    files: SnapshotView,
    paths: Seq<Seq<u8>>,
    n: int,
    more: int,
    relative_path: Seq<u8>,
    entry: EntryView,
    known: Option<u64>,
)
    requires
        is_queued(batch.jobs, batch.snapshot.entries, s, files, paths, n),
        is_move(batch.snapshot.entries, entries, s, entry.ino(), known),
        0 <= n < paths.len(),
        relative_to(paths[n], s.path) == Some(relative_path),
        resolved(files.entries, s.root_inode->0, components(relative_path)) == Some(entry.ino()),
        is_lookup_of(entry, files.entries[entry.ino()]),
        !is_below_new(s.entries, files.entries, s.root_inode->0, components(relative_path)),
        is_reach(s, files, paths, n, more),
        !s.entries.contains_key(entry.ino()) ==> entries[entry.ino()] == entry,
    ensures
        is_queued(
            if !s.entries.contains_key(entry.ino()) && entry is Dir {
                batch.jobs.push(new_job(paths[n], relative_path, entry))
            } else {
                batch.jobs
            },
            entries,
            s,
            files,
            paths,
            more,
        ),
{
    let m = batch.snapshot.entries;
    let fs = files.entries;
    let root = s.root_inode->0;
    let k = entry.ino();
    let names = components(relative_path);
    let is_new_dir = !s.entries.contains_key(k) && entry is Dir;
    let jobs = if is_new_dir {
        batch.jobs.push(new_job(paths[n], relative_path, entry))
    } else {
        batch.jobs
    };
    assert forall|i: int| 0 <= i < batch.jobs.len() implies is_job_for_new(
        #[trigger] batch.jobs[i],
        entries,
        s,
        files,
        paths,
        more,
    ) && m.contains_key(batch.jobs[i].ino) && !s.entries.contains_key(batch.jobs[i].ino) by {
        let job = batch.jobs[i];
        assert(is_job_for_new(job, m, s, files, paths, n));
        lemma_more_events(paths, s.path, n, more, names_in(job.path, s.path)->0);
        assert(m.contains_key(job.ino));
        assert(entries[job.ino] == m[job.ino]);
    }
    assert(paths.take(more)[n] == paths[n]);
    assert(names_in(paths[n], s.path) == Some(names));
    assert(is_event(paths.take(more), s.path, names));
    if is_new_dir {
        assert(is_new(s.entries, fs, root, names));
        assert(is_job_for_new(
            new_job(paths[n], relative_path, entry),
            entries,
            s,
            files,
            paths,
            more,
        ));
    }
    assert forall|i: int, j: int|
        #![trigger jobs[i], jobs[j]]
        0 <= i < j < jobs.len() implies jobs[i].ino != jobs[j].ino by {
        assert(jobs[i] == batch.jobs[i]);
        if j < batch.jobs.len() {
            assert(jobs[j] == batch.jobs[j]);
        }
    }
    assert forall|i: int| 0 <= i < jobs.len() implies is_job_for_new(
        #[trigger] jobs[i],
        entries,
        s,
        files,
        paths,
        more,
    ) by {
        if i < batch.jobs.len() {
            assert(jobs[i] == batch.jobs[i]);
        }
    }
    assert forall|other: Seq<Seq<u8>>| #[trigger]
        is_new(s.entries, fs, root, other) && is_event(paths.take(more), s.path, other)
            && fs[resolved(fs, root, other)->0] is Dir implies exists|i: int|
        0 <= i < jobs.len() && Some((#[trigger] jobs[i]).ino) == resolved(fs, root, other) by {
        if is_event(paths.take(n), s.path, other) {
            let i = choose|i: int|
                0 <= i < batch.jobs.len() && Some((#[trigger] batch.jobs[i]).ino) == resolved(
                    fs,
                    root,
                    other,
                );
            assert(jobs[i] == batch.jobs[i]);
        } else {
            lemma_done_in_reach(s, files, paths, n, more, other);
            assert(other == names);
            assert(jobs[batch.jobs.len() as int].ino == k);
        }
    }
}

/// The next event, where something is found that is not there yet in the snapshot.
proof fn lemma_step_places(
    batch: EventBatchView,
    s: SnapshotView,
    files: SnapshotView,
    paths: Seq<Seq<u8>>,
    n: int,
    more: int,
    relative_path: Seq<u8>,
    entry: EntryView,
)
    requires
        is_change(s, files, paths),
        sorted_paths(paths),
        batch_holds(batch, s, files, paths, n),
        n < paths.len(),
        relative_to(paths[n], s.path) == Some(relative_path),
        components(relative_path).len() > 0,
        resolved(files.entries, s.root_inode->0, components(relative_path)) == Some(entry.ino()),
        is_lookup_of(entry, files.entries[entry.ino()]),
        !taken(batch).is_current(relative_path, entry),
        batch.snapshot.entries.contains_key(entry.ino()) == s.entries.contains_key(entry.ino()),
        is_reach(s, files, paths, n, more),
        taken(batch).applied(paths[n], relative_path, Ok(Some(entry))).paths == paths.skip(more),
    ensures
        batch_holds(
            taken(batch).applied(paths[n], relative_path, Ok(Some(entry))),
            s,
            files,
            paths,
            more,
        ),
        taken(batch).can_apply(relative_path, Ok(Some(entry))),
{
    let b = taken(batch);
    let m = batch.snapshot.entries;
    let root = s.root_inode->0;
    let names = components(relative_path);
    let k = entry.ino();
    let cleared = b.cleared(relative_path);
    let after = b.applied(paths[n], relative_path, Ok(Some(entry)));
    let entries = after.snapshot.entries;
    let known = resolved(m, root, names);
    let q = lemma_found_has_a_place(batch, s, files, paths, n, relative_path, entry);
    lemma_found_is_placed(batch, s, files, paths, n, relative_path, entry);
    lemma_placing_grows(batch, entries, s, files, paths, n, more, names, k, known);
    lemma_placing_traces(m, entries, s, files, k, known);
    lemma_placing_settles(batch, entries, s, files, paths, n, more, names, k);
    lemma_placing_vacates(
        batch,
        cleared.snapshot.entries,
        cleared.possible_removed_inodes,
        entry,
        s,
        files,
        paths,
        n,
        more,
        names,
    );
    lemma_reach_passes(s, files, paths, n, more);
    lemma_placing_queues(
        batch,
        entries,
        s,
        files,
        paths,
        n,
        more,
        relative_path,
        entry,
        known,
    );
}

/// What is current at a path bears the path's last name.
proof fn lemma_found_current(
    batch: EventBatchView,
    root: u64,
    relative_path: Seq<u8>,
    k: u64,
)
    requires
        batch.snapshot.root_inode == Some(root),
        is_forest(batch.snapshot.entries, root, batch.possible_removed_inodes),
        keyed_by_inode(batch.snapshot.entries),
        components(relative_path).len() > 0,
        batch.snapshot.entry_at(relative_path) matches Some(known) && known.ino() == k,
    ensures
        batch.snapshot.entries.contains_key(k),
        batch.snapshot.entry_at(relative_path) == Some(batch.snapshot.entries[k]),
        batch.snapshot.entries[k].name() == components(relative_path).last(),
{
    let m = batch.snapshot.entries;
    let c = resolved(m, root, components(relative_path))->0;
    assert(m.contains_key(c));
    lemma_found_child(m, root, components(relative_path));
}

/// How far an event takes a batch that finds something new.
proof fn lemma_reach_of_new(
    batch: EventBatchView,
    s: SnapshotView,
    files: SnapshotView,
    paths: Seq<Seq<u8>>,
    n: int,
    relative_path: Seq<u8>,
    entry: EntryView,
) -> (more: int)
    requires
        sorted_paths(paths),
        0 <= n < paths.len(),
        batch.paths == paths.skip(n),
        relative_to(paths[n], s.path) == Some(relative_path),
        resolved(files.entries, s.root_inode->0, components(relative_path)) == Some(entry.ino()),
        !s.entries.contains_key(entry.ino()),
        !taken(batch).is_current(relative_path, entry),
        !taken(batch).cleared(relative_path).snapshot.entries.contains_key(entry.ino()),
    ensures
        is_reach(s, files, paths, n, more),
        taken(batch).applied(paths[n], relative_path, Ok(Some(entry))).paths == paths.skip(more),
{
    let path = paths[n];
    let names = components(relative_path);
    let b = taken(batch);
    let rest = paths.skip(n + 1);
    assert(b.paths =~= rest);
    let all = seq![path] + rest;
    assert(all =~= paths.skip(n));
    assert(sorted_paths(all)) by {
        assert forall|i: int, j: int|
            #![trigger all[i], all[j]]
            0 <= i < j < all.len() implies path_ordered(all[i], all[j]) by {
            assert(all[i] == paths[n + i] && all[j] == paths[n + j]);
        }
    }
    law_listing_covers_the_events_below(b, path, relative_path, entry);
    let after = b.applied(path, relative_path, Ok(Some(entry)));
    let passed = choose|passed: int|
        0 <= passed <= b.paths.len() && after.paths == #[trigger] b.paths.skip(passed) && (forall|
            i: int,
        |
            0 <= i < b.paths.len() ==> (path_starts_with(#[trigger] b.paths[i], path) <==> i
                < passed));
    let more = n + 1 + passed;
    assert(after.paths =~= paths.skip(more));
    assert forall|i: int| n <= i < paths.len() implies (path_starts_with(#[trigger] paths[i], path)
        <==> i < more) by {
        if i > n {
            assert(b.paths[i - n - 1] == paths[i]);
        } else {
            assert(components(path) =~= components(path).subrange(
                0,
                components(path).len() as int,
            ));
        }
    }
    assert forall|i: int| n <= i < paths.len() implies (path_starts_with(paths[i], path) <==> (
    #[trigger] names_in(paths[i], s.path) matches Some(t) && names.is_prefix_of(t))) by {
        lemma_prefix_of_names(paths[i], path, s.path);
    }
    assert(names_in(path, s.path) == Some(names));
    assert(is_unknown(s, files, names));
    more
}

/// What is new has not arrived before its event.
proof fn lemma_new_comes_with_its_event(
    batch: EventBatchView,
    s: SnapshotView,
    files: SnapshotView,
    paths: Seq<Seq<u8>>,
    n: int,
    names: Seq<Seq<u8>>,
)
    requires
        is_change(s, files, paths),
        batch_holds(batch, s, files, paths, n),
        n < paths.len(),
        names_in(paths[n], s.path) == Some(names),
        is_unknown(s, files, names),
    ensures
        !batch.snapshot.entries.contains_key(
            resolved(files.entries, s.root_inode->0, names)->0,
        ),
{
    let fs = files.entries;
    let root = s.root_inode->0;
    let k = resolved(fs, root, names)->0;
    if batch.snapshot.entries.contains_key(k) {
        let other = choose|other: Seq<Seq<u8>>| #[trigger]
            is_new(s.entries, fs, root, other) && is_event(paths.take(n), s.path, other)
                && resolved(fs, root, other) == Some(k);
        lemma_names_are_unique(fs, root, other, names);
        assert(names =~= names.subrange(0, names.len() as int));
        assert(names.is_prefix_of(names));
        assert(names_in(paths[n], s.path) is Some);
    }
}

/// The next event where something is found: it is applied, and takes the batch further.
#[verifier::rlimit(40)]
proof fn lemma_step_finds(
    batch: EventBatchView,
    s: SnapshotView,
    files: SnapshotView,
    paths: Seq<Seq<u8>>,
    n: int,
    relative_path: Seq<u8>,
    entry: EntryView,
) -> (more: int)
    requires
        is_change(s, files, paths),
        sorted_paths(paths),
        batch_holds(batch, s, files, paths, n),
        n < paths.len(),
        relative_to(paths[n], s.path) == Some(relative_path),
        resolved(files.entries, s.root_inode->0, components(relative_path)) is Some,
        is_lookup_of(
            entry,
            files.entries[resolved(files.entries, s.root_inode->0, components(relative_path))->0],
        ),
    ensures
        n < more <= paths.len(),
        batch_holds(
            taken(batch).applied(paths[n], relative_path, Ok(Some(entry))),
            s,
            files,
            paths,
            more,
        ),
        taken(batch).can_apply(relative_path, Ok(Some(entry))),
{
    let m = batch.snapshot.entries;
    let fs = files.entries;
    let root = s.root_inode->0;
    let b = taken(batch);
    let names = components(relative_path);
    let k = resolved(fs, root, names)->0;
    assert(names_in(paths[n], s.path) == Some(names));
    assert(paths.skip(n).drop_first() =~= paths.skip(n + 1));
    lemma_resolved_has_lineage(fs, root, names);
    assert(fs[k].ino() == k);
    if is_unknown(s, files, names) {
        lemma_new_comes_with_its_event(batch, s, files, paths, n, names);
    } else {
        assert(s.entries.contains_key(k));
    }
    if names.len() > 0 {
        lemma_found_child(fs, root, names);
    } else {
        assert(m[root].ino() == root);
        assert(b.snapshot.entry_at(relative_path) == Some(m[root]));
        assert(b.is_current(relative_path, entry));
    }
    if b.is_current(relative_path, entry) {
        if names.len() > 0 {
            lemma_found_current(batch, root, relative_path, k);
        }
        assert(m.contains_key(k));
        lemma_step_in_place(batch, s, files, paths, n);
        n + 1
    } else {
        let q = lemma_found_has_a_place(batch, s, files, paths, n, relative_path, entry);
        lemma_cleared(b, root, relative_path, q);
        if s.entries.contains_key(k) {
            assert(names =~= names.subrange(0, names.len() as int));
            assert(is_reach(s, files, paths, n, n + 1));
            lemma_step_places(batch, s, files, paths, n, n + 1, relative_path, entry);
            n + 1
        } else {
            let more = lemma_reach_of_new(batch, s, files, paths, n, relative_path, entry);
            lemma_step_places(batch, s, files, paths, n, more, relative_path, entry);
            more
        }
    }
}

/// The next event keeps what holds all through a batch, and can be applied.
proof fn lemma_batch_goes_on(
    batch: EventBatchView,
    s: SnapshotView,
    files: SnapshotView,
    paths: Seq<Seq<u8>>,
    n: int,
    looks: spec_fn(Seq<u8>) -> Result<Option<EntryView>, WorktreeError>,
) -> (more: int)
    requires
        is_change(s, files, paths),
        sorted_paths(paths),
        batch_holds(batch, s, files, paths, n),
        n < paths.len(),
        tells(looks, files, paths[n]),
    ensures
        n < more <= paths.len(),
        batch_holds(stepped(batch, looks), s, files, paths, more),
        relative_to(paths[n], s.path) matches Some(relative_path) ==> taken(batch).can_apply(
            relative_path,
            looks(paths[n]),
        ),
{
    let path = paths[n];
    let m = batch.snapshot.entries;
    let fs = files.entries;
    let root = s.root_inode->0;
    assert(batch.paths[0] == path);
    if relative_to(path, s.path) is None {
        lemma_step_in_place(batch, s, files, paths, n);
        n + 1
    } else {
        let relative_path = relative_to(path, s.path)->0;
        let names = components(relative_path);
        let there = resolved(fs, root, names);
        assert(names_in(path, s.path) == Some(names));
        if there is None {
            assert(files.entry_at(relative_path) is None);
            let known = resolved(m, root, names);
            if known is None {
                assert(taken(batch).snapshot.entry_at(relative_path) is None);
                lemma_step_in_place(batch, s, files, paths, n);
            } else {
                lemma_step_detaches(batch, s, files, paths, n, relative_path, known->0);
            }
            n + 1
        } else {
            lemma_resolved_has_lineage(fs, root, names);
            assert(files.entry_at(relative_path) == Some(fs[there->0]));
            let entry = looks(path)->Ok_0->0;
            lemma_step_finds(batch, s, files, paths, n, relative_path, entry)
        }
    }
}

/// What is left of a batch, from its `n`-th event on.
pub proof fn lemma_batch_ends(
    batch: EventBatchView,
    s: SnapshotView,
    files: SnapshotView,
    paths: Seq<Seq<u8>>,
    n: int,
    looks: spec_fn(Seq<u8>) -> Result<Option<EntryView>, WorktreeError>,
)
    requires
        is_change(s, files, paths),
        sorted_paths(paths),
        batch_holds(batch, s, files, paths, n),
        forall|i: int| 0 <= i < paths.len() ==> tells(looks, files, #[trigger] paths[i]),
    ensures
        batch_holds(processed(batch, looks), s, files, paths, paths.len() as int),
        can_process(batch, looks),
    decreases paths.len() - n,
{
    if n < paths.len() {
        assert(batch.paths[0] == paths[n]);
        let more = lemma_batch_goes_on(batch, s, files, paths, n, looks);
        lemma_batch_ends(stepped(batch, looks), s, files, paths, more, looks);
    }
}

} // verus!
