//! What a scan keeps, from the first entry to the last directory listed.
use vstd::prelude::*;
use crate::entry::EntryView;
use crate::entry_tree::{file_inodes, keyed_by_inode};
use crate::path::{components, path_of, pushed};
use crate::path_laws::{is_plain_name, law_path_of_names, law_push_name};
use crate::scan::{
    child_entry, child_is_ignored, child_job, git_name, listed_inodes, root_job_of, scanned_entries,
    scanned_jobs, started, tree_name, DirRecordView, FsMetadata, ScanJobView,
};
use crate::snapshot::{
    has_lineage, inserted, is_lineage, lineage, names_along, path_to, SnapshotView,
};
use crate::tree_laws::{
    downlinked, hangs_on, is_tree, lemma_lineage_extends, lemma_lineage_is, named_apart,
    plainly_named, uplinked,
};

verus! {

/// Whether `entries` have different inodes.
pub open spec fn apart(entries: Seq<EntryView>) -> bool {
    forall|i: int, j: int|
        #![trigger entries[i], entries[j]]
        0 <= i < j < entries.len() ==> entries[i].ino() != entries[j].ino()
}

/// Entries with different inodes that are put in are found by their inodes, and everything else
/// stays as it was.
pub proof fn law_inserted_entries_are_found(m: Map<u64, EntryView>, entries: Seq<EntryView>)
    requires
        apart(entries),
    ensures
        forall|i: int|
            0 <= i < entries.len() ==> inserted(m, entries).contains_key(
                (#[trigger] entries[i]).ino(),
            ) && inserted(m, entries)[entries[i].ino()] == entries[i],
        forall|k: u64|
            (forall|i: int| 0 <= i < entries.len() ==> (#[trigger] entries[i]).ino() != k) ==> (
            #[trigger] inserted(m, entries).contains_key(k) == m.contains_key(k) && (m.contains_key(
                k,
            ) ==> inserted(m, entries)[k] == m[k])),
    decreases entries.len(),
{
    if entries.len() > 0 {
        let before = entries.drop_last();
        assert forall|i: int, j: int|
            #![trigger before[i], before[j]]
            0 <= i < j < before.len() implies before[i].ino() != before[j].ino() by {
            assert(before[i] == entries[i] && before[j] == entries[j]);
        }
        law_inserted_entries_are_found(m, before);
        let prior = inserted(m, before);
        let after = inserted(m, entries);
        assert forall|i: int| 0 <= i < entries.len() implies after.contains_key(
            (#[trigger] entries[i]).ino(),
        ) && after[entries[i].ino()] == entries[i] by {
            if i < before.len() {
                assert(before[i] == entries[i]);
                assert(entries[i].ino() != entries[entries.len() - 1].ino());
            }
        }
        assert forall|k: u64|
            (forall|i: int| 0 <= i < entries.len() ==> (#[trigger] entries[i]).ino() != k) implies (
        #[trigger] after.contains_key(k) == m.contains_key(k) && (m.contains_key(k) ==> after[k]
            == m[k])) by {
            assert forall|i: int| 0 <= i < before.len() implies (#[trigger] before[i]).ino() != k by {
                assert(before[i] == entries[i]);
            }
            assert(entries[entries.len() - 1].ino() != k);
            assert(prior.contains_key(k) == m.contains_key(k));
        }
    }
}

/// Whether a listing has nothing in it that is known already, no inode and no name twice, and only
/// names that stand for one component of a path.
pub open spec fn is_fresh(m: Map<u64, EntryView>, listing: Seq<DirRecordView>) -> bool {
    &&& forall|i: int|
        0 <= i < listing.len() ==> !m.contains_key((#[trigger] listing[i]).metadata.inode)
            && is_plain_name(listing[i].name)
    &&& forall|i: int, j: int|
        #![trigger listing[i], listing[j]]
        0 <= i < j < listing.len() ==> listing[i].metadata.inode != listing[j].metadata.inode
            && listing[i].name != listing[j].name
}

/// Whether `job` stands for a directory of the snapshot that has not been listed yet, and has its
/// path on the file system right.
pub open spec fn is_ready(s: SnapshotView, job: ScanJobView) -> bool {
    let m = s.entries;
    &&& m.contains_key(job.ino)
    &&& m[job.ino] == job.dir_entry
    &&& job.dir_entry matches EntryView::Dir { pending, .. } && pending
    &&& job.dir_entry.ino() == job.ino
    &&& job.dir_entry.children().len() == 0
    &&& components(job.path) == components(s.path) + components(path_to(m, job.ino, false))
}

/// Whether every file knows its path with the root's name, its inode and whether it is ignored.
pub open spec fn knows_paths(m: Map<u64, EntryView>) -> bool {
    forall|k: u64| #[trigger]
        m.contains_key(k) ==> (m[k] matches EntryView::File { path, is_ignored, .. } ==> path.path
            == path_to(m, k, true) && path.ino == k && path.is_ignored == is_ignored)
}

/// Whether everything below an ignored directory other than the root is ignored.
pub open spec fn passes_ignore_down(m: Map<u64, EntryView>, root: u64) -> bool {
    forall|c: u64| #[trigger]
        m.contains_key(c) ==> (m[c].parent() matches Some(p) ==> p != root && m[p].is_ignored()
            ==> m[c].is_ignored())
}

/// Whether `job` asks for ignore rules to be applied: always at the root, elsewhere where the
/// directory is not ignored.
pub open spec fn applies_ignore(job: ScanJobView, root: u64) -> bool {
    job.ino == root || job.ignore == !job.dir_entry.is_ignored()
}

/// What holds of a snapshot and the directories that are still to be listed, at every moment of a
/// scan.
pub open spec fn scan_holds(s: SnapshotView, jobs: Seq<ScanJobView>) -> bool {
    &&& s.root_inode matches Some(root) && is_tree(s.entries, root)
    &&& keyed_by_inode(s.entries)
    &&& forall|i: int| 0 <= i < jobs.len() ==> is_ready(s, #[trigger] jobs[i])
    &&& forall|i: int, j: int|
        #![trigger jobs[i], jobs[j]]
        0 <= i < j < jobs.len() ==> jobs[i].ino != jobs[j].ino
    &&& forall|k: u64| #[trigger]
        s.entries.contains_key(k) ==> (s.entries[k] matches EntryView::Dir { pending, .. }
            && pending ==> exists|i: int| 0 <= i < jobs.len() && (#[trigger] jobs[i]).ino == k)
}

/// Whether `job` knows the path of its directory, with the root's name, and applies ignore rules
/// where it should.
pub open spec fn knows_its_place(s: SnapshotView, job: ScanJobView) -> bool {
    &&& job.relative_path == path_to(s.entries, job.ino, true)
    &&& s.root_inode matches Some(root) && applies_ignore(job, root)
}

/// What holds besides, from the first entry on, of the paths that files know and of what is ignored.
pub open spec fn marks_hold(s: SnapshotView, jobs: Seq<ScanJobView>) -> bool {
    &&& s.root_inode matches Some(root) && passes_ignore_down(s.entries, root)
    &&& knows_paths(s.entries)
    &&& forall|i: int| 0 <= i < jobs.len() ==> knows_its_place(s, #[trigger] jobs[i])
}

/// The snapshot after the directory of `job` has been listed.
pub open spec fn advanced(
    s: SnapshotView,
    job: ScanJobView,
    listing: Seq<DirRecordView>,
) -> SnapshotView {
    s.with_entries(inserted(s.entries, scanned_entries(job, listing)))
}

/// The directories that are to be listed first.
pub open spec fn first_jobs(
    s: SnapshotView,
    opened: Seq<u8>,
    metadata: FsMetadata,
) -> Seq<ScanJobView> {
    if metadata.is_dir {
        seq![root_job_of(s.path, opened, metadata)]
    } else {
        Seq::empty()
    }
}

/// A scan of an empty snapshot starts with what holds all through it.
pub proof fn law_scan_starts(s: SnapshotView, opened: Seq<u8>, metadata: FsMetadata)
    requires
        s.entries == Map::<u64, EntryView>::empty(),
    ensures
        scan_holds(started(s, opened, metadata), first_jobs(s, opened, metadata)),
        marks_hold(started(s, opened, metadata), first_jobs(s, opened, metadata)),
{
    let after = started(s, opened, metadata);
    let m = after.entries;
    let root = metadata.inode;
    let line = seq![root];
    assert(is_lineage(m, line));
    lemma_lineage_is(m, line);
    let names = names_along(m, line);
    assert(names =~= seq![tree_name(opened)]);
    assert(names.drop_last() =~= Seq::empty());
    assert(names.skip(1) =~= Seq::empty());
    assert(path_of(names.drop_last()) =~= Seq::<u8>::empty());
    assert(path_of(names) =~= tree_name(opened));
    law_path_of_names(Seq::empty());
    assert(components(s.path) + components(path_to(m, root, false)) =~= components(s.path));
    assert forall|c: u64| #[trigger] m.contains_key(c) implies c == root by {}
    if metadata.is_dir {
        let jobs = first_jobs(s, opened, metadata);
        assert(jobs[0].ino == root);
    }
}

/// Every job of a listing comes from a directory in it, and every directory has its job.
pub proof fn lemma_scanned_jobs(job: ScanJobView, listing: Seq<DirRecordView>)
    ensures
        forall|i: int|
            0 <= i < scanned_jobs(job, listing).len() ==> exists|k: int|
                0 <= k < listing.len() && (#[trigger] listing[k]).metadata.is_dir && (
                #[trigger] scanned_jobs(job, listing)[i]) == child_job(job, listing[k]),
        forall|k: int|
            0 <= k < listing.len() && (#[trigger] listing[k]).metadata.is_dir ==> exists|i: int|
                0 <= i < scanned_jobs(job, listing).len() && (#[trigger] scanned_jobs(
                    job,
                    listing,
                )[i]) == child_job(job, listing[k]),
    decreases listing.len(),
{
    if listing.len() > 0 {
        let front = listing.drop_last();
        lemma_scanned_jobs(job, front);
        let before = scanned_jobs(job, front);
        let all = scanned_jobs(job, listing);
        assert forall|i: int| 0 <= i < all.len() implies exists|k: int|
            0 <= k < listing.len() && (#[trigger] listing[k]).metadata.is_dir && (
            #[trigger] all[i]) == child_job(job, listing[k]) by {
            if i < before.len() {
                assert(all[i] == before[i]);
                let k = choose|k: int|
                    0 <= k < front.len() && (#[trigger] front[k]).metadata.is_dir && before[i]
                        == child_job(job, front[k]);
                assert(listing[k] == front[k]);
            } else {
                assert(listing[listing.len() - 1] == listing.last());
            }
        }
        assert forall|k: int|
            0 <= k < listing.len() && (#[trigger] listing[k]).metadata.is_dir implies exists|i: int|
            0 <= i < all.len() && (#[trigger] all[i]) == child_job(job, listing[k]) by {
            if k < front.len() {
                assert(front[k] == listing[k]);
                let i = choose|i: int|
                    0 <= i < before.len() && (#[trigger] before[i]) == child_job(job, front[k]);
                assert(all[i] == before[i]);
            } else {
                assert(all[all.len() - 1] == child_job(job, listing[k]));
            }
        }
    }
}

/// The jobs of a fresh listing are for different directories.
proof fn lemma_scanned_jobs_apart(job: ScanJobView, listing: Seq<DirRecordView>)
    requires
        forall|i: int, j: int|
            #![trigger listing[i], listing[j]]
            0 <= i < j < listing.len() ==> listing[i].metadata.inode != listing[j].metadata.inode,
    ensures
        forall|i: int, j: int|
            #![trigger scanned_jobs(job, listing)[i], scanned_jobs(job, listing)[j]]
            0 <= i < j < scanned_jobs(job, listing).len() ==> scanned_jobs(job, listing)[i].ino
                != scanned_jobs(job, listing)[j].ino,
    decreases listing.len(),
{
    if listing.len() > 0 {
        let front = listing.drop_last();
        assert forall|i: int, j: int|
            #![trigger front[i], front[j]]
            0 <= i < j < front.len() implies front[i].metadata.inode != front[j].metadata.inode by {
            assert(front[i] == listing[i] && front[j] == listing[j]);
        }
        lemma_scanned_jobs_apart(job, front);
        lemma_scanned_jobs(job, front);
        let before = scanned_jobs(job, front);
        let all = scanned_jobs(job, listing);
        assert forall|i: int, j: int|
            #![trigger all[i], all[j]]
            0 <= i < j < all.len() implies all[i].ino != all[j].ino by {
            assert(all[i] == before[i]);
            if j < before.len() {
                assert(all[j] == before[j]);
            } else {
                let k = choose|k: int|
                    0 <= k < front.len() && (#[trigger] front[k]).metadata.is_dir && before[i]
                        == child_job(job, front[k]);
                assert(front[k] == listing[k]);
                assert(listing[k].metadata.inode != listing[listing.len() - 1].metadata.inode);
            }
        }
    }
}

/// Whether `after` is `m` with the directory of `job` listed: it holds the lines of the listing, the
/// directory itself, and what was known before.
pub open spec fn is_listed_into(
    m: Map<u64, EntryView>,
    after: Map<u64, EntryView>,
    job: ScanJobView,
    listing: Seq<DirRecordView>,
) -> bool {
    &&& forall|i: int|
        0 <= i < listing.len() ==> after.contains_key((#[trigger] listing[i]).metadata.inode)
            && after[listing[i].metadata.inode] == child_entry(job, listing[i])
    &&& after.contains_key(job.ino)
    &&& after[job.ino] == job.dir_entry.listed(listed_inodes(listing))
    &&& forall|k: u64| #[trigger] m.contains_key(k) ==> after.contains_key(k)
    &&& forall|k: u64| m.contains_key(k) && k != job.ino ==> #[trigger] after[k] == m[k]
    &&& forall|k: u64| #[trigger]
        after.contains_key(k) ==> m.contains_key(k) || exists|i: int|
            0 <= i < listing.len() && (#[trigger] listing[i]).metadata.inode == k
}

/// A directory is listed into the snapshot.
pub proof fn lemma_advanced(s: SnapshotView, job: ScanJobView, listing: Seq<DirRecordView>)
    requires
        is_ready(s, job),
        is_fresh(s.entries, listing),
    ensures
        is_listed_into(s.entries, advanced(s, job, listing).entries, job, listing),
{
    let m = s.entries;
    let entries = scanned_entries(job, listing);
    let after = inserted(m, entries);
    let n = listing.len() as int;
    assert forall|i: int| 0 <= i < n implies (#[trigger] entries[i]) == child_entry(
        job,
        listing[i],
    ) && entries[i].ino() == listing[i].metadata.inode by {}
    assert(entries[n] == job.dir_entry.listed(listed_inodes(listing)));
    assert forall|i: int, j: int|
        #![trigger entries[i], entries[j]]
        0 <= i < j < entries.len() implies entries[i].ino() != entries[j].ino() by {
        if j < n {
            assert(listing[i].metadata.inode != listing[j].metadata.inode);
        } else {
            assert(!m.contains_key(listing[i].metadata.inode));
        }
    }
    law_inserted_entries_are_found(m, entries);
    assert forall|i: int| 0 <= i < listing.len() implies after.contains_key(
        (#[trigger] listing[i]).metadata.inode,
    ) && after[listing[i].metadata.inode] == child_entry(job, listing[i]) by {
        assert(entries[i].ino() == listing[i].metadata.inode);
    }
    assert forall|k: u64| m.contains_key(k) && k != job.ino implies #[trigger] after[k] == m[k]
        && after.contains_key(k) by {
        assert forall|i: int| 0 <= i < entries.len() implies (#[trigger] entries[i]).ino() != k by {
            if i < n {
                assert(!m.contains_key(listing[i].metadata.inode));
            }
        }
        assert(after.contains_key(k) == m.contains_key(k));
    }
    assert(entries[n].ino() == job.ino);
    assert forall|k: u64| #[trigger] m.contains_key(k) implies after.contains_key(k) by {
        if k != job.ino {
            assert(after[k] == m[k]);
        }
    }
    assert forall|k: u64| #[trigger] after.contains_key(k) implies m.contains_key(k) || exists|
        i: int,
    |
        0 <= i < listing.len() && (#[trigger] listing[i]).metadata.inode == k by {
        if !m.contains_key(k) {
            if forall|i: int| 0 <= i < entries.len() ==> (#[trigger] entries[i]).ino() != k {
                assert(after.contains_key(k) == m.contains_key(k));
            } else {
                let i = choose|i: int| 0 <= i < entries.len() && (#[trigger] entries[i]).ino() == k;
                assert(i < n);
                assert(listing[i].metadata.inode == k);
            }
        }
    }
}

/// Listing a directory leaves the way to every known entry as it was.
pub proof fn lemma_advanced_keeps_lineage(
    s: SnapshotView,
    job: ScanJobView,
    listing: Seq<DirRecordView>,
    inode: u64,
)
    requires
        is_ready(s, job),
        is_fresh(s.entries, listing),
        has_lineage(s.entries, inode),
    ensures
        ({
            let after = advanced(s, job, listing).entries;
            &&& has_lineage(after, inode)
            &&& lineage(after, inode) == lineage(s.entries, inode)
            &&& names_along(after, lineage(after, inode)) == names_along(
                s.entries,
                lineage(s.entries, inode),
            )
        }),
{
    let m = s.entries;
    let after = advanced(s, job, listing).entries;
    lemma_advanced(s, job, listing);
    let line = lineage(m, inode);
    assert(is_lineage(m, line));
    assert forall|i: int| 0 <= i < line.len() implies after.contains_key(#[trigger] line[i])
        && after[line[i]].parent() == m[line[i]].parent() && after[line[i]].name()
        == m[line[i]].name() by {
        assert(m.contains_key(line[i]));
        if line[i] != job.ino {
            assert(after[line[i]] == m[line[i]]);
        }
    }
    assert(is_lineage(after, line)) by {
        assert forall|i: int, j: int|
            #![trigger line[i], line[j]]
            0 <= i < line.len() && j == i + 1 && j < line.len() implies after[line[j]].parent()
            == Some(line[i]) by {
            assert(m[line[j]].parent() == Some(line[i]));
        }
    }
    lemma_lineage_is(after, line);
    assert(names_along(after, line) =~= names_along(m, line));
}

/// What is listed in a directory is reached through it: it has the directory's path with its own
/// name behind it.
pub proof fn law_listed_entries_have_paths(
    s: SnapshotView,
    job: ScanJobView,
    listing: Seq<DirRecordView>,
    k: int,
)
    requires
        is_ready(s, job),
        is_fresh(s.entries, listing),
        has_lineage(s.entries, job.ino),
        0 <= k < listing.len(),
    ensures
        ({
            let after = advanced(s, job, listing).entries;
            let inode = listing[k].metadata.inode;
            &&& has_lineage(after, inode)
            &&& lineage(after, inode) == lineage(s.entries, job.ino).push(inode)
            &&& path_to(after, inode, true) == pushed(
                path_to(s.entries, job.ino, true),
                listing[k].name,
            )
            &&& path_to(after, inode, false) == pushed(
                path_to(s.entries, job.ino, false),
                listing[k].name,
            )
        }),
{
    let after = advanced(s, job, listing).entries;
    let inode = listing[k].metadata.inode;
    lemma_advanced(s, job, listing);
    lemma_advanced_keeps_lineage(s, job, listing, job.ino);
    let line = lineage(after, job.ino);
    lemma_lineage_extends(after, line, inode);
    let names = names_along(after, line);
    let more = names_along(after, line.push(inode));
    assert(more =~= names.push(listing[k].name));
    assert(more.drop_last() =~= names);
    assert(more.skip(1).drop_last() =~= names.skip(1));
}

/// What a directory lists after one of them has been listed.
proof fn lemma_listed_children(
    m: Map<u64, EntryView>,
    after: Map<u64, EntryView>,
    job: ScanJobView,
    listing: Seq<DirRecordView>,
    d: u64,
)
    requires
        is_listed_into(m, after, job, listing),
        job.dir_entry is Dir,
        after.contains_key(d),
    ensures
        d == job.ino ==> after[d].children() == listed_inodes(listing),
        d != job.ino && m.contains_key(d) ==> after[d].children() == m[d].children(),
        !m.contains_key(d) && d != job.ino ==> after[d].children().len() == 0,
{
    if d != job.ino {
        if m.contains_key(d) {
            assert(after[d] == m[d]);
        } else {
            let i = choose|i: int|
                0 <= i < listing.len() && (#[trigger] listing[i]).metadata.inode == d;
            assert(after[d] == child_entry(job, listing[i]));
        }
    }
}

/// What stays of a known entry when a directory is listed.
proof fn lemma_listed_keeps(
    m: Map<u64, EntryView>,
    after: Map<u64, EntryView>,
    job: ScanJobView,
    listing: Seq<DirRecordView>,
    c: u64,
)
    requires
        is_listed_into(m, after, job, listing),
        m.contains_key(job.ino),
        m[job.ino] == job.dir_entry,
        m.contains_key(c),
    ensures
        after.contains_key(c),
        after[c].parent() == m[c].parent(),
        after[c].name() == m[c].name(),
        after[c].ino() == m[c].ino(),
        after[c].is_ignored() == m[c].is_ignored(),
        (after[c] is Dir) == (m[c] is Dir),
{
    if c != job.ino {
        assert(after[c] == m[c]);
    }
}

/// Listing a directory keeps children and parents in agreement.
proof fn lemma_listed_links(
    m: Map<u64, EntryView>,
    after: Map<u64, EntryView>,
    job: ScanJobView,
    listing: Seq<DirRecordView>,
)
    requires
        is_listed_into(m, after, job, listing),
        m.contains_key(job.ino),
        m[job.ino] == job.dir_entry,
        job.dir_entry is Dir,
        job.dir_entry.children().len() == 0,
        downlinked(m),
        uplinked(m),
    ensures
        downlinked(after),
        uplinked(after),
{
    assert forall|d: u64, i: int|
        #![trigger after[d].children()[i]]
        after.contains_key(d) && 0 <= i < after[d].children().len() implies after.contains_key(
        after[d].children()[i],
    ) && after[after[d].children()[i]].parent() == Some(d) by {
        lemma_listed_children(m, after, job, listing, d);
        if d == job.ino {
            assert(after[d].children()[i] == listing[i].metadata.inode);
        } else {
            let c = m[d].children()[i];
            assert(m.contains_key(c) && m[c].parent() == Some(d));
            lemma_listed_keeps(m, after, job, listing, c);
        }
    }
    assert forall|c: u64| #[trigger]
        after.contains_key(c) && after[c].parent() is Some implies after.contains_key(
        after[c].parent()->0,
    ) && after[after[c].parent()->0].children().contains(c) by {
        if m.contains_key(c) {
            lemma_listed_keeps(m, after, job, listing, c);
            let p = m[c].parent()->0;
            assert(m.contains_key(p) && m[p].children().contains(c));
            assert(p != job.ino);
            lemma_listed_children(m, after, job, listing, p);
        } else {
            let i = choose|i: int|
                0 <= i < listing.len() && (#[trigger] listing[i]).metadata.inode == c;
            assert(after[c] == child_entry(job, listing[i]));
            lemma_listed_children(m, after, job, listing, job.ino);
            assert(after[job.ino].children()[i] == c);
        }
    }
}

/// Listing a directory keeps names plain, and different within a directory.
proof fn lemma_listed_names(
    m: Map<u64, EntryView>,
    after: Map<u64, EntryView>,
    job: ScanJobView,
    listing: Seq<DirRecordView>,
)
    requires
        is_listed_into(m, after, job, listing),
        is_fresh(m, listing),
        m.contains_key(job.ino),
        m[job.ino] == job.dir_entry,
        job.dir_entry is Dir,
        downlinked(m),
        named_apart(m),
        plainly_named(m),
    ensures
        named_apart(after),
        plainly_named(after),
{
    assert forall|d: u64, i: int, j: int|
        #![trigger after[d].children()[i], after[d].children()[j]]
        after.contains_key(d) && 0 <= i < j < after[d].children().len() implies after[after[d].children()[i]].name()
        != after[after[d].children()[j]].name() by {
        lemma_listed_children(m, after, job, listing, d);
        if d == job.ino {
            assert(after[d].children()[i] == listing[i].metadata.inode);
            assert(after[d].children()[j] == listing[j].metadata.inode);
            assert(listing[i].name != listing[j].name);
        } else {
            let a = m[d].children()[i];
            let b = m[d].children()[j];
            assert(m[a].name() != m[b].name());
            assert(m.contains_key(a) && m.contains_key(b));
            lemma_listed_keeps(m, after, job, listing, a);
            lemma_listed_keeps(m, after, job, listing, b);
        }
    }
    assert forall|c: u64| #[trigger]
        after.contains_key(c) && after[c].parent() is Some implies is_plain_name(after[c].name()) by {
        if m.contains_key(c) {
            lemma_listed_keeps(m, after, job, listing, c);
        } else {
            let i = choose|i: int|
                0 <= i < listing.len() && (#[trigger] listing[i]).metadata.inode == c;
            assert(after[c] == child_entry(job, listing[i]));
        }
    }
}

/// Listing a directory keeps the entries a tree.
proof fn lemma_advanced_is_tree(s: SnapshotView, job: ScanJobView, listing: Seq<DirRecordView>)
    requires
        s.root_inode matches Some(root) && is_tree(s.entries, root),
        is_ready(s, job),
        is_fresh(s.entries, listing),
    ensures
        is_tree(advanced(s, job, listing).entries, s.root_inode->0),
{
    let m = s.entries;
    let root = s.root_inode->0;
    let after = advanced(s, job, listing).entries;
    lemma_advanced(s, job, listing);
    lemma_listed_links(m, after, job, listing);
    lemma_listed_names(m, after, job, listing);
    lemma_listed_keeps(m, after, job, listing, root);
    assert(hangs_on(after, root)) by {
        assert forall|c: u64| #[trigger] after.contains_key(c) implies has_lineage(after, c)
            && lineage(after, c)[0] == root by {
            if m.contains_key(c) {
                assert(has_lineage(m, c));
                lemma_advanced_keeps_lineage(s, job, listing, c);
            } else {
                let i = choose|i: int|
                    0 <= i < listing.len() && (#[trigger] listing[i]).metadata.inode == c;
                assert(has_lineage(m, job.ino));
                law_listed_entries_have_paths(s, job, listing, i);
                let line = lineage(m, job.ino);
                assert(is_lineage(m, line));
                assert(line.push(c)[0] == line[0]);
            }
        }
    }
}

/// Listing a directory keeps what files know of themselves, and passes down what is ignored.
proof fn lemma_advanced_keeps_marks(s: SnapshotView, job: ScanJobView, listing: Seq<DirRecordView>)
    requires
        s.root_inode matches Some(root) && is_tree(s.entries, root) && passes_ignore_down(
            s.entries,
            root,
        ),
        knows_its_place(s, job),
        knows_paths(s.entries),
        is_ready(s, job),
        is_fresh(s.entries, listing),
    ensures
        knows_paths(advanced(s, job, listing).entries),
        passes_ignore_down(advanced(s, job, listing).entries, s.root_inode->0),
{
    let m = s.entries;
    let root = s.root_inode->0;
    let after = advanced(s, job, listing).entries;
    lemma_advanced(s, job, listing);
    assert(m.contains_key(job.ino));
    assert forall|k: u64| #[trigger] after.contains_key(k) implies (
    after[k] matches EntryView::File { path, is_ignored, .. } ==> path.path == path_to(
        after,
        k,
        true,
    ) && path.ino == k && path.is_ignored == is_ignored) && (after[k].parent() matches Some(p)
        ==> p != root && after[p].is_ignored() ==> after[k].is_ignored()) by {
        if m.contains_key(k) {
            lemma_advanced_keeps_lineage(s, job, listing, k);
            if k != job.ino {
                assert(after[k] == m[k]);
            }
            if m[k].parent() is Some {
                let p = m[k].parent()->0;
                assert(m.contains_key(p));
                if p != job.ino {
                    assert(after[p] == m[p]);
                }
            }
        } else {
            let i = choose|i: int|
                0 <= i < listing.len() && (#[trigger] listing[i]).metadata.inode == k;
            law_listed_entries_have_paths(s, job, listing, i);
            assert(after[k] == child_entry(job, listing[i]));
        }
    }
}

/// A job for another directory stays ready when a directory is listed, and a job that comes of the
/// listing is ready.
proof fn lemma_advanced_jobs(
    s: SnapshotView,
    job: ScanJobView,
    listing: Seq<DirRecordView>,
    other: ScanJobView,
)
    requires
        s.root_inode matches Some(root) && is_tree(s.entries, root),
        is_ready(s, job),
        is_fresh(s.entries, listing),
        (is_ready(s, other) && other.ino != job.ino) || exists|k: int|
            0 <= k < listing.len() && (#[trigger] listing[k]).metadata.is_dir && other == child_job(
                job,
                listing[k],
            ),
    ensures
        is_ready(advanced(s, job, listing), other),
        knows_its_place(s, job) && (knows_its_place(s, other) || !is_ready(s, other))
            ==> knows_its_place(advanced(s, job, listing), other),
{
    let m = s.entries;
    let after = advanced(s, job, listing).entries;
    lemma_advanced(s, job, listing);
    if is_ready(s, other) && other.ino != job.ino {
        assert(m.contains_key(other.ino));
        lemma_advanced_keeps_lineage(s, job, listing, other.ino);
        assert(after[other.ino] == m[other.ino]);
    } else {
        let k = choose|k: int|
            0 <= k < listing.len() && (#[trigger] listing[k]).metadata.is_dir && other == child_job(
                job,
                listing[k],
            );
        let name = listing[k].name;
        assert(m.contains_key(job.ino));
        law_listed_entries_have_paths(s, job, listing, k);
        law_push_name(job.path, name);
        law_push_name(path_to(m, job.ino, false), name);
        assert(components(s.path) + components(path_to(m, job.ino, false)).push(name) =~= (
        components(s.path) + components(path_to(m, job.ino, false))).push(name));
    }
}

/// The jobs that are left and those that were found, each ready.
proof fn lemma_jobs_are_ready(
    s: SnapshotView,
    jobs: Seq<ScanJobView>,
    n: int,
    listing: Seq<DirRecordView>,
    i: int,
)
    requires
        scan_holds(s, jobs),
        0 <= n < jobs.len(),
        is_fresh(s.entries, listing),
        0 <= i < (jobs.remove(n) + scanned_jobs(jobs[n], listing)).len(),
    ensures
        is_ready(
            advanced(s, jobs[n], listing),
            (jobs.remove(n) + scanned_jobs(jobs[n], listing))[i],
        ),
        marks_hold(s, jobs) ==> knows_its_place(
            advanced(s, jobs[n], listing),
            (jobs.remove(n) + scanned_jobs(jobs[n], listing))[i],
        ),
{
    let job = jobs[n];
    let left = jobs.remove(n);
    let found = scanned_jobs(job, listing);
    let all = left + found;
    if i < left.len() {
        let k = if i < n {
            i
        } else {
            i + 1
        };
        assert(all[i] == jobs[k]);
        assert(jobs[k].ino != jobs[n].ino);
    } else {
        lemma_scanned_jobs(job, listing);
        assert(all[i] == found[i - left.len()]);
        let k = choose|k: int|
            0 <= k < listing.len() && (#[trigger] listing[k]).metadata.is_dir && found[i - left.len()]
                == child_job(job, listing[k]);
        assert(!s.entries.contains_key(listing[k].metadata.inode));
    }
    lemma_advanced_jobs(s, job, listing, all[i]);
}

/// The jobs that are left and those that were found are for different directories.
proof fn lemma_jobs_are_apart(
    m: Map<u64, EntryView>,
    jobs: Seq<ScanJobView>,
    n: int,
    listing: Seq<DirRecordView>,
    i: int,
    j: int,
)
    requires
        forall|i: int| 0 <= i < jobs.len() ==> m.contains_key((#[trigger] jobs[i]).ino),
        forall|i: int, j: int|
            #![trigger jobs[i], jobs[j]]
            0 <= i < j < jobs.len() ==> jobs[i].ino != jobs[j].ino,
        0 <= n < jobs.len(),
        is_fresh(m, listing),
        0 <= i < j < (jobs.remove(n) + scanned_jobs(jobs[n], listing)).len(),
    ensures
        (jobs.remove(n) + scanned_jobs(jobs[n], listing))[i].ino != (jobs.remove(n) + scanned_jobs(
            jobs[n],
            listing,
        ))[j].ino,
{
    let job = jobs[n];
    let left = jobs.remove(n);
    let found = scanned_jobs(job, listing);
    let all = left + found;
    let a = if i < n {
        i
    } else {
        i + 1
    };
    if j < left.len() {
        let b = if j < n {
            j
        } else {
            j + 1
        };
        assert(all[i] == jobs[a] && all[j] == jobs[b]);
    } else if i < left.len() {
        lemma_scanned_jobs(job, listing);
        assert(all[i] == jobs[a]);
        assert(all[j] == found[j - left.len()]);
        let k = choose|k: int|
            0 <= k < listing.len() && (#[trigger] listing[k]).metadata.is_dir && found[j - left.len()]
                == child_job(job, listing[k]);
        assert(!m.contains_key(listing[k].metadata.inode));
    } else {
        lemma_scanned_jobs_apart(job, listing);
        assert(all[i] == found[i - left.len()]);
        assert(all[j] == found[j - left.len()]);
    }
}

/// Every directory that is pending has its job.
proof fn lemma_pending_has_job(
    m: Map<u64, EntryView>,
    after: Map<u64, EntryView>,
    jobs: Seq<ScanJobView>,
    n: int,
    listing: Seq<DirRecordView>,
    inode: u64,
)
    requires
        0 <= n < jobs.len(),
        is_listed_into(m, after, jobs[n], listing),
        jobs[n].dir_entry is Dir,
        m.contains_key(inode) && m[inode] is Dir && m[inode]->pending ==> exists|i: int|
            0 <= i < jobs.len() && (#[trigger] jobs[i]).ino == inode,
        after.contains_key(inode),
        after[inode] is Dir,
        after[inode]->pending,
    ensures
        exists|i: int|
            0 <= i < (jobs.remove(n) + scanned_jobs(jobs[n], listing)).len() && (
            #[trigger] (jobs.remove(n) + scanned_jobs(jobs[n], listing))[i]).ino == inode,
{
    let job = jobs[n];
    let left = jobs.remove(n);
    let found = scanned_jobs(job, listing);
    let all = left + found;
    assert(inode != job.ino);
    if m.contains_key(inode) {
        assert(after[inode] == m[inode]);
        let i = choose|i: int| 0 <= i < jobs.len() && (#[trigger] jobs[i]).ino == inode;
        let at = if i < n {
            i
        } else {
            i - 1
        };
        assert(all[at] == jobs[i]);
    } else {
        let l = choose|l: int|
            0 <= l < listing.len() && (#[trigger] listing[l]).metadata.inode == inode;
        assert(after[inode] == child_entry(job, listing[l]));
        lemma_scanned_jobs(job, listing);
        let i = choose|i: int|
            0 <= i < found.len() && (#[trigger] found[i]) == child_job(job, listing[l]);
        assert(all[left.len() + i] == found[i]);
    }
}

/// Listing one of the directories that are still to be listed keeps what holds all through a scan,
/// with the directories found there still to be listed.
pub proof fn law_scan_goes_on(
    s: SnapshotView,
    jobs: Seq<ScanJobView>,
    n: int,
    listing: Seq<DirRecordView>,
)
    requires
        scan_holds(s, jobs),
        0 <= n < jobs.len(),
        is_fresh(s.entries, listing),
    ensures
        scan_holds(
            advanced(s, jobs[n], listing),
            jobs.remove(n) + scanned_jobs(jobs[n], listing),
        ),
{
    let job = jobs[n];
    let next = advanced(s, job, listing);
    let after = next.entries;
    let all = jobs.remove(n) + scanned_jobs(job, listing);
    assert(is_ready(s, job));
    lemma_advanced(s, job, listing);
    lemma_advanced_is_tree(s, job, listing);
    assert(keyed_by_inode(after)) by {
        assert forall|k: u64| #[trigger] after.contains_key(k) implies after[k].ino() == k by {
            if s.entries.contains_key(k) {
                lemma_listed_keeps(s.entries, after, job, listing, k);
            } else {
                let i = choose|i: int|
                    0 <= i < listing.len() && (#[trigger] listing[i]).metadata.inode == k;
                assert(after[k] == child_entry(job, listing[i]));
            }
        }
    }
    assert forall|i: int| 0 <= i < all.len() implies is_ready(next, #[trigger] all[i]) by {
        lemma_jobs_are_ready(s, jobs, n, listing, i);
    }
    assert forall|i: int, j: int|
        #![trigger all[i], all[j]]
        0 <= i < j < all.len() implies all[i].ino != all[j].ino by {
        lemma_jobs_are_apart(s.entries, jobs, n, listing, i, j);
    }
    assert forall|k: u64| #[trigger]
        after.contains_key(k) && after[k] is Dir && after[k]->pending implies exists|i: int|
        0 <= i < all.len() && (#[trigger] all[i]).ino == k by {
        lemma_pending_has_job(s.entries, after, jobs, n, listing, k);
    }
}

/// Listing one of the directories keeps what files know of their paths, and passes down what is
/// ignored.
pub proof fn law_scan_keeps_marks(
    s: SnapshotView,
    jobs: Seq<ScanJobView>,
    n: int,
    listing: Seq<DirRecordView>,
)
    requires
        scan_holds(s, jobs),
        marks_hold(s, jobs),
        0 <= n < jobs.len(),
        is_fresh(s.entries, listing),
    ensures
        marks_hold(
            advanced(s, jobs[n], listing),
            jobs.remove(n) + scanned_jobs(jobs[n], listing),
        ),
{
    let job = jobs[n];
    let all = jobs.remove(n) + scanned_jobs(job, listing);
    assert(is_ready(s, job) && knows_its_place(s, job));
    lemma_advanced_keeps_marks(s, job, listing);
    assert forall|i: int| 0 <= i < all.len() implies knows_its_place(
        advanced(s, job, listing),
        #[trigger] all[i],
    ) by {
        lemma_jobs_are_ready(s, jobs, n, listing, i);
    }
}

/// When no directory is left to be listed, none is pending.
pub proof fn law_scan_ends(s: SnapshotView, inode: u64)
    requires
        scan_holds(s, Seq::empty()),
        s.entries.contains_key(inode),
    ensures
        s.entries[inode] matches EntryView::Dir { pending, .. } ==> !pending,
{
}

/// How many files there are in a listing.
pub open spec fn files_listed(listing: Seq<DirRecordView>) -> nat
    decreases listing.len(),
{
    if listing.len() == 0 {
        0
    } else {
        files_listed(listing.drop_last()) + if listing.last().metadata.is_dir {
            0nat
        } else {
            1nat
        }
    }
}

/// One more entry that was not known before.
proof fn lemma_new_entry_counts(m: Map<u64, EntryView>, inode: u64, entry: EntryView)
    requires
        m.dom().finite(),
        !m.contains_key(inode) || (m[inode] is Dir && entry is Dir),
    ensures
        file_inodes(m.insert(inode, entry)).len() == file_inodes(m).len() + if entry is File {
            1nat
        } else {
            0nat
        },
{
    let after = m.insert(inode, entry);
    if entry is File {
        assert(file_inodes(after) =~= file_inodes(m).insert(inode));
    } else {
        assert(file_inodes(after) =~= file_inodes(m));
    }
}

/// Listing a directory adds to the count of files those in the listing.
pub proof fn law_scan_counts_files(s: SnapshotView, job: ScanJobView, listing: Seq<DirRecordView>)
    requires
        s.entries.dom().finite(),
        is_ready(s, job),
        is_fresh(s.entries, listing),
    ensures
        file_inodes(advanced(s, job, listing).entries).len() == file_inodes(s.entries).len()
            + files_listed(listing),
{
    let m = s.entries;
    let lines = Seq::new(listing.len(), |i: int| child_entry(job, listing[i]));
    lemma_lines_count(m, job, listing);
    let entries = scanned_entries(job, listing);
    assert(entries.drop_last() =~= lines);
    let own = job.dir_entry.listed(listed_inodes(listing));
    let before = inserted(m, lines);
    lemma_new_entry_counts(before, job.ino, own);
}

/// The lines of a listing, put in one after the other.
proof fn lemma_lines_count(m: Map<u64, EntryView>, job: ScanJobView, listing: Seq<DirRecordView>)
    requires
        m.dom().finite(),
        is_fresh(m, listing),
    ensures
        ({
            let lines = Seq::new(listing.len(), |i: int| child_entry(job, listing[i]));
            let after = inserted(m, lines);
            &&& after.dom().finite()
            &&& file_inodes(after).len() == file_inodes(m).len() + files_listed(listing)
            &&& forall|k: u64| #[trigger] m.contains_key(k) ==> after.contains_key(k) && after[k] == m[k]
            &&& forall|k: u64| #[trigger]
                after.contains_key(k) ==> m.contains_key(k) || exists|i: int|
                    0 <= i < listing.len() && (#[trigger] listing[i]).metadata.inode == k
        }),
    decreases listing.len(),
{
    let lines = Seq::new(listing.len(), |i: int| child_entry(job, listing[i]));
    let after = inserted(m, lines);
    if listing.len() > 0 {
        let front = listing.drop_last();
        assert(is_fresh(m, front)) by {
            assert forall|i: int| 0 <= i < front.len() implies !m.contains_key(
                (#[trigger] front[i]).metadata.inode,
            ) && is_plain_name(front[i].name) by {
                assert(front[i] == listing[i]);
            }
            assert forall|i: int, j: int|
                #![trigger front[i], front[j]]
                0 <= i < j < front.len() implies front[i].metadata.inode != front[j].metadata.inode
                && front[i].name != front[j].name by {
                assert(front[i] == listing[i] && front[j] == listing[j]);
            }
        }
        lemma_lines_count(m, job, front);
        let fewer = Seq::new(front.len(), |i: int| child_entry(job, front[i]));
        assert(lines.drop_last() =~= fewer);
        let last = listing[listing.len() - 1];
        let inode = last.metadata.inode;
        let before = inserted(m, fewer);
        assert(!m.contains_key(inode));
        assert(!before.contains_key(inode)) by {
            if before.contains_key(inode) {
                let i = choose|i: int|
                    0 <= i < front.len() && (#[trigger] front[i]).metadata.inode == inode;
                assert(listing[i] == front[i]);
                assert(listing[i].metadata.inode != last.metadata.inode);
            }
        }
        lemma_new_entry_counts(before, inode, child_entry(job, last));
        assert forall|k: u64| #[trigger] after.contains_key(k) implies m.contains_key(k) || exists|
            i: int,
        |
            0 <= i < listing.len() && (#[trigger] listing[i]).metadata.inode == k by {
            if k == inode {
                assert(listing[listing.len() - 1].metadata.inode == k);
            } else if !m.contains_key(k) {
                assert(before.contains_key(k));
                let i = choose|i: int|
                    0 <= i < front.len() && (#[trigger] front[i]).metadata.inode == k;
                assert(listing[i] == front[i]);
            }
        }
    }
}

/// What is listed in an ignored directory is ignored, and so will be all that lies below it. A
/// directory named `.git` is ignored wherever it lies.
pub proof fn law_ignored_directories_stay_ignored(
    job: ScanJobView,
    listing: Seq<DirRecordView>,
    n: int,
)
    requires
        0 <= n < listing.len(),
        !job.ignore || (listing[n].metadata.is_dir && listing[n].name == git_name()),
    ensures
        scanned_entries(job, listing)[n].is_ignored(),
        !child_job(job, listing[n]).ignore,
        forall|listing_below: Seq<DirRecordView>, k: int|
            #![trigger scanned_entries(child_job(job, listing[n]), listing_below)[k]]
            0 <= k < listing_below.len() ==> scanned_entries(
                child_job(job, listing[n]),
                listing_below,
            )[k].is_ignored(),
{
}

/// Whether a scan goes through `states`: at each moment it takes one of the directories in the queue
/// of that moment, lists it, and has the directories found there wait at the end.
pub open spec fn is_scan(
    states: Seq<SnapshotView>,
    queues: Seq<Seq<ScanJobView>>,
    picks: Seq<int>,
    listings: Seq<Seq<DirRecordView>>,
) -> bool {
    &&& states.len() == listings.len() + 1
    &&& queues.len() == listings.len() + 1
    &&& picks.len() == listings.len()
    &&& forall|i: int|
        #![trigger listings[i]]
        0 <= i < listings.len() ==> {
            &&& 0 <= picks[i] < queues[i].len()
            &&& is_fresh(states[i].entries, listings[i])
            &&& states[i + 1] == advanced(states[i], queues[i][picks[i]], listings[i])
            &&& queues[i + 1] == queues[i].remove(picks[i]) + scanned_jobs(
                queues[i][picks[i]],
                listings[i],
            )
        }
}

/// How many files there are in some listings.
pub open spec fn files_in_all(listings: Seq<Seq<DirRecordView>>) -> nat
    decreases listings.len(),
{
    if listings.len() == 0 {
        0
    } else {
        files_in_all(listings.drop_last()) + files_listed(listings.last())
    }
}

/// Whether `m` holds the directory of `job` as it was listed, and each line of the listing: a file as
/// it was found, a directory with at least its name and its place.
pub open spec fn keeps_listing(
    m: Map<u64, EntryView>,
    job: ScanJobView,
    listing: Seq<DirRecordView>,
) -> bool {
    &&& m.contains_key(job.ino)
    &&& job.dir_entry is Dir
    &&& m[job.ino] == job.dir_entry.listed(listed_inodes(listing))
    &&& forall|i: int|
        0 <= i < listing.len() ==> {
            let inode = (#[trigger] listing[i]).metadata.inode;
            &&& m.contains_key(inode)
            &&& !listing[i].metadata.is_dir ==> m[inode] == child_entry(job, listing[i])
            &&& m[inode] is Dir == listing[i].metadata.is_dir
            &&& m[inode].parent() == Some(job.ino)
            &&& m[inode].name() == listing[i].name
            &&& m[inode].is_ignored() == child_is_ignored(job, listing[i])
        }
}

/// A directory that has just been listed is there as it was listed.
proof fn lemma_listing_is_there(s: SnapshotView, job: ScanJobView, listing: Seq<DirRecordView>)
    requires
        is_ready(s, job),
        is_fresh(s.entries, listing),
    ensures
        keeps_listing(advanced(s, job, listing).entries, job, listing),
{
    lemma_advanced(s, job, listing);
}

/// Listing a directory keeps what was listed before.
proof fn lemma_listing_is_kept(
    s: SnapshotView,
    job: ScanJobView,
    listing: Seq<DirRecordView>,
    earlier_job: ScanJobView,
    earlier: Seq<DirRecordView>,
)
    requires
        is_ready(s, job),
        is_fresh(s.entries, listing),
        keeps_listing(s.entries, earlier_job, earlier),
    ensures
        keeps_listing(advanced(s, job, listing).entries, earlier_job, earlier),
{
    let m = s.entries;
    let after = advanced(s, job, listing).entries;
    lemma_advanced(s, job, listing);
    // A directory that has been listed is pending no more, so it is not the one listed now.
    assert(earlier_job.ino != job.ino);
    assert(after[earlier_job.ino] == m[earlier_job.ino]);
    assert forall|i: int| 0 <= i < earlier.len() implies {
        let inode = (#[trigger] earlier[i]).metadata.inode;
        &&& after.contains_key(inode)
        &&& !earlier[i].metadata.is_dir ==> after[inode] == child_entry(earlier_job, earlier[i])
        &&& after[inode] is Dir == earlier[i].metadata.is_dir
        &&& after[inode].parent() == Some(earlier_job.ino)
        &&& after[inode].name() == earlier[i].name
        &&& after[inode].is_ignored() == child_is_ignored(earlier_job, earlier[i])
    } by {
        let inode = earlier[i].metadata.inode;
        assert(m.contains_key(inode));
        lemma_listed_keeps(m, after, job, listing, inode);
        if inode != job.ino {
            assert(after[inode] == m[inode]);
        }
    }
}

/// A scan up to its last listing.
pub proof fn lemma_scan_before(
    states: Seq<SnapshotView>,
    queues: Seq<Seq<ScanJobView>>,
    picks: Seq<int>,
    listings: Seq<Seq<DirRecordView>>,
)
    requires
        is_scan(states, queues, picks, listings),
        listings.len() > 0,
    ensures
        is_scan(
            states.drop_last(),
            queues.drop_last(),
            picks.drop_last(),
            listings.drop_last(),
        ),
        states.drop_last().last() == states[listings.len() - 1],
        queues.drop_last().last() == queues[listings.len() - 1],
        0 <= picks.last() < queues[listings.len() - 1].len(),
        is_fresh(states[listings.len() - 1].entries, listings.last()),
        states.last() == advanced(
            states[listings.len() - 1],
            queues[listings.len() - 1][picks.last()],
            listings.last(),
        ),
        queues.last() == queues[listings.len() - 1].remove(picks.last()) + scanned_jobs(
            queues[listings.len() - 1][picks.last()],
            listings.last(),
        ),
{
    let n = listings.len() as int;
    let before = states.drop_last();
    let waiting = queues.drop_last();
    let earlier = listings.drop_last();
    let chosen = picks.drop_last();
    assert forall|i: int| #![trigger earlier[i]] 0 <= i < earlier.len() implies {
        &&& 0 <= chosen[i] < waiting[i].len()
        &&& is_fresh(before[i].entries, earlier[i])
        &&& before[i + 1] == advanced(before[i], waiting[i][chosen[i]], earlier[i])
        &&& waiting[i + 1] == waiting[i].remove(chosen[i]) + scanned_jobs(
            waiting[i][chosen[i]],
            earlier[i],
        )
    } by {
        assert(earlier[i] == listings[i]);
    }
    assert(listings[n - 1] == listings.last());
}

/// What holds at the start of a scan holds all through it.
pub proof fn lemma_scan_holds_on(
    states: Seq<SnapshotView>,
    queues: Seq<Seq<ScanJobView>>,
    picks: Seq<int>,
    listings: Seq<Seq<DirRecordView>>,
)
    requires
        is_scan(states, queues, picks, listings),
        scan_holds(states[0], queues[0]),
    ensures
        scan_holds(states.last(), queues.last()),
        marks_hold(states[0], queues[0]) ==> marks_hold(states.last(), queues.last()),
        states.last().path == states[0].path,
        states.last().root_inode == states[0].root_inode,
    decreases listings.len(),
{
    if listings.len() > 0 {
        let n = listings.len() as int;
        lemma_scan_before(states, queues, picks, listings);
        lemma_scan_holds_on(
            states.drop_last(),
            queues.drop_last(),
            picks.drop_last(),
            listings.drop_last(),
        );
        let s = states[n - 1];
        let jobs = queues[n - 1];
        law_scan_goes_on(s, jobs, picks.last(), listings.last());
        if marks_hold(states[0], queues[0]) {
            law_scan_keeps_marks(s, jobs, picks.last(), listings.last());
        }
    }
}

/// Whether an entry has the place, the name and the kind that it has in another map, and is the same
/// but for a directory that was still to be listed there.
pub open spec fn stays_put(a: Map<u64, EntryView>, b: Map<u64, EntryView>, k: u64) -> bool {
    &&& b.contains_key(k)
    &&& b[k].parent() == a[k].parent()
    &&& b[k].name() == a[k].name()
    &&& b[k].is_ignored() == a[k].is_ignored()
    &&& (b[k] is Dir) == (a[k] is Dir)
    &&& !(a[k] is Dir && a[k]->pending) ==> b[k] == a[k]
}

/// What was known before a scan is known after it, in the same place.
proof fn lemma_scan_keeps_entries(
    states: Seq<SnapshotView>,
    queues: Seq<Seq<ScanJobView>>,
    picks: Seq<int>,
    listings: Seq<Seq<DirRecordView>>,
    k: u64,
)
    requires
        is_scan(states, queues, picks, listings),
        scan_holds(states[0], queues[0]),
        states[0].entries.contains_key(k),
    ensures
        stays_put(states[0].entries, states.last().entries, k),
    decreases listings.len(),
{
    if listings.len() > 0 {
        let n = listings.len() as int;
        lemma_scan_before(states, queues, picks, listings);
        lemma_scan_keeps_entries(
            states.drop_last(),
            queues.drop_last(),
            picks.drop_last(),
            listings.drop_last(),
            k,
        );
        lemma_scan_holds_on(
            states.drop_last(),
            queues.drop_last(),
            picks.drop_last(),
            listings.drop_last(),
        );
        let s = states[n - 1];
        let job = queues[n - 1][picks.last()];
        assert(is_ready(s, job));
        lemma_advanced(s, job, listings.last());
        lemma_listed_keeps(s.entries, states.last().entries, job, listings.last(), k);
    }
}

/// What a scan lists stays as it was listed.
proof fn lemma_scan_keeps_listings(
    states: Seq<SnapshotView>,
    queues: Seq<Seq<ScanJobView>>,
    picks: Seq<int>,
    listings: Seq<Seq<DirRecordView>>,
    i: int,
)
    requires
        is_scan(states, queues, picks, listings),
        scan_holds(states[0], queues[0]),
        0 <= i < listings.len(),
    ensures
        keeps_listing(states.last().entries, queues[i][picks[i]], listings[i]),
    decreases listings.len(),
{
    let n = listings.len() as int;
    lemma_scan_before(states, queues, picks, listings);
    lemma_scan_holds_on(
        states.drop_last(),
        queues.drop_last(),
        picks.drop_last(),
        listings.drop_last(),
    );
    let s = states[n - 1];
    let job = queues[n - 1][picks.last()];
    assert(is_ready(s, job));
    if i < n - 1 {
        lemma_scan_keeps_listings(
            states.drop_last(),
            queues.drop_last(),
            picks.drop_last(),
            listings.drop_last(),
            i,
        );
        lemma_listing_is_kept(s, job, listings.last(), queues[i][picks[i]], listings[i]);
    } else {
        lemma_listing_is_there(s, job, listings.last());
    }
}

/// A directory that is not pending was not pending before the scan, or was listed in it.
proof fn lemma_scan_lists_what_settles(
    states: Seq<SnapshotView>,
    queues: Seq<Seq<ScanJobView>>,
    picks: Seq<int>,
    listings: Seq<Seq<DirRecordView>>,
    d: u64,
)
    requires
        is_scan(states, queues, picks, listings),
        scan_holds(states[0], queues[0]),
        states.last().entries.contains_key(d),
        states.last().entries[d] is Dir,
        !states.last().entries[d]->pending,
    ensures
        (states[0].entries.contains_key(d) && states[0].entries[d] is Dir
            && !states[0].entries[d]->pending) || exists|i: int|
            0 <= i < listings.len() && (#[trigger] queues[i][picks[i]]).ino == d,
    decreases listings.len(),
{
    if listings.len() > 0 {
        let n = listings.len() as int;
        lemma_scan_before(states, queues, picks, listings);
        let before = states.drop_last();
        let waiting = queues.drop_last();
        let chosen = picks.drop_last();
        let earlier = listings.drop_last();
        lemma_scan_holds_on(before, waiting, chosen, earlier);
        let s = states[n - 1];
        let job = queues[n - 1][picks.last()];
        assert(is_ready(s, job));
        lemma_advanced(s, job, listings.last());
        if d == job.ino {
            assert(queues[n - 1][picks[n - 1]].ino == d);
        } else if s.entries.contains_key(d) {
            assert(states.last().entries[d] == s.entries[d]);
            lemma_scan_lists_what_settles(before, waiting, chosen, earlier, d);
            if exists|i: int|
                0 <= i < earlier.len() && (#[trigger] waiting[i][chosen[i]]).ino == d {
                let i = choose|i: int|
                    0 <= i < earlier.len() && (#[trigger] waiting[i][chosen[i]]).ino == d;
                assert(queues[i][picks[i]].ino == d);
            }
        } else {
            let listing = listings.last();
            let i = choose|i: int|
                0 <= i < listing.len() && (#[trigger] listing[i]).metadata.inode == d;
            assert(states.last().entries[d] == child_entry(job, listing[i]));
        }
    }
}

/// A scan adds to the count of files those that it lists.
proof fn lemma_scan_counts(
    states: Seq<SnapshotView>,
    queues: Seq<Seq<ScanJobView>>,
    picks: Seq<int>,
    listings: Seq<Seq<DirRecordView>>,
)
    requires
        is_scan(states, queues, picks, listings),
        scan_holds(states[0], queues[0]),
        states[0].entries.dom().finite(),
    ensures
        states.last().entries.dom().finite(),
        file_inodes(states.last().entries).len() == file_inodes(states[0].entries).len()
            + files_in_all(listings),
    decreases listings.len(),
{
    if listings.len() > 0 {
        let n = listings.len() as int;
        lemma_scan_before(states, queues, picks, listings);
        let before = states.drop_last();
        lemma_scan_counts(before, queues.drop_last(), picks.drop_last(), listings.drop_last());
        lemma_scan_holds_on(before, queues.drop_last(), picks.drop_last(), listings.drop_last());
        let s = states[n - 1];
        let job = queues[n - 1][picks.last()];
        assert(is_ready(s, job));
        law_scan_counts_files(s, job, listings.last());
        lemma_inserted_is_finite(s.entries, scanned_entries(job, listings.last()));
    }
}

/// A run of a scan, from any moment on and in whatever order the directories are listed. What holds
/// at its start holds at its end. What was known stays in its place, what was listed is there as it
/// was listed, and the count of files grows by those listed. A directory that is no longer pending
/// has been listed. When no directory is left to be listed, none is pending.
pub proof fn law_scan_run(
    states: Seq<SnapshotView>,
    queues: Seq<Seq<ScanJobView>>,
    picks: Seq<int>,
    listings: Seq<Seq<DirRecordView>>,
)
    requires
        is_scan(states, queues, picks, listings),
        scan_holds(states[0], queues[0]),
    ensures
        scan_holds(states.last(), queues.last()),
        marks_hold(states[0], queues[0]) ==> marks_hold(states.last(), queues.last()),
        states.last().path == states[0].path,
        states.last().root_inode == states[0].root_inode,
        forall|k: u64| #[trigger]
            states[0].entries.contains_key(k) ==> stays_put(
                states[0].entries,
                states.last().entries,
                k,
            ),
        forall|i: int|
            #![trigger listings[i]]
            0 <= i < listings.len() ==> keeps_listing(
                states.last().entries,
                queues[i][picks[i]],
                listings[i],
            ),
        states[0].entries.dom().finite() ==> states.last().entries.dom().finite() && file_inodes(
            states.last().entries,
        ).len() == file_inodes(states[0].entries).len() + files_in_all(listings),
        forall|d: u64| #[trigger]
            states.last().entries.contains_key(d) && states.last().entries[d] is Dir
                && !states.last().entries[d]->pending ==> (states[0].entries.contains_key(d)
                && states[0].entries[d] is Dir && !states[0].entries[d]->pending) || exists|i: int|
                0 <= i < listings.len() && (#[trigger] queues[i][picks[i]]).ino == d,
        queues.last().len() == 0 ==> forall|d: u64| #[trigger]
            states.last().entries.contains_key(d) && states.last().entries[d] is Dir
                ==> !states.last().entries[d]->pending,
{
    lemma_scan_holds_on(states, queues, picks, listings);
    let last = states.last().entries;
    assert forall|k: u64| #[trigger] states[0].entries.contains_key(k) implies stays_put(
        states[0].entries,
        last,
        k,
    ) by {
        lemma_scan_keeps_entries(states, queues, picks, listings, k);
    }
    assert forall|i: int| #![trigger listings[i]] 0 <= i < listings.len() implies keeps_listing(
        last,
        queues[i][picks[i]],
        listings[i],
    ) by {
        lemma_scan_keeps_listings(states, queues, picks, listings, i);
    }
    if states[0].entries.dom().finite() {
        lemma_scan_counts(states, queues, picks, listings);
    }
    assert forall|d: u64| #[trigger]
        last.contains_key(d) && last[d] is Dir && !last[d]->pending implies (
    states[0].entries.contains_key(d) && states[0].entries[d] is Dir
        && !states[0].entries[d]->pending) || exists|i: int|
        0 <= i < listings.len() && (#[trigger] queues[i][picks[i]]).ino == d by {
        lemma_scan_lists_what_settles(states, queues, picks, listings, d);
    }
    if queues.last().len() == 0 {
        assert(queues.last() =~= Seq::empty());
        assert forall|d: u64| #[trigger] last.contains_key(d) && last[d] is Dir implies !last[d]->pending by {
            law_scan_ends(states.last(), d);
        }
    }
}

/// A whole scan, in whatever order the directories are listed. From an empty snapshot on, what has
/// been found makes up a tree at every moment, files know their paths, and what lies below an
/// ignored directory is ignored. The root bears the name that the tree was opened by. What was
/// listed is there as it was listed, and there are as many files as were listed. When no directory
/// is left to be listed, none is pending.
pub proof fn law_whole_scan(
    empty: SnapshotView,
    opened: Seq<u8>,
    metadata: FsMetadata,
    states: Seq<SnapshotView>,
    queues: Seq<Seq<ScanJobView>>,
    picks: Seq<int>,
    listings: Seq<Seq<DirRecordView>>,
)
    requires
        empty.entries == Map::<u64, EntryView>::empty(),
        is_scan(states, queues, picks, listings),
        states[0] == started(empty, opened, metadata),
        queues[0] == first_jobs(empty, opened, metadata),
    ensures
        scan_holds(states.last(), queues.last()),
        marks_hold(states.last(), queues.last()),
        states.last().root_inode == Some(metadata.inode),
        states.last().entries[metadata.inode].name() == tree_name(opened),
        states.last().path == empty.path,
        states.last().entries.dom().finite(),
        file_inodes(states.last().entries).len() == files_in_all(listings) + if metadata.is_dir {
            0nat
        } else {
            1nat
        },
        forall|i: int|
            #![trigger listings[i]]
            0 <= i < listings.len() ==> keeps_listing(
                states.last().entries,
                queues[i][picks[i]],
                listings[i],
            ),
        queues.last().len() == 0 ==> forall|d: u64| #[trigger]
            states.last().entries.contains_key(d) && states.last().entries[d] is Dir
                ==> !states.last().entries[d]->pending,
{
    let root = metadata.inode;
    law_scan_starts(empty, opened, metadata);
    law_scan_run(states, queues, picks, listings);
    let m = states[0].entries;
    assert(m.contains_key(root));
    assert(stays_put(m, states.last().entries, root));
    assert(m.dom() =~= set![root]);
    if metadata.is_dir {
        assert(file_inodes(m) =~= Set::<u64>::empty());
    } else {
        assert(file_inodes(m) =~= set![root]);
    }
}

/// Finitely many entries stay finitely many.
proof fn lemma_inserted_is_finite(m: Map<u64, EntryView>, entries: Seq<EntryView>)
    requires
        m.dom().finite(),
    ensures
        inserted(m, entries).dom().finite(),
    decreases entries.len(),
{
    if entries.len() > 0 {
        lemma_inserted_is_finite(m, entries.drop_last());
    }
}

} // verus!
