//! What a single event does to a snapshot.
use vstd::prelude::*;
use crate::entry::EntryView;
use crate::entry_tree::keyed_by_inode;
use crate::error::WorktreeError;
use crate::events::{behind, new_job, recorded, sorted_paths, EventBatchView};
use crate::forest_laws::{
    has_place, is_forest, law_detach_keeps_the_forest, law_forest_without_strays_is_a_tree,
    law_placed_entry_has_its_path, law_placing_keeps_other_lineages, law_placing_keeps_the_forest,
    law_placing_touches_little, law_tree_is_a_forest, placed,
};
use crate::lineage::law_lineage_does_not_repeat;
use crate::path::{components, path_ordered, path_starts_with, pushed, relative_to};
use crate::path_laws::{
    is_plain_name, law_contained_paths_are_contiguous, law_path_of_names,
    law_strip_prefix_drops_components,
};
use crate::scan_laws::{is_ready, scan_holds};
use crate::snapshot::{
    child_named, has_lineage, is_lineage, lineage, names_along, path_to, reparented, resolved,
};
use crate::tree_laws::{
    law_reparent_keeps_other_paths, law_reparent_touches_little, lemma_child_is_listed,
    lemma_lineage_extends, lemma_names_lead_down, lemma_resolved_has_lineage,
};

verus! {

/// An event that does not concern the root keeps the forest in order, with what it detached among
/// the strays, where what it found has a place there.
pub proof fn law_event_keeps_the_forest(
    batch: EventBatchView,
    root: u64,
    path: Seq<u8>,
    relative_path: Seq<u8>,
    found: Result<Option<EntryView>, WorktreeError>,
)
    requires
        is_forest(batch.snapshot.entries, root, batch.possible_removed_inodes),
        keyed_by_inode(batch.snapshot.entries),
        batch.snapshot.entry_at(relative_path) matches Some(known) ==> known.ino() != root,
        found matches Ok(Some(entry)) ==> entry.ino() != root && (batch.is_current(
            relative_path,
            entry,
        ) || (entry.parent() is Some && has_place(
            batch.cleared(relative_path).snapshot.entries,
            entry,
            entry.parent()->0,
        ))),
    ensures
        ({
            let after = batch.applied(path, relative_path, found);
            is_forest(after.snapshot.entries, root, after.possible_removed_inodes)
        }),
{
    let m = batch.snapshot.entries;
    let cleared = batch.cleared(relative_path);
    assert(is_forest(cleared.snapshot.entries, root, cleared.possible_removed_inodes)) by {
        if batch.snapshot.entry_at(relative_path) is Some {
            let known = batch.snapshot.entry_at(relative_path)->0;
            let inode = batch.snapshot.inode_at(relative_path)->0;
            assert(m.contains_key(inode));
            law_detach_keeps_the_forest(m, root, batch.possible_removed_inodes, known.ino());
        }
    }
    if found is Ok && found->Ok_0 is Some {
        let entry = found->Ok_0->0;
        let entries = cleared.snapshot.entries;
        if !batch.is_current(relative_path, entry) {
            law_placing_keeps_the_forest(
                entries,
                root,
                cleared.possible_removed_inodes,
                entry,
                entry.parent()->0,
            );
        }
    }
}

/// An event leaves which tree the snapshot is of. It takes no entry out, and puts none in but what
/// it found. Every other entry stays what it was, with its name.
pub proof fn law_event_touches_little(
    batch: EventBatchView,
    path: Seq<u8>,
    relative_path: Seq<u8>,
    found: Result<Option<EntryView>, WorktreeError>,
    inode: u64,
)
    requires
        keyed_by_inode(batch.snapshot.entries),
    ensures
        ({
            let after = batch.applied(path, relative_path, found);
            let m = batch.snapshot.entries;
            &&& after.snapshot.id == batch.snapshot.id
            &&& after.snapshot.path == batch.snapshot.path
            &&& after.snapshot.root_inode == batch.snapshot.root_inode
            &&& after.snapshot.entries.contains_key(inode) <==> (m.contains_key(inode) || (
            found matches Ok(Some(entry)) && entry.ino() == inode))
            &&& m.contains_key(inode) ==> {
                &&& (after.snapshot.entries[inode] is Dir) == (m[inode] is Dir)
                &&& after.snapshot.entries[inode].ino() == m[inode].ino()
                &&& !(found matches Ok(Some(entry)) && entry.ino() == inode) ==> {
                    &&& after.snapshot.entries[inode].name() == m[inode].name()
                    &&& after.snapshot.entries[inode].is_ignored() == m[inode].is_ignored()
                }
            }
        }),
{
    let m = batch.snapshot.entries;
    let cleared = batch.cleared(relative_path);
    if batch.snapshot.entry_at(relative_path) is Some {
        let known = batch.snapshot.entry_at(relative_path)->0;
        let at = batch.snapshot.inode_at(relative_path)->0;
        assert(m.contains_key(at));
        law_reparent_touches_little(m, known.ino(), known.parent(), None, inode);
    }
    if found is Ok && found->Ok_0 is Some {
        law_placing_touches_little(cleared.snapshot.entries, found->Ok_0->0, inode);
    }
}

/// An event for a path that the snapshot has right, or that could not be read, changes nothing.
pub proof fn law_settled_event_changes_nothing(
    batch: EventBatchView,
    path: Seq<u8>,
    relative_path: Seq<u8>,
    found: Result<Option<EntryView>, WorktreeError>,
)
    requires
        found is Err || (found matches Ok(Some(entry)) && batch.is_current(relative_path, entry)),
    ensures
        batch.applied(path, relative_path, found) == batch,
{
}

/// A path that is gone from the file system leads nowhere afterwards, and what it led to is among
/// the entries that may have left the tree.
pub proof fn law_vanished_path_leads_nowhere(
    batch: EventBatchView,
    root: u64,
    path: Seq<u8>,
    relative_path: Seq<u8>,
)
    requires
        batch.snapshot.root_inode == Some(root),
        is_forest(batch.snapshot.entries, root, batch.possible_removed_inodes),
        keyed_by_inode(batch.snapshot.entries),
        batch.snapshot.entry_at(relative_path) matches Some(known) && known.ino() != root,
    ensures
        ({
            let after = batch.applied(path, relative_path, Ok(None));
            let inode = batch.snapshot.entry_at(relative_path)->0.ino();
            &&& after.snapshot.inode_at(relative_path) is None
            &&& after.snapshot.entries[inode].parent() is None
            &&& after.possible_removed_inodes.contains(inode)
        }),
{
    let m = batch.snapshot.entries;
    let strays = batch.possible_removed_inodes;
    let names = components(relative_path);
    let child = batch.snapshot.inode_at(relative_path)->0;
    assert(m.contains_key(child));
    let old_parent = m[child].parent();
    let after = reparented(m, child, old_parent, None);
    law_detach_keeps_the_forest(m, root, strays, child);
    law_reparent_touches_little(m, child, old_parent, None, child);
    assert(recorded(strays, child).contains(child)) by {
        if !strays.contains(child) {
            assert(recorded(strays, child)[strays.len() as int] == child);
        }
    }
    if resolved(after, root, names) is Some {
        lemma_resolved_has_lineage(after, root, names);
        let x = resolved(after, root, names)->0;
        let line = lineage(after, x);
        assert(is_lineage(after, line));
        assert forall|i: int| 0 <= i < line.len() implies m.contains_key(#[trigger] line[i])
            && line[i] != child && m[line[i]].name() == after[line[i]].name()
            && m[line[i]].parent() == after[line[i]].parent() by {
            assert(after.contains_key(line[i]));
            assert(after.dom() =~= m.dom());
            if i > 0 {
                assert(after[line[i]].parent() == Some(line[i - 1]));
            }
            law_reparent_touches_little(m, child, old_parent, None, line[i]);
        }
        assert(is_lineage(m, line)) by {
            assert forall|i: int, j: int|
                #![trigger line[i], line[j]]
                0 <= i < line.len() && j == i + 1 && j < line.len() implies m[line[j]].parent()
                == Some(line[i]) by {
                assert(after[line[j]].parent() == Some(line[i]));
            }
        }
        lemma_names_lead_down(m, line);
        assert(names_along(m, line) =~= names_along(after, line));
        assert(line[line.len() - 1] != child);
    }
}

/// Whether a directory lists nothing of a name.
pub open spec fn lists_no(m: Map<u64, EntryView>, d: u64, name: Seq<u8>) -> bool {
    forall|i: int|
        0 <= i < m[d].children().len() ==> m[#[trigger] m[d].children()[i]].name() != name
}

/// Once what the snapshot has at a path is detached, the directory of the path is where it was, and
/// lists nothing of the path's last name.
pub proof fn lemma_cleared(
    batch: EventBatchView,
    root: u64,
    relative_path: Seq<u8>,
    parent: u64,
)
    requires
        batch.snapshot.root_inode == Some(root),
        is_forest(batch.snapshot.entries, root, batch.possible_removed_inodes),
        keyed_by_inode(batch.snapshot.entries),
        components(relative_path).len() > 0,
        resolved(batch.snapshot.entries, root, components(relative_path).drop_last()) == Some(
            parent,
        ),
    ensures
        ({
            let m = batch.snapshot.entries;
            let cleared = batch.cleared(relative_path);
            let entries = cleared.snapshot.entries;
            let names = components(relative_path);
            &&& is_forest(entries, root, cleared.possible_removed_inodes)
            &&& entries.dom() == m.dom()
            &&& m.contains_key(parent)
            &&& has_lineage(m, parent)
            &&& has_lineage(entries, parent)
            &&& lineage(entries, parent) == lineage(m, parent)
            &&& lineage(m, parent)[0] == root
            &&& names_along(entries, lineage(m, parent)).skip(1) == names.drop_last()
            &&& lists_no(entries, parent, names.last())
            &&& batch.snapshot.inode_at(relative_path) matches Some(c) ==> c != root
                && m.contains_key(c) && m[c].parent() == Some(parent) && m[c].name() == names.last()
                && batch.snapshot.entry_at(relative_path) == Some(m[c])
            &&& batch.snapshot.inode_at(relative_path) is None
                ==> batch.snapshot.entry_at(relative_path) is None
        }),
{
    let m = batch.snapshot.entries;
    let strays = batch.possible_removed_inodes;
    let names = components(relative_path);
    let cleared = batch.cleared(relative_path);
    let entries = cleared.snapshot.entries;
    lemma_resolved_has_lineage(m, root, names.drop_last());
    let line = lineage(m, parent);
    assert(is_lineage(m, line));
    lemma_child_is_listed(m, m[parent].children(), names.last());
    if batch.snapshot.inode_at(relative_path) is None {
        assert forall|i: int| 0 <= i < m[parent].children().len() implies m[#[trigger] m[parent].children()[i]].name()
            != names.last() by {
            assert(m.contains_key(m[parent].children()[i]));
            if m[m[parent].children()[i]].name() == names.last() {
                assert(m[parent] is Dir);
                assert(child_named(m, m[parent].children(), names.last()) is None);
            }
        }
    } else {
        let c = batch.snapshot.inode_at(relative_path)->0;
        assert(child_named(m, m[parent].children(), names.last()) == Some(c));
        let k = m[parent].children().index_of(c);
        assert(m[m[parent].children()[k]].parent() == Some(parent));
        assert(c != root);
        assert(has_lineage(m, c));
        law_detach_keeps_the_forest(m, root, strays, c);
        assert(!line.contains(c)) by {
            let longer = lineage(m, c);
            assert(is_lineage(m, longer));
            law_lineage_does_not_repeat(m, longer);
            lemma_lineage_extends(m, line, c);
            if line.contains(c) {
                let t = line.index_of(c);
                assert(longer[t] == c && longer[line.len() as int] == c);
            }
        }
        law_reparent_keeps_other_paths(m, c, Some(parent), None, parent, true);
        assert(entries == reparented(m, c, Some(parent), None));
        law_reparent_touches_little(m, c, Some(parent), None, parent);
        assert forall|i: int| 0 <= i < line.len() implies entries[#[trigger] line[i]].name()
            == m[line[i]].name() by {
            assert(m.contains_key(line[i]));
            law_reparent_touches_little(m, c, Some(parent), None, line[i]);
        }
        assert(names_along(entries, line) =~= names_along(m, line));
        assert(parent != c) by {
            assert(line.contains(line.last()));
        }
        assert forall|i: int|
            0 <= i < entries[parent].children().len() implies entries[#[trigger] entries[parent].children()[i]].name()
            != names.last() by {
            let x = entries[parent].children()[i];
            assert(entries.contains_key(x) && entries[x].parent() == Some(parent));
            law_reparent_touches_little(m, c, Some(parent), None, c);
            assert(x != c);
            law_reparent_touches_little(m, c, Some(parent), None, x);
            assert(m[x].parent() == Some(parent));
            assert(m[parent].children().contains(x));
            let j = m[parent].children().index_of(x);
            if j < k {
                assert(m[m[parent].children()[j]].name() != m[m[parent].children()[k]].name());
            } else {
                assert(m[m[parent].children()[k]].name() != m[m[parent].children()[j]].name());
            }
        }
    }
}

/// A path where something is found leads to it afterwards, with nothing else out of order: where
/// the path's directory leads to the parent of what is found, and the path's last name is its name.
/// This holds of what moved there, of what was renamed, and of what is new.
pub proof fn law_found_path_leads_to_what_was_found(
    batch: EventBatchView,
    root: u64,
    path: Seq<u8>,
    relative_path: Seq<u8>,
    entry: EntryView,
    parent: u64,
)
    requires
        batch.snapshot.root_inode == Some(root),
        is_forest(batch.snapshot.entries, root, batch.possible_removed_inodes),
        keyed_by_inode(batch.snapshot.entries),
        components(relative_path).len() > 0,
        resolved(batch.snapshot.entries, root, components(relative_path).drop_last()) == Some(
            parent,
        ),
        components(relative_path).last() == entry.name(),
        is_plain_name(entry.name()),
        entry.parent() == Some(parent),
        batch.snapshot.entries[parent] is Dir,
        entry.ino() != root,
        !lineage(batch.snapshot.entries, parent).contains(entry.ino()),
        !batch.snapshot.entries.contains_key(entry.ino()) ==> entry.children().len() == 0,
    ensures
        ({
            let after = batch.applied(path, relative_path, Ok(Some(entry)));
            &&& after.snapshot.inode_at(relative_path) == Some(entry.ino())
            &&& is_forest(after.snapshot.entries, root, after.possible_removed_inodes)
            &&& after.snapshot.entries[entry.ino()].parent() == Some(parent)
            &&& after.snapshot.entries[entry.ino()].name() == entry.name()
        }),
{
    let m = batch.snapshot.entries;
    let names = components(relative_path);
    let cleared = batch.cleared(relative_path);
    let entries = cleared.snapshot.entries;
    let after = batch.applied(path, relative_path, Ok(Some(entry)));
    lemma_cleared(batch, root, relative_path, parent);
    if !batch.is_current(relative_path, entry) {
        if batch.snapshot.inode_at(relative_path) is Some {
            let c = batch.snapshot.inode_at(relative_path)->0;
            law_reparent_touches_little(m, c, m[c].parent(), None, parent);
        }
        assert(has_place(entries, entry, parent));
        law_placing_keeps_the_forest(
            entries,
            root,
            cleared.possible_removed_inodes,
            entry,
            parent,
        );
        law_placed_entry_has_its_path(entries, entry, parent, true);
        law_placing_touches_little(entries, entry, parent);
        assert(after.snapshot.entries == placed(entries, entry));
        let line = lineage(m, parent);
        let longer = line.push(entry.ino());
        assert(is_lineage(m, line));
        assert(longer[0] == root);
        let more = names_along(after.snapshot.entries, longer);
        assert(more.skip(1) =~= names) by {
            let upper = names_along(entries, line);
            assert(more == upper.push(entry.name()));
            assert(upper.push(entry.name()).skip(1) =~= upper.skip(1).push(entry.name()));
            assert(names.drop_last().push(names.last()) =~= names);
        }
        lemma_names_lead_down(after.snapshot.entries, longer);
    }
}

/// What is found at a place gets its path there: the path of the directory that it is found in,
/// with its name behind it.
pub proof fn law_event_gives_what_it_found_its_path(
    batch: EventBatchView,
    path: Seq<u8>,
    relative_path: Seq<u8>,
    entry: EntryView,
    parent: u64,
    with_root: bool,
)
    requires
        !batch.is_current(relative_path, entry),
        entry.parent() == Some(parent),
        ({
            let entries = batch.cleared(relative_path).snapshot.entries;
            &&& has_lineage(entries, parent)
            &&& !lineage(entries, parent).contains(entry.ino())
        }),
    ensures
        ({
            let before = batch.cleared(relative_path).snapshot.entries;
            let after = batch.applied(path, relative_path, Ok(Some(entry))).snapshot.entries;
            path_to(after, entry.ino(), with_root) == pushed(
                path_to(before, parent, with_root),
                entry.name(),
            )
        }),
{
    let entries = batch.cleared(relative_path).snapshot.entries;
    law_placed_entry_has_its_path(entries, entry, parent, with_root);
}

/// A new directory is ready to be listed, and joins the directories of a scan that are still to be
/// listed: what holds all through a scan holds with it. A new file waits for nothing.
pub proof fn law_new_entry_joins_the_scan(
    batch: EventBatchView,
    path: Seq<u8>,
    relative_path: Seq<u8>,
    entry: EntryView,
    parent: u64,
)
    requires
        scan_holds(batch.snapshot, batch.jobs),
        relative_to(path, batch.snapshot.path) == Some(relative_path),
        components(relative_path).len() > 0,
        batch.snapshot.inode_at(relative_path) is None,
        resolved(
            batch.snapshot.entries,
            batch.snapshot.root_inode->0,
            components(relative_path).drop_last(),
        ) == Some(parent),
        components(relative_path).last() == entry.name(),
        is_plain_name(entry.name()),
        entry.parent() == Some(parent),
        batch.snapshot.entries[parent] matches EntryView::Dir { pending, .. } && !pending,
        !batch.snapshot.entries.contains_key(entry.ino()),
        entry.children().len() == 0,
        entry matches EntryView::Dir { pending, .. } ==> pending,
    ensures
        ({
            let after = batch.applied(path, relative_path, Ok(Some(entry)));
            &&& scan_holds(after.snapshot, after.jobs)
            &&& after.snapshot.inode_at(relative_path) == Some(entry.ino())
            &&& entry is Dir ==> after.jobs == batch.jobs.push(new_job(path, relative_path, entry))
            &&& entry is File ==> after.jobs == batch.jobs
        }),
{
    let m = batch.snapshot.entries;
    let root = batch.snapshot.root_inode->0;
    let names = components(relative_path);
    let none = Seq::<u64>::empty();
    let plain = EventBatchView {
        snapshot: batch.snapshot,
        paths: batch.paths,
        possible_removed_inodes: none,
        jobs: batch.jobs,
    };
    law_tree_is_a_forest(m, root, none);
    lemma_cleared(plain, root, relative_path, parent);
    let line = lineage(m, parent);
    assert(is_lineage(m, line));
    assert(!line.contains(entry.ino())) by {
        if line.contains(entry.ino()) {
            assert(m.contains_key(line[line.index_of(entry.ino())]));
        }
    }
    law_found_path_leads_to_what_was_found(plain, root, path, relative_path, entry, parent);
    let after = batch.applied(path, relative_path, Ok(Some(entry)));
    assert(batch.cleared(relative_path).snapshot == batch.snapshot);
    assert(plain.cleared(relative_path).snapshot == batch.snapshot);
    let entries = after.snapshot.entries;
    assert(entries == placed(m, entry));
    assert(plain.applied(path, relative_path, Ok(Some(entry))).snapshot.entries == entries);
    assert(plain.applied(path, relative_path, Ok(Some(entry))).possible_removed_inodes == none);
    assert(is_forest(entries, root, none));
    law_forest_without_strays_is_a_tree(entries, root);
    assert forall|k: u64| m.contains_key(k) && k != parent implies #[trigger] entries[k] == m[k]
        && entries.contains_key(k) by {}
    assert(entries[entry.ino()] == entry);
    assert(entries[parent] == m[parent].with_children(m[parent].children().push(entry.ino())));
    law_placing_touches_little(m, entry, parent);
    assert(keyed_by_inode(entries)) by {
        assert forall|k: u64| #[trigger] entries.contains_key(k) implies entries[k].ino() == k by {
            if k != parent && k != entry.ino() {
                assert(m.contains_key(k));
                assert(entries[k] == m[k]);
            }
        }
    }
    let jobs = after.jobs;
    assert forall|i: int| 0 <= i < batch.jobs.len() implies is_ready(
        after.snapshot,
        #[trigger] batch.jobs[i],
    ) && batch.jobs[i].ino != entry.ino() by {
        let job = batch.jobs[i];
        assert(is_ready(batch.snapshot, job));
        assert(job.ino != parent);
        assert(entries[job.ino] == m[job.ino]);
        assert(has_lineage(m, job.ino));
        let own = lineage(m, job.ino);
        assert(is_lineage(m, own));
        assert(!own.contains(entry.ino())) by {
            if own.contains(entry.ino()) {
                assert(m.contains_key(own[own.index_of(entry.ino())]));
            }
        }
        law_placing_keeps_other_lineages(m, entry, job.ino);
    }
    if entry is Dir {
        let job = new_job(path, relative_path, entry);
        assert(jobs == batch.jobs.push(job));
        law_placed_entry_has_its_path(m, entry, parent, false);
        law_strip_prefix_drops_components(path, batch.snapshot.path);
        let bearing = names_along(entries, lineage(entries, entry.ino())).skip(1);
        assert(bearing =~= names) by {
            let upper = names_along(m, line);
            assert(upper.push(entry.name()).skip(1) =~= upper.skip(1).push(entry.name()));
            assert(names.drop_last().push(names.last()) =~= names);
        }
        let below = lineage(entries, entry.ino());
        assert(is_lineage(entries, below));
        assert forall|i: int| 0 <= i < bearing.len() implies is_plain_name(
            #[trigger] bearing[i],
        ) by {
            assert(entries[below[i + 1]].parent() == Some(below[i]));
            assert(entries.contains_key(below[i + 1]));
        }
        law_path_of_names(bearing);
        let base = components(batch.snapshot.path);
        assert(components(path) =~= base + components(path).skip(base.len() as int));
        assert(is_ready(after.snapshot, job));
    }
    assert forall|i: int| 0 <= i < jobs.len() implies is_ready(
        after.snapshot,
        #[trigger] jobs[i],
    ) by {
        if i < batch.jobs.len() {
            assert(jobs[i] == batch.jobs[i]);
        }
    }
    assert forall|i: int, j: int|
        #![trigger jobs[i], jobs[j]]
        0 <= i < j < jobs.len() implies jobs[i].ino != jobs[j].ino by {
        assert(jobs[i] == batch.jobs[i]);
        if j < batch.jobs.len() {
            assert(jobs[j] == batch.jobs[j]);
        }
    }
    assert forall|k: u64| #[trigger]
        entries.contains_key(k) && entries[k] is Dir && entries[k]->pending implies exists|i: int|
        0 <= i < jobs.len() && (#[trigger] jobs[i]).ino == k by {
        if k == entry.ino() {
            assert(jobs[batch.jobs.len() as int].ino == k);
        } else {
            assert(k != parent);
            assert(m.contains_key(k));
            assert(entries[k] == m[k]);
            let i = choose|i: int| 0 <= i < batch.jobs.len() && (#[trigger] batch.jobs[i]).ino == k;
            assert(jobs[i] == batch.jobs[i]);
        }
    }
}

/// What is passed over lies at or below the path; what comes first behind it does not.
pub proof fn lemma_behind(paths: Seq<Seq<u8>>, path: Seq<u8>) -> (passed: int)
    ensures
        0 <= passed <= paths.len(),
        behind(paths, path) == paths.skip(passed),
        forall|i: int| 0 <= i < passed ==> path_starts_with(#[trigger] paths[i], path),
        passed < paths.len() ==> !path_starts_with(paths[passed], path),
    decreases paths.len(),
{
    if paths.len() > 0 && path_starts_with(paths[0], path) {
        let rest = paths.drop_first();
        let n = lemma_behind(rest, path);
        assert(behind(paths, path) =~= paths.skip(n + 1));
        assert forall|i: int| 0 <= i < n + 1 implies path_starts_with(#[trigger] paths[i], path) by {
            if i > 0 {
                assert(paths[i] == rest[i - 1]);
            }
        }
        n + 1
    } else {
        assert(paths.skip(0) =~= paths);
        0
    }
}

/// When something is found that the snapshot does not know, exactly the events at and below it are
/// passed over: none of those that are left lies there, and every one that is gone did.
pub proof fn law_listing_covers_the_events_below(
    batch: EventBatchView,
    path: Seq<u8>,
    relative_path: Seq<u8>,
    entry: EntryView,
)
    requires
        sorted_paths(seq![path] + batch.paths),
        !batch.is_current(relative_path, entry),
        !batch.cleared(relative_path).snapshot.entries.contains_key(entry.ino()),
    ensures
        ({
            let after = batch.applied(path, relative_path, Ok(Some(entry)));
            exists|passed: int|
                0 <= passed <= batch.paths.len() && after.paths == #[trigger] batch.paths.skip(passed)
                    && (forall|i: int|
                    0 <= i < batch.paths.len() ==> (path_starts_with(#[trigger] batch.paths[i], path)
                        <==> i < passed))
        }),
{
    let paths = batch.paths;
    let after = batch.applied(path, relative_path, Ok(Some(entry)));
    assert(batch.cleared(relative_path).paths == paths);
    let passed = lemma_behind(paths, path);
    let all = seq![path] + paths;
    assert forall|i: int| 0 <= i < paths.len() implies (path_starts_with(#[trigger] paths[i], path)
        <==> i < passed) by {
        if i >= passed && path_starts_with(paths[i], path) {
            assert(all[0] == path && all[passed + 1] == paths[passed] && all[i + 1] == paths[i]);
            assert(path_ordered(all[0], all[passed + 1]));
            if i > passed {
                assert(path_ordered(all[passed + 1], all[i + 1]));
                law_contained_paths_are_contiguous(path, paths[passed], paths[i]);
            }
        }
    }
    assert(after.paths == paths.skip(passed));
}

/// Events stay in order.
pub proof fn law_events_stay_sorted(
    batch: EventBatchView,
    path: Seq<u8>,
    relative_path: Seq<u8>,
    found: Result<Option<EntryView>, WorktreeError>,
)
    requires
        sorted_paths(seq![path] + batch.paths),
    ensures
        sorted_paths(batch.applied(path, relative_path, found).paths),
{
    let all = seq![path] + batch.paths;
    let after = batch.applied(path, relative_path, found).paths;
    assert(batch.cleared(relative_path).paths == batch.paths);
    let passed = lemma_behind(batch.paths, path);
    assert(batch.paths.skip(0) =~= batch.paths);
    let from = if after == batch.paths {
        0
    } else {
        passed
    };
    assert(after == batch.paths.skip(from));
    assert forall|i: int, j: int|
        #![trigger after[i], after[j]]
        0 <= i < j < after.len() implies path_ordered(after[i], after[j]) by {
        assert(after[i] == all[from + i + 1] && after[j] == all[from + j + 1]);
    }
}

} // verus!
