//! What it is to process a whole batch of events.
use vstd::prelude::*;
use crate::entry::EntryView;
use crate::error::WorktreeError;
use crate::event_laws::lemma_behind;
use crate::events::{sorted_paths, EventBatchView};
use crate::orphans::orphaned;
use crate::path::{components, path_ordered, relative_to};
use crate::path_laws::law_path_order_is_total;
use crate::snapshot::SnapshotView;

verus! {

/// A batch without its next path.
pub open spec fn taken(batch: EventBatchView) -> EventBatchView {
    EventBatchView {
        snapshot: batch.snapshot,
        paths: batch.paths.drop_first(),
        possible_removed_inodes: batch.possible_removed_inodes,
        jobs: batch.jobs,
    }
}

/// A batch after its next event, where `looks` tells what the file system holds at a path. A path
/// that does not lie in the tree is passed over.
pub open spec fn stepped(
    batch: EventBatchView,
    looks: spec_fn(Seq<u8>) -> Result<Option<EntryView>, WorktreeError>,
) -> EventBatchView {
    let path = batch.paths[0];
    match relative_to(path, batch.snapshot.path) {
        Some(relative_path) => taken(batch).applied(path, relative_path, looks(path)),
        None => taken(batch),
    }
}

/// Every event leaves fewer to come.
proof fn lemma_step_shortens(
    batch: EventBatchView,
    looks: spec_fn(Seq<u8>) -> Result<Option<EntryView>, WorktreeError>,
)
    requires
        batch.paths.len() > 0,
    ensures
        stepped(batch, looks).paths.len() < batch.paths.len(),
{
    let passed = lemma_behind(batch.paths.drop_first(), batch.paths[0]);
}

/// A batch after all its events.
pub open spec fn processed(
    batch: EventBatchView,
    looks: spec_fn(Seq<u8>) -> Result<Option<EntryView>, WorktreeError>,
) -> EventBatchView
    decreases batch.paths.len(),
    via processed_decreases
{
    if batch.paths.len() == 0 {
        batch
    } else {
        processed(stepped(batch, looks), looks)
    }
}

#[via_fn]
proof fn processed_decreases(
    batch: EventBatchView,
    looks: spec_fn(Seq<u8>) -> Result<Option<EntryView>, WorktreeError>,
) {
    if batch.paths.len() > 0 {
        lemma_step_shortens(batch, looks);
    }
}

/// Whether every event of a batch can be applied.
pub open spec fn can_process(
    batch: EventBatchView,
    looks: spec_fn(Seq<u8>) -> Result<Option<EntryView>, WorktreeError>,
) -> bool
    decreases batch.paths.len(),
    via can_process_decreases
{
    if batch.paths.len() == 0 {
        true
    } else {
        &&& relative_to(batch.paths[0], batch.snapshot.path) matches Some(relative_path)
            ==> taken(batch).can_apply(relative_path, looks(batch.paths[0]))
        &&& can_process(stepped(batch, looks), looks)
    }
}

#[via_fn]
proof fn can_process_decreases(
    batch: EventBatchView,
    looks: spec_fn(Seq<u8>) -> Result<Option<EntryView>, WorktreeError>,
) {
    if batch.paths.len() > 0 {
        lemma_step_shortens(batch, looks);
    }
}

/// A snapshot without those of `candidates` that have no parent, and what lies below them.
pub open spec fn without_orphans(s: SnapshotView, candidates: Seq<u64>) -> SnapshotView {
    s.with_entries(s.entries.remove_keys(orphaned(s.entries, candidates)))
}

/// The snapshot that a batch leaves once the orphans are gone.
pub open spec fn cleaned(batch: EventBatchView) -> SnapshotView {
    without_orphans(batch.snapshot, batch.possible_removed_inodes)
}

/// Whether paths with the same components are spelled alike.
pub open spec fn spelled_alike(paths: Seq<Seq<u8>>) -> bool {
    forall|i: int, j: int|
        #![trigger paths[i], paths[j]]
        0 <= i < paths.len() && 0 <= j < paths.len() && components(paths[i]) == components(paths[j])
            ==> paths[i] == paths[j]
}

/// There is one way only to sort paths that are spelled alike.
proof fn lemma_sorted_paths_are_unique(a: Seq<Seq<u8>>, b: Seq<Seq<u8>>)
    requires
        sorted_paths(a),
        sorted_paths(b),
        spelled_alike(a),
        a.to_multiset() == b.to_multiset(),
    ensures
        a == b,
    decreases a.len(),
{
    broadcast use vstd::seq_lib::group_to_multiset_ensures;

    assert(a.len() == a.to_multiset().len() && b.len() == b.to_multiset().len());
    if a.len() > 0 {
        let x = a[0];
        let y = b[0];
        assert(a.to_multiset().contains(x)) by {
            assert(a.contains(a[0]));
        }
        assert(b.to_multiset().contains(y)) by {
            assert(b.contains(b[0]));
        }
        assert(b.contains(x));
        assert(a.contains(y));
        let i = a.index_of(y);
        let j = b.index_of(x);
        assert(path_ordered(x, y)) by {
            if i == 0 {
                law_path_order_is_total(x, x);
            } else {
                assert(path_ordered(a[0], a[i]));
            }
        }
        assert(path_ordered(y, x)) by {
            if j == 0 {
                law_path_order_is_total(x, x);
            } else {
                assert(path_ordered(b[0], b[j]));
            }
        }
        law_path_order_is_total(x, y);
        assert(a[0] == a[i]);
        let rest_a = a.drop_first();
        let rest_b = b.drop_first();
        assert(rest_a =~= a.remove(0));
        assert(rest_b =~= b.remove(0));
        assert(rest_a.to_multiset() =~= rest_b.to_multiset());
        assert(sorted_paths(rest_a)) by {
            assert forall|i: int, j: int|
                #![trigger rest_a[i], rest_a[j]]
                0 <= i < j < rest_a.len() implies path_ordered(rest_a[i], rest_a[j]) by {
                assert(rest_a[i] == a[i + 1] && rest_a[j] == a[j + 1]);
            }
        }
        assert(sorted_paths(rest_b)) by {
            assert forall|i: int, j: int|
                #![trigger rest_b[i], rest_b[j]]
                0 <= i < j < rest_b.len() implies path_ordered(rest_b[i], rest_b[j]) by {
                assert(rest_b[i] == b[i + 1] && rest_b[j] == b[j + 1]);
            }
        }
        assert(spelled_alike(rest_a)) by {
            assert forall|i: int, j: int|
                #![trigger rest_a[i], rest_a[j]]
                0 <= i < rest_a.len() && 0 <= j < rest_a.len() && components(rest_a[i])
                    == components(rest_a[j]) implies rest_a[i] == rest_a[j] by {
                assert(rest_a[i] == a[i + 1] && rest_a[j] == a[j + 1]);
            }
        }
        lemma_sorted_paths_are_unique(rest_a, rest_b);
        assert(a =~= seq![x] + rest_a);
        assert(b =~= seq![y] + rest_b);
    } else {
        assert(a =~= b);
    }
}

/// The order in which events are given does not matter: two batches that start from the same
/// snapshot, with the same paths in whatever order, come to the same end. They leave the same
/// snapshot, the same directories to be listed, and the same entries once the orphans are gone.
pub proof fn law_order_of_events_does_not_matter(
    a: EventBatchView,
    b: EventBatchView,
    given_a: Seq<Seq<u8>>,
    given_b: Seq<Seq<u8>>,
    looks: spec_fn(Seq<u8>) -> Result<Option<EntryView>, WorktreeError>,
)
    requires
        sorted_paths(a.paths),
        sorted_paths(b.paths),
        a.paths.to_multiset() == given_a.to_multiset(),
        b.paths.to_multiset() == given_b.to_multiset(),
        given_a.to_multiset() == given_b.to_multiset(),
        spelled_alike(given_a),
        a.snapshot == b.snapshot,
        a.possible_removed_inodes == b.possible_removed_inodes,
        a.jobs == b.jobs,
    ensures
        processed(a, looks) == processed(b, looks),
        can_process(a, looks) == can_process(b, looks),
        cleaned(processed(a, looks)) == cleaned(processed(b, looks)),
{
    broadcast use vstd::seq_lib::group_to_multiset_ensures;

    assert(spelled_alike(a.paths)) by {
        assert forall|i: int, j: int|
            #![trigger a.paths[i], a.paths[j]]
            0 <= i < a.paths.len() && 0 <= j < a.paths.len() && components(a.paths[i])
                == components(a.paths[j]) implies a.paths[i] == a.paths[j] by {
            assert(a.paths.contains(a.paths[i]) && a.paths.contains(a.paths[j]));
            assert(a.paths.to_multiset().contains(a.paths[i]));
            assert(a.paths.to_multiset().contains(a.paths[j]));
            let k = given_a.index_of(a.paths[i]);
            let l = given_a.index_of(a.paths[j]);
            assert(given_a.contains(a.paths[i]) && given_a.contains(a.paths[j]));
            assert(given_a[k] == a.paths[i] && given_a[l] == a.paths[j]);
        }
    }
    lemma_sorted_paths_are_unique(a.paths, b.paths);
    assert(a == b);
}

} // verus!
