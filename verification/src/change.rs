//! How a change of the file system shows in the paths of a snapshot.
use vstd::prelude::*;
use crate::entry::EntryView;
use crate::entry_tree::keyed_by_inode;
use crate::error::WorktreeError;
use crate::events::sorted_paths;
use crate::forest_laws::{
    is_forest, law_orphan_removal_leaves_a_tree, law_orphans_hang_on_candidates,
};
use crate::lineage::lemma_lineage_prefix;
use crate::orphans::orphaned;
use crate::path::{components, components_ordered, path_ordered, path_starts_with, relative_to};
use crate::path_laws::{law_path_order_is_total, law_strip_prefix_drops_components};
use crate::snapshot::{
    has_lineage, is_lineage, lemma_resolved_needs_prefix, lineage, names_along, resolved,
    SnapshotView,
};
use crate::tree_laws::{
    downlinked, is_tree, lemma_child_is_listed, lemma_lineage_extends, lemma_lineage_is,
    lemma_names_lead_down, lemma_resolved_has_lineage, named_apart, uplinked,
};

verus! {

/// The names that lead from `base` to `path`, where it lies at or below it.
pub open spec fn names_in(path: Seq<u8>, base: Seq<u8>) -> Option<Seq<Seq<u8>>> {
    match relative_to(path, base) {
        Some(relative_path) => Some(components(relative_path)),
        None => None,
    }
}

/// Whether one of `paths` leads along `names` from `base`.
pub open spec fn is_event(paths: Seq<Seq<u8>>, base: Seq<u8>, names: Seq<Seq<u8>>) -> bool {
    exists|i: int| 0 <= i < paths.len() && #[trigger] names_in(paths[i], base) == Some(names)
}

/// Whether an entry has the parent and the name that it has on the file system.
pub open spec fn agrees(m: Map<u64, EntryView>, fs: Map<u64, EntryView>, k: u64) -> bool {
    m.contains_key(k) && m[k].parent() == fs[k].parent() && m[k].name() == fs[k].name()
}

/// Whether something lies at `names` on the file system that `m` does not know, or knows elsewhere or
/// by another name.
#[verifier::opaque]
pub open spec fn is_changed(
    m: Map<u64, EntryView>,
    fs: Map<u64, EntryView>,
    root: u64,
    names: Seq<Seq<u8>>,
) -> bool {
    &&& names.len() > 0
    &&& resolved(fs, root, names) matches Some(k) && !agrees(m, fs, k)
}

/// Whether `m` knows something in the directory `d` by the name `name`.
pub open spec fn holds(m: Map<u64, EntryView>, d: u64, name: Seq<u8>) -> bool {
    exists|c: u64| #[trigger] m.contains_key(c) && m[c].parent() == Some(d) && m[c].name() == name
}

/// Whether nothing can be left at `names` once the events are processed: on the way there something is
/// missing on the file system for which there is an event, or which was not known before in the
/// directory that it is missing from.
#[verifier::opaque]
pub open spec fn is_gone(
    s: SnapshotView,
    files: SnapshotView,
    paths: Seq<Seq<u8>>,
    names: Seq<Seq<u8>>,
) -> bool {
    let fs = files.entries;
    let root = s.root_inode->0;
    exists|j: int|
        0 < j <= names.len() && resolved(fs, root, #[trigger] names.take(j)) is None && (is_event(
            paths,
            s.path,
            names.take(j),
        ) || (resolved(fs, root, names.take(j - 1)) matches Some(d) && !holds(
            s.entries,
            d,
            names[j - 1],
        )))
}

/// Whether `entry` is what a lookup gives for `there`, an entry of the file system: with its inode,
/// its parent and its name, a directory still to be listed.
pub open spec fn is_lookup_of(entry: EntryView, there: EntryView) -> bool {
    &&& entry.ino() == there.ino()
    &&& entry.parent() == there.parent()
    &&& there.parent() is Some ==> entry.name() == there.name()
    &&& (entry is Dir) == (there is Dir)
    &&& entry.children().len() == 0
    &&& entry is Dir ==> entry->pending
}

/// Whether `looks` tells what `files`, the state of the file system, holds at `path`.
pub open spec fn tells(
    looks: spec_fn(Seq<u8>) -> Result<Option<EntryView>, WorktreeError>,
    files: SnapshotView,
    path: Seq<u8>,
) -> bool {
    relative_to(path, files.path) matches Some(relative_path) ==> match files.entry_at(
        relative_path,
    ) {
        Some(there) => looks(path) matches Ok(Some(entry)) && is_lookup_of(entry, there),
        None => looks(path) == Ok::<Option<EntryView>, WorktreeError>(None),
    }
}

/// Whether `names` lead through something on the file system that `m` does not know.
pub open spec fn is_below_new(
    m: Map<u64, EntryView>,
    fs: Map<u64, EntryView>,
    root: u64,
    names: Seq<Seq<u8>>,
) -> bool {
    exists|j: int|
        0 <= j < names.len() && resolved(fs, root, #[trigger] names.take(j)) is Some
            && !m.contains_key(resolved(fs, root, names.take(j))->0)
}

/// Whether something lies at `names` on the file system that `m` does not know, in a directory that
/// it knows.
pub open spec fn is_new(
    m: Map<u64, EntryView>,
    fs: Map<u64, EntryView>,
    root: u64,
    names: Seq<Seq<u8>>,
) -> bool {
    &&& !is_below_new(m, fs, root, names)
    &&& resolved(fs, root, names) is Some
    &&& !m.contains_key(resolved(fs, root, names)->0)
}

/// Whether `paths` are the events for a change of the file system from what the snapshot has to
/// `files`. Both are trees with the same root, and what the snapshot knows and the file system has as
/// a directory, it knows as a directory.
///
/// There is an event for the path of everything on the file system that is new, has moved or was
/// renamed, but for what lies below something new. What moved along with its directory needs none.
/// Every event is for a path whose directory is there, or is gone, or for a path below something new.
pub open spec fn is_change(s: SnapshotView, files: SnapshotView, paths: Seq<Seq<u8>>) -> bool {
    let m = s.entries;
    let fs = files.entries;
    &&& s.path == files.path
    &&& s.root_inode == files.root_inode
    &&& s.root_inode matches Some(root) && {
        &&& is_tree(m, root)
        &&& is_tree(fs, root)
        &&& forall|names: Seq<Seq<u8>>| #[trigger]
            is_changed(m, fs, root, names) && !is_below_new(m, fs, root, names) ==> is_event(
                paths,
                s.path,
                names,
            )
        &&& forall|i: int|
            0 <= i < paths.len() ==> (#[trigger] names_in(paths[i], s.path) matches Some(names)
                ==> names.len() == 0 || is_below_new(m, fs, root, names) || resolved(
                fs,
                root,
                names.drop_last(),
            ) is Some || is_gone(s, files, paths, names.drop_last()))
    }
    &&& keyed_by_inode(m)
    &&& keyed_by_inode(fs)
    &&& forall|k: u64|
        fs.contains_key(k) ==> (#[trigger] fs[k].parent() matches Some(q) ==> m.contains_key(q)
            ==> m[q] is Dir)
}

/// Whether there is an event for every path at which a directory of the file system does not hold any
/// more what it was known to hold, but for those below something new.
pub open spec fn is_told_of_losses(
    s: SnapshotView,
    files: SnapshotView,
    paths: Seq<Seq<u8>>,
) -> bool {
    let fs = files.entries;
    let root = s.root_inode->0;
    forall|names: Seq<Seq<u8>>|
        names.len() > 0 && resolved(fs, root, names) is None && !is_below_new(
            s.entries,
            fs,
            root,
            names,
        ) && (resolved(fs, root, names.drop_last()) matches Some(d) && holds(
            s.entries,
            d,
            names.last(),
        )) ==> #[trigger] is_event(paths, s.path, names)
}

/// What leads to a path, and the path from there, lead to it.
pub proof fn lemma_names_in(path: Seq<u8>, base: Seq<u8>)
    requires
        names_in(path, base) is Some,
    ensures
        components(path) == components(base) + names_in(path, base)->0,
{
    law_strip_prefix_drops_components(path, base);
    let n = components(base).len() as int;
    assert(components(path) =~= components(base) + components(path).skip(n));
}

/// A list stands before those that extend it.
proof fn lemma_prefix_is_ordered(a: Seq<Seq<u8>>, b: Seq<Seq<u8>>)
    requires
        a.is_prefix_of(b),
    ensures
        components_ordered(a, b),
    decreases a.len(),
{
    if a.len() > 0 {
        assert(a[0] == b.subrange(0, a.len() as int)[0]);
        let c = a.drop_first();
        let d = b.drop_first();
        assert(c =~= d.subrange(0, c.len() as int)) by {
            assert forall|i: int| 0 <= i < c.len() implies c[i] == d[i] by {
                assert(a[i + 1] == b.subrange(0, a.len() as int)[i + 1]);
            }
        }
        lemma_prefix_is_ordered(c, d);
    }
}

/// What opens a list that opens another opens that one too.
pub proof fn lemma_prefix_of_prefix(a: Seq<Seq<u8>>, b: Seq<Seq<u8>>, c: Seq<Seq<u8>>)
    requires
        a.is_prefix_of(b),
        b.is_prefix_of(c),
    ensures
        a.is_prefix_of(c),
{
    assert(a =~= c.subrange(0, a.len() as int)) by {
        assert forall|i: int| 0 <= i < a.len() implies a[i] == c[i] by {
            assert(a[i] == b.subrange(0, a.len() as int)[i]);
            assert(b[i] == c.subrange(0, b.len() as int)[i]);
        }
    }
}

/// What lies at or below a path lies at or below its names.
pub proof fn lemma_prefix_of_names(p: Seq<u8>, path: Seq<u8>, base: Seq<u8>)
    requires
        names_in(path, base) is Some,
    ensures
        path_starts_with(p, path) <==> (names_in(p, base) matches Some(t) && (names_in(
            path,
            base,
        )->0).is_prefix_of(t)),
{
    let names = names_in(path, base)->0;
    let root = components(base);
    lemma_names_in(path, base);
    if path_starts_with(p, path) {
        assert((root + names) =~= components(p).subrange(0, (root + names).len() as int));
        assert forall|i: int| 0 <= i < (root + names).len() implies (root + names)[i] == components(
            p,
        )[i] by {
            assert((root + names)[i] == components(p).subrange(0, (root + names).len() as int)[i]);
        }
        assert(root =~= components(p).subrange(0, root.len() as int)) by {
            assert forall|i: int| 0 <= i < root.len() implies root[i] == components(p)[i] by {
                assert((root + names)[i] == root[i]);
            }
        }
        lemma_names_in(p, base);
        let t = names_in(p, base)->0;
        assert(names =~= t.subrange(0, names.len() as int)) by {
            assert forall|i: int| 0 <= i < names.len() implies names[i] == t[i] by {
                assert((root + names)[root.len() + i] == names[i]);
                assert((root + t)[root.len() + i] == t[i]);
            }
        }
    }
    if names_in(p, base) is Some && names.is_prefix_of(names_in(p, base)->0) {
        lemma_names_in(p, base);
        let t = names_in(p, base)->0;
        assert(root + names =~= (root + t).subrange(0, (root + names).len() as int)) by {
            assert forall|i: int| 0 <= i < (root + names).len() implies (root + names)[i] == (root
                + t)[i] by {
                if i >= root.len() {
                    let j = i - root.len();
                    assert(names[j] == t.subrange(0, names.len() as int)[j]);
                }
            }
        }
    }
}

/// Of two paths in a sorted list, the later one does not lead to a directory of the earlier one.
pub proof fn lemma_later_is_no_prefix(paths: Seq<Seq<u8>>, base: Seq<u8>, i: int, j: int)
    requires
        sorted_paths(paths),
        0 <= i < j < paths.len(),
        names_in(paths[i], base) is Some,
        names_in(paths[j], base) is Some,
        (names_in(paths[j], base)->0).is_prefix_of(names_in(paths[i], base)->0),
    ensures
        names_in(paths[i], base) == names_in(paths[j], base),
{
    let a = names_in(paths[i], base)->0;
    let b = names_in(paths[j], base)->0;
    lemma_names_in(paths[i], base);
    lemma_names_in(paths[j], base);
    let root = components(base);
    assert((root + b).is_prefix_of(root + a)) by {
        assert forall|k: int| 0 <= k < (root + b).len() implies (root + b)[k] == (root + a)[k] by {
            if k >= root.len() {
                let t = k - root.len();
                assert(b[t] == a.subrange(0, b.len() as int)[t]);
            }
        }
        assert(root + b =~= (root + a).subrange(0, (root + b).len() as int));
    }
    lemma_prefix_is_ordered(root + b, root + a);
    assert(path_ordered(paths[i], paths[j]));
    law_path_order_is_total(paths[i], paths[j]);
    assert(a =~= (root + a).skip(root.len() as int));
    assert(b =~= (root + b).skip(root.len() as int));
}

/// The event for a directory comes before those for what lies in it.
pub proof fn lemma_directory_comes_first(
    paths: Seq<Seq<u8>>,
    base: Seq<u8>,
    n: int,
    names: Seq<Seq<u8>>,
)
    requires
        sorted_paths(paths),
        0 <= n < paths.len(),
        names_in(paths[n], base) is Some,
        names.is_prefix_of(names_in(paths[n], base)->0),
        names.len() < (names_in(paths[n], base)->0).len(),
        is_event(paths, base, names),
    ensures
        is_event(paths.take(n), base, names),
{
    let j = choose|j: int|
        0 <= j < paths.len() && #[trigger] names_in(paths[j], base) == Some(names);
    if j > n {
        lemma_later_is_no_prefix(paths, base, n, j);
    }
    assert(j < n);
    assert(paths.take(n)[j] == paths[j]);
}

/// What has been done after some more events.
pub proof fn lemma_more_events(
    paths: Seq<Seq<u8>>,
    base: Seq<u8>,
    n: int,
    more: int,
    names: Seq<Seq<u8>>,
)
    requires
        0 <= n <= more <= paths.len(),
    ensures
        is_event(paths.take(more), base, names) <==> is_event(paths.take(n), base, names)
            || exists|i: int| n <= i < more && #[trigger] names_in(paths[i], base) == Some(names),
        is_event(paths.take(n), base, names) ==> is_event(paths, base, names),
{
    let later = paths.take(more);
    let done = paths.take(n);
    if is_event(later, base, names) {
        let i = choose|i: int|
            0 <= i < later.len() && #[trigger] names_in(later[i], base) == Some(names);
        if i < n {
            assert(done[i] == later[i]);
        } else {
            assert(names_in(paths[i], base) == Some(names));
        }
    }
    if is_event(done, base, names) {
        let i = choose|i: int|
            0 <= i < done.len() && #[trigger] names_in(done[i], base) == Some(names);
        assert(later[i] == done[i]);
        assert(paths[i] == done[i]);
    }
    if exists|i: int| n <= i < more && #[trigger] names_in(paths[i], base) == Some(names) {
        let i = choose|i: int| n <= i < more && #[trigger] names_in(paths[i], base) == Some(names);
        assert(later[i] == paths[i]);
    }
}

/// What has been done after one more event.
pub proof fn lemma_one_more_event(paths: Seq<Seq<u8>>, base: Seq<u8>, n: int, names: Seq<Seq<u8>>)
    requires
        0 <= n < paths.len(),
    ensures
        is_event(paths.take(n + 1), base, names) <==> is_event(paths.take(n), base, names)
            || names_in(paths[n], base) == Some(names),
        is_event(paths.take(n), base, names) ==> is_event(paths, base, names),
{
    let more = paths.take(n + 1);
    let done = paths.take(n);
    if is_event(more, base, names) {
        let i = choose|i: int|
            0 <= i < more.len() && #[trigger] names_in(more[i], base) == Some(names);
        if i < n {
            assert(done[i] == more[i]);
        }
    }
    if is_event(done, base, names) {
        let i = choose|i: int|
            0 <= i < done.len() && #[trigger] names_in(done[i], base) == Some(names);
        assert(more[i] == done[i]);
        assert(paths[i] == done[i]);
    }
    if names_in(paths[n], base) == Some(names) {
        assert(more[n] == paths[n]);
    }
}

/// What names find lies in what all but the last of them find, and bears the last of them.
pub proof fn lemma_found_child(m: Map<u64, EntryView>, root: u64, names: Seq<Seq<u8>>)
    requires
        m.contains_key(root),
        m[root].parent() is None,
        downlinked(m),
        names.len() > 0,
        resolved(m, root, names) is Some,
    ensures
        resolved(m, root, names.drop_last()) is Some,
        m.contains_key(resolved(m, root, names)->0),
        m.contains_key(resolved(m, root, names.drop_last())->0),
        m[resolved(m, root, names)->0].parent() == resolved(m, root, names.drop_last()),
        m[resolved(m, root, names)->0].name() == names.last(),
        resolved(m, root, names)->0 != root,
{
    let k = resolved(m, root, names)->0;
    lemma_resolved_has_lineage(m, root, names.drop_last());
    let d = resolved(m, root, names.drop_last())->0;
    lemma_child_is_listed(m, m[d].children(), names.last());
    let i = m[d].children().index_of(k);
    assert(m[m[d].children()[i]].parent() == Some(d));
}

/// Where names lead on the file system, they lead in the snapshot, if every entry on the way agrees.
pub proof fn lemma_agreed_way(
    m: Map<u64, EntryView>,
    fs: Map<u64, EntryView>,
    root: u64,
    names: Seq<Seq<u8>>,
)
    requires
        is_tree(fs, root),
        m.contains_key(root),
        m[root].parent() is None,
        downlinked(m),
        uplinked(m),
        named_apart(m),
        resolved(fs, root, names) is Some,
        forall|j: int|
            0 < j <= names.len() && resolved(fs, root, #[trigger] names.take(j)) is Some ==> agrees(
                m,
                fs,
                resolved(fs, root, names.take(j))->0,
            ),
    ensures
        resolved(m, root, names) == resolved(fs, root, names),
        has_lineage(m, resolved(fs, root, names)->0),
        lineage(m, resolved(fs, root, names)->0) == lineage(fs, resolved(fs, root, names)->0),
        lineage(m, resolved(fs, root, names)->0)[0] == root,
        names_along(m, lineage(m, resolved(fs, root, names)->0)).skip(1) == names,
    decreases names.len(),
{
    let k = resolved(fs, root, names)->0;
    if names.len() == 0 {
        let line = seq![root];
        assert(is_lineage(m, line));
        assert(is_lineage(fs, line));
        lemma_lineage_is(m, line);
        lemma_lineage_is(fs, line);
        assert(names_along(m, line).skip(1) =~= names);
    } else {
        let upper = names.drop_last();
        assert forall|j: int|
            0 < j <= upper.len() && resolved(
                fs,
                root,
                #[trigger] upper.take(j),
            ) is Some implies agrees(m, fs, resolved(fs, root, upper.take(j))->0) by {
            assert(upper.take(j) =~= names.take(j));
        }
        lemma_agreed_way(m, fs, root, upper);
        let d = resolved(fs, root, upper)->0;
        lemma_resolved_has_lineage(fs, root, upper);
        lemma_resolved_has_lineage(fs, root, names);
        assert(names.take(names.len() as int) =~= names);
        assert(agrees(m, fs, k));
        lemma_found_child(fs, root, names);
        lemma_lineage_extends(fs, lineage(fs, d), k);
        lemma_lineage_extends(m, lineage(m, d), k);
        let line = lineage(m, k);
        let above = lineage(m, d);
        assert(is_lineage(m, above));
        assert(line[0] == above[0]);
        assert(names_along(m, line).skip(1) =~= names) by {
            let had = names_along(m, above);
            assert(names_along(m, line) =~= had.push(m[k].name()));
            assert(had.push(m[k].name()).skip(1) =~= had.skip(1).push(m[k].name()));
            assert(names.drop_last().push(names.last()) =~= names);
        }
        lemma_names_lead_down(m, line);
    }
}

/// A lineage in one map whose entries have the same parents and names in another leads the same way
/// there.
pub proof fn lemma_same_way(
    a: Map<u64, EntryView>,
    b: Map<u64, EntryView>,
    root: u64,
    line: Seq<u64>,
    names: Seq<Seq<u8>>,
)
    requires
        is_lineage(a, line),
        line[0] == root,
        names_along(a, line).skip(1) == names,
        forall|i: int|
            0 <= i < line.len() ==> b.contains_key(#[trigger] line[i]) && b[line[i]].name()
                == a[line[i]].name() && b[line[i]].parent() == a[line[i]].parent(),
        downlinked(b),
        uplinked(b),
        named_apart(b),
    ensures
        is_lineage(b, line),
        resolved(b, root, names) == Some(line.last()),
{
    assert(is_lineage(b, line)) by {
        assert forall|i: int, j: int|
            #![trigger line[i], line[j]]
            0 <= i < line.len() && j == i + 1 && j < line.len() implies b[line[j]].parent() == Some(
            line[i],
        ) by {
            assert(a[line[j]].parent() == Some(line[i]));
        }
    }
    assert(names_along(b, line) =~= names_along(a, line));
    lemma_names_lead_down(b, line);
}

/// What lies in the directory that all but the last name lead to, and bears the last name, is what
/// the names lead to.
pub proof fn lemma_child_is_found(
    m: Map<u64, EntryView>,
    root: u64,
    names: Seq<Seq<u8>>,
    d: u64,
    c: u64,
)
    requires
        m.contains_key(root),
        m[root].parent() is None,
        downlinked(m),
        uplinked(m),
        named_apart(m),
        names.len() > 0,
        resolved(m, root, names.drop_last()) == Some(d),
        m.contains_key(c),
        m[c].parent() == Some(d),
        m[c].name() == names.last(),
    ensures
        resolved(m, root, names) == Some(c),
{
    lemma_resolved_has_lineage(m, root, names.drop_last());
    let line = lineage(m, d);
    assert(is_lineage(m, line));
    lemma_lineage_extends(m, line, c);
    let longer = line.push(c);
    assert(longer[0] == root);
    assert(names_along(m, longer).skip(1) =~= names) by {
        let had = names_along(m, line);
        assert(names_along(m, longer) =~= had.push(names.last()));
        assert(had.push(names.last()).skip(1) =~= had.skip(1).push(names.last()));
        assert(names.drop_last().push(names.last()) =~= names);
    }
    lemma_names_lead_down(m, longer);
}

/// Different names lead to different entries of a tree.
pub proof fn lemma_names_are_unique(
    fs: Map<u64, EntryView>,
    root: u64,
    a: Seq<Seq<u8>>,
    b: Seq<Seq<u8>>,
)
    requires
        is_tree(fs, root),
        resolved(fs, root, a) is Some,
        resolved(fs, root, a) == resolved(fs, root, b),
    ensures
        a == b,
{
    lemma_resolved_has_lineage(fs, root, a);
    lemma_resolved_has_lineage(fs, root, b);
}

/// Nothing lies below an entry that holds nothing.
pub proof fn lemma_nothing_below(
    m: Map<u64, EntryView>,
    root: u64,
    names: Seq<Seq<u8>>,
    other: Seq<Seq<u8>>,
)
    requires
        names.is_prefix_of(other),
        names != other,
        resolved(m, root, names) is Some,
        m[resolved(m, root, names)->0].children().len() == 0,
    ensures
        resolved(m, root, other) is None,
{
    let l = names.len() as int;
    assert(l < other.len()) by {
        if l == other.len() {
            assert(other =~= other.subrange(0, l));
        }
    }
    let part = other.take(l + 1);
    assert(part.drop_last() =~= names) by {
        assert(names =~= other.subrange(0, l));
    }
    assert(resolved(m, root, part) is None);
    lemma_resolved_needs_prefix(m, root, other, l + 1);
}

/// Of the things on the way that are not known, one lies in a directory that is known.
pub proof fn lemma_first_new(
    m: Map<u64, EntryView>,
    fs: Map<u64, EntryView>,
    root: u64,
    names: Seq<Seq<u8>>,
    j: int,
) -> (i: int)
    requires
        0 <= j < names.len(),
        resolved(fs, root, names.take(j)) is Some,
        !m.contains_key(resolved(fs, root, names.take(j))->0),
    ensures
        0 <= i <= j,
        is_new(m, fs, root, names.take(i)),
    decreases j,
{
    let part = names.take(j);
    if is_below_new(m, fs, root, part) {
        let t = choose|t: int|
            0 <= t < part.len() && resolved(fs, root, #[trigger] part.take(t)) is Some
                && !m.contains_key(resolved(fs, root, part.take(t))->0);
        assert(part.take(t) =~= names.take(t));
        lemma_first_new(m, fs, root, names, t)
    } else {
        j
    }
}

/// What leads to a beginning of a path that does not lie below something new does not lie there
/// either.
pub proof fn lemma_prefix_not_below_new(
    m: Map<u64, EntryView>,
    fs: Map<u64, EntryView>,
    root: u64,
    names: Seq<Seq<u8>>,
    j: int,
)
    requires
        0 <= j <= names.len(),
        !is_below_new(m, fs, root, names),
    ensures
        !is_below_new(m, fs, root, names.take(j)),
{
    let part = names.take(j);
    if is_below_new(m, fs, root, part) {
        let t = choose|t: int|
            0 <= t < part.len() && resolved(fs, root, #[trigger] part.take(t)) is Some
                && !m.contains_key(resolved(fs, root, part.take(t))->0);
        assert(part.take(t) =~= names.take(t));
        assert(is_below_new(m, fs, root, names));
    }
}

/// Taking out the orphans opens no way, and closes none that starts at a root which is no candidate.
pub proof fn lemma_cleaning_keeps_ways(
    m: Map<u64, EntryView>,
    root: u64,
    candidates: Seq<u64>,
    names: Seq<Seq<u8>>,
)
    requires
        is_forest(m, root, candidates),
        !candidates.contains(root),
    ensures
        resolved(m.remove_keys(orphaned(m, candidates)), root, names) == resolved(m, root, names),
{
    let after = m.remove_keys(orphaned(m, candidates));
    law_orphan_removal_leaves_a_tree(m, root, candidates);
    if resolved(m, root, names) is Some {
        lemma_resolved_has_lineage(m, root, names);
        let k = resolved(m, root, names)->0;
        let line = lineage(m, k);
        assert(is_lineage(m, line));
        assert forall|i: int| 0 <= i < line.len() implies after.contains_key(#[trigger] line[i])
            && after[line[i]].name() == m[line[i]].name() && after[line[i]].parent()
            == m[line[i]].parent() by {
            lemma_lineage_prefix(m, line, i + 1);
            lemma_lineage_is(m, line.take(i + 1));
            assert(line.take(i + 1)[0] == line[0]);
            law_orphans_hang_on_candidates(m, candidates, line[i]);
            assert(m.contains_key(line[i]));
        }
        lemma_same_way(m, after, root, line, names);
    } else if resolved(after, root, names) is Some {
        lemma_resolved_has_lineage(after, root, names);
        let line = lineage(after, resolved(after, root, names)->0);
        assert(is_lineage(after, line));
        assert forall|i: int| 0 <= i < line.len() implies m.contains_key(#[trigger] line[i])
            && m[line[i]].name() == after[line[i]].name() && m[line[i]].parent()
            == after[line[i]].parent() by {
            assert(after.contains_key(line[i]));
        }
        lemma_same_way(after, m, root, line, names);
    }
}

/// Whether the snapshot and the file system differ in one entry only, which has another place or name
/// there, and in nothing that lies in it.
pub open spec fn is_one_move(m: Map<u64, EntryView>, fs: Map<u64, EntryView>, moved: u64) -> bool {
    &&& m.dom() == fs.dom()
    &&& m.contains_key(moved)
    &&& forall|k: u64| #[trigger] m.contains_key(k) ==> (m[k] is Dir) == (fs[k] is Dir)
    &&& forall|k: u64| #[trigger] m.contains_key(k) && k != moved ==> agrees(m, fs, k)
}

/// The directory that something moved from is where it was.
proof fn lemma_move_leaves_its_directory(
    m: Map<u64, EntryView>,
    fs: Map<u64, EntryView>,
    root: u64,
    moved: u64,
    old: Seq<Seq<u8>>,
)
    requires
        is_tree(m, root),
        is_tree(fs, root),
        is_one_move(m, fs, moved),
        old.len() > 0,
        resolved(m, root, old) == Some(moved),
    ensures
        resolved(fs, root, old.drop_last()) == m[moved].parent(),
{
    let upper = old.drop_last();
    lemma_found_child(m, root, old);
    assert forall|j: int|
        0 < j <= upper.len() && resolved(m, root, #[trigger] upper.take(j)) is Some implies agrees(
        fs,
        m,
        resolved(m, root, upper.take(j))->0,
    ) by {
        let k = resolved(m, root, upper.take(j))->0;
        lemma_resolved_has_lineage(m, root, upper.take(j));
        if k == moved {
            lemma_names_are_unique(m, root, upper.take(j), old);
        }
        assert(agrees(m, fs, k));
        assert(fs.dom().contains(k));
    }
    assert(fs.dom().contains(root));
    lemma_agreed_way(fs, m, root, upper);
}

/// Two events tell of a move, whatever lies in what moved: one for the path that it had, and one for
/// the path that it has.
pub proof fn law_two_events_tell_of_a_move(
    s: SnapshotView,
    files: SnapshotView,
    paths: Seq<Seq<u8>>,
    moved: u64,
    old: Seq<Seq<u8>>,
    new: Seq<Seq<u8>>,
)
    requires
        s.path == files.path,
        s.root_inode is Some,
        s.root_inode == files.root_inode,
        is_tree(s.entries, s.root_inode->0),
        is_tree(files.entries, s.root_inode->0),
        keyed_by_inode(s.entries),
        keyed_by_inode(files.entries),
        is_one_move(s.entries, files.entries, moved),
        old.len() > 0,
        resolved(s.entries, s.root_inode->0, old) == Some(moved),
        resolved(files.entries, s.root_inode->0, new) == Some(moved),
        paths.len() == 2,
        names_in(paths[0], s.path) == Some(old) && names_in(paths[1], s.path) == Some(new) || names_in(
            paths[0],
            s.path,
        ) == Some(new) && names_in(paths[1], s.path) == Some(old),
    ensures
        is_change(s, files, paths),
        is_told_of_losses(s, files, paths),
{
    let m = s.entries;
    let fs = files.entries;
    let root = s.root_inode->0;
    lemma_move_leaves_its_directory(m, fs, root, moved, old);
    lemma_found_child(m, root, old);
    assert(is_event(paths, s.path, old));
    assert(is_event(paths, s.path, new));
    assert forall|names: Seq<Seq<u8>>| #[trigger]
        is_changed(m, fs, root, names) && !is_below_new(m, fs, root, names) implies is_event(
        paths,
        s.path,
        names,
    ) by {
        reveal(is_changed);
        let k = resolved(fs, root, names)->0;
        lemma_resolved_has_lineage(fs, root, names);
        assert(m.dom().contains(k));
        assert(k == moved);
        lemma_names_are_unique(fs, root, names, new);
    }
    assert(new.len() > 0);
    lemma_found_child(fs, root, new);
    assert forall|k: u64|
        fs.contains_key(k) && #[trigger] fs[k].parent() is Some && m.contains_key(
            fs[k].parent()->0,
        ) implies m[fs[k].parent()->0] is Dir by {
        let q = fs[k].parent()->0;
        assert(fs[q].children().contains(k));
    }
    assert(is_told_of_losses(s, files, paths)) by {
        assert forall|names: Seq<Seq<u8>>|
            names.len() > 0 && resolved(fs, root, names) is None && !is_below_new(
                m,
                fs,
                root,
                names,
            ) && (resolved(fs, root, names.drop_last()) matches Some(d) && holds(
                m,
                d,
                names.last(),
            )) implies #[trigger] is_event(paths, s.path, names) by {
            let d = resolved(fs, root, names.drop_last())->0;
            let c = choose|c: u64| #[trigger]
                m.contains_key(c) && m[c].parent() == Some(d) && m[c].name() == names.last();
            assert(fs.dom().contains(c));
            if c != moved {
                assert(agrees(m, fs, c));
                lemma_child_is_found(fs, root, names, d, c);
            }
            lemma_names_are_unique(fs, root, names.drop_last(), old.drop_last());
            assert(names.drop_last().push(names.last()) =~= names);
            assert(old.drop_last().push(old.last()) =~= old);
        }
    }
}

} // verus!
