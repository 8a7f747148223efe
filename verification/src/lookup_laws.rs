//! Where names and paths lead, which path an entry has, and what is made of what lies at a path.
use vstd::prelude::*;
use crate::change::is_lookup_of;
use crate::entry::EntryView;
use crate::entry_tree::keyed_by_inode;
use crate::event_laws::law_found_path_leads_to_what_was_found;
use crate::events::EventBatchView;
use crate::forest_laws::is_forest;
use crate::lineage::lemma_lineage_prefix;
use crate::path::{components, path_of, path_starts_with, pushed, relative_to};
use crate::path_laws::{
    is_plain_name, law_path_of_names, law_push_name, law_strip_prefix_drops_components,
};
use crate::scan::{found_entry, root_job_of, started, tree_name, FsMetadata};
use crate::snapshot::{
    child_named, has_lineage, inserted, is_lineage, lineage, names_along, path_to, resolved,
    SnapshotView,
};
use crate::spelling_laws::{law_containment_goes_by_components, law_last_name_is_last_component};
use crate::tree_laws::{
    is_tree, lemma_lineage_extends, lemma_lineage_is, lemma_resolved_has_lineage,
};

verus! {

/// Whether `children[i]` is the first of `children` that is known by the name `name`.
pub open spec fn is_first_named(
    m: Map<u64, EntryView>,
    children: Seq<u64>,
    name: Seq<u8>,
    i: int,
) -> bool {
    &&& 0 <= i < children.len()
    &&& m.contains_key(children[i])
    &&& m[children[i]].name() == name
    &&& forall|j: int|
        0 <= j < i && m.contains_key(#[trigger] children[j]) ==> m[children[j]].name() != name
}

/// A name finds the first child that bears it, and nothing only where none does.
pub proof fn law_name_finds_the_first_child(
    m: Map<u64, EntryView>,
    children: Seq<u64>,
    name: Seq<u8>,
)
    ensures
        child_named(m, children, name) matches Some(c) ==> exists|i: int| #[trigger]
            is_first_named(m, children, name, i) && children[i] == c,
        child_named(m, children, name) is None ==> forall|i: int|
            0 <= i < children.len() && m.contains_key(#[trigger] children[i])
                ==> m[children[i]].name() != name,
    decreases children.len(),
{
    if children.len() > 0 {
        let rest = children.drop_first();
        law_name_finds_the_first_child(m, rest, name);
        if m.contains_key(children[0]) && m[children[0]].name() == name {
            assert(is_first_named(m, children, name, 0));
        } else if child_named(m, rest, name) is Some {
            let c = child_named(m, rest, name)->0;
            let i = choose|i: int| #[trigger]
                is_first_named(m, rest, name, i) && rest[i] == c;
            assert(is_first_named(m, children, name, i + 1)) by {
                assert(children[i + 1] == rest[i]);
                assert forall|j: int| 0 <= j < i + 1 && m.contains_key(
                    #[trigger] children[j],
                ) implies m[children[j]].name() != name by {
                    if j > 0 {
                        assert(children[j] == rest[j - 1]);
                    }
                }
            }
            assert(children[i + 1] == c);
        } else {
            assert forall|i: int| 0 <= i < children.len() && m.contains_key(
                #[trigger] children[i],
            ) implies m[children[i]].name() != name by {
                if i > 0 {
                    assert(children[i] == rest[i - 1]);
                }
            }
        }
    }
}

/// A path without components leads to the root.
pub proof fn law_empty_path_leads_to_the_root(s: SnapshotView, path: Seq<u8>)
    requires
        components(path).len() == 0,
    ensures
        s.inode_at(path) == s.root_inode,
{
}

/// A path with one more name leads from where the shorter one leads, a known directory, to the
/// first of its children that bears the name, and nowhere where there is none.
pub proof fn law_path_leads_through_directories(
    s: SnapshotView,
    path: Seq<u8>,
    longer: Seq<u8>,
    name: Seq<u8>,
)
    requires
        components(longer) == components(path).push(name),
    ensures
        s.inode_at(longer) matches Some(c) ==> (s.inode_at(path) matches Some(d)
            && s.entries.contains_key(d) && (s.entries[d] matches EntryView::Dir { children, .. }
            && exists|i: int| #[trigger]
            is_first_named(s.entries, children, name, i) && children[i] == c)),
        s.inode_at(longer) is None ==> (s.inode_at(path) matches Some(d) ==> s.entries.contains_key(d)
            ==> (s.entries[d] matches EntryView::Dir { children, .. } ==> forall|i: int|
            0 <= i < children.len() && s.entries.contains_key(#[trigger] children[i])
                ==> s.entries[children[i]].name() != name)),
{
    let names = components(longer);
    assert(names.drop_last() =~= components(path));
    if s.root_inode is Some && s.inode_at(path) is Some {
        let d = s.inode_at(path)->0;
        law_name_finds_the_first_child(s.entries, s.entries[d].children(), name);
    }
}

/// The entry at a path is that of the inode that the path leads to.
pub proof fn law_entry_at_a_path_is_the_inodes(s: SnapshotView, path: Seq<u8>, entry: EntryView)
    ensures
        s.entry_at(path) == Some(entry) <==> (s.inode_at(path) matches Some(inode)
            && s.entries.contains_key(inode) && s.entries[inode] == entry),
{
}

/// An entry without a parent is where paths start: it has the empty path, or its own name where the
/// root is named too.
pub proof fn law_paths_start_without_parent(m: Map<u64, EntryView>, inode: u64)
    requires
        m.contains_key(inode),
        m[inode].parent() is None,
    ensures
        has_lineage(m, inode),
        path_to(m, inode, false).len() == 0,
        path_to(m, inode, true) == m[inode].name(),
{
    let line = seq![inode];
    assert(is_lineage(m, line));
    lemma_lineage_is(m, line);
    let names = names_along(m, line);
    assert(names.skip(1) =~= Seq::empty());
    assert(names.drop_last() =~= Seq::empty());
    assert(path_of(Seq::<Seq<u8>>::empty()) =~= Seq::<u8>::empty());
    assert(path_of(names) =~= m[inode].name());
}

/// An entry has the path of its parent with its own name behind it, and it has a path where its
/// parent has one.
pub proof fn law_path_goes_on_from_the_parent(
    m: Map<u64, EntryView>,
    inode: u64,
    parent: u64,
    with_root: bool,
)
    requires
        m.contains_key(inode),
        m[inode].parent() == Some(parent),
    ensures
        has_lineage(m, inode) <==> has_lineage(m, parent),
        has_lineage(m, inode) ==> path_to(m, inode, with_root) == pushed(
            path_to(m, parent, with_root),
            m[inode].name(),
        ),
        has_lineage(m, inode) && is_plain_name(m[inode].name()) ==> components(
            path_to(m, inode, with_root),
        ) == components(path_to(m, parent, with_root)).push(m[inode].name()),
{
    if has_lineage(m, inode) {
        let line = lineage(m, inode);
        assert(is_lineage(m, line));
        let n = line.len() as int;
        assert(n > 1);
        assert(m[line[n - 1]].parent() == Some(line[n - 2]));
        lemma_lineage_prefix(m, line, n - 1);
        assert(is_lineage(m, line.take(n - 1)) && line.take(n - 1).last() == parent);
    }
    if has_lineage(m, parent) {
        let line = lineage(m, parent);
        assert(is_lineage(m, line));
        lemma_lineage_extends(m, line, inode);
        let names = names_along(m, line);
        let more = names_along(m, line.push(inode));
        assert(more =~= names.push(m[inode].name()));
        assert(more.drop_last() =~= names);
        assert(more.skip(1).drop_last() =~= names.skip(1));
        assert(more.skip(1).last() == m[inode].name());
        if is_plain_name(m[inode].name()) {
            law_push_name(path_to(m, parent, with_root), m[inode].name());
        }
    }
}

/// An entry that is not known has no path.
pub proof fn law_unknown_has_no_path(m: Map<u64, EntryView>, inode: u64)
    requires
        !m.contains_key(inode),
    ensures
        !has_lineage(m, inode),
{
    if has_lineage(m, inode) {
        let line = lineage(m, inode);
        assert(is_lineage(m, line));
        assert(m.contains_key(line[line.len() - 1]));
    }
}

/// Of entries that are put in one after the other, the last with an inode stays; what none of them
/// concerns stays as it was.
pub proof fn law_last_inserted_entry_stays(m: Map<u64, EntryView>, entries: Seq<EntryView>, inode: u64)
    ensures
        forall|i: int|
            0 <= i < entries.len() && (#[trigger] entries[i]).ino() == inode && (forall|j: int|
                i < j < entries.len() ==> (#[trigger] entries[j]).ino() != inode) ==> inserted(
                m,
                entries,
            ).contains_key(inode) && inserted(m, entries)[inode] == entries[i],
        (forall|i: int| 0 <= i < entries.len() ==> (#[trigger] entries[i]).ino() != inode) ==> {
            &&& inserted(m, entries).contains_key(inode) == m.contains_key(inode)
            &&& inserted(m, entries)[inode] == m[inode]
        },
    decreases entries.len(),
{
    if entries.len() > 0 {
        let before = entries.drop_last();
        law_last_inserted_entry_stays(m, before, inode);
        assert(entries[entries.len() - 1] == entries.last());
        assert forall|i: int|
            0 <= i < entries.len() && (#[trigger] entries[i]).ino() == inode && (forall|j: int|
                i < j < entries.len() ==> (#[trigger] entries[j]).ino() != inode) implies inserted(
            m,
            entries,
        ).contains_key(inode) && inserted(m, entries)[inode] == entries[i] by {
            if i < before.len() {
                assert(entries[entries.len() - 1].ino() != inode);
                assert(before[i] == entries[i]);
                assert forall|j: int| i < j < before.len() implies (#[trigger] before[j]).ino()
                    != inode by {
                    assert(before[j] == entries[j]);
                }
            }
        }
        if forall|i: int| 0 <= i < entries.len() ==> (#[trigger] entries[i]).ino() != inode {
            assert forall|i: int| 0 <= i < before.len() implies (#[trigger] before[i]).ino()
                != inode by {
                assert(before[i] == entries[i]);
            }
            assert(entries[entries.len() - 1].ino() != inode);
        }
    }
}

/// A tree is named after the last component of its path, and `/` where that is not a name.
pub proof fn law_tree_is_named_after_its_path(path: Seq<u8>)
    ensures
        ({
            let parts = components(path);
            let last = parts.last();
            tree_name(path) == if parts.len() == 0 || last == seq![47u8] || last == seq![46u8] || last
                == seq![46u8, 46u8] {
                seq![47u8]
            } else {
                last
            }
        }),
{
    law_last_name_is_last_component(path, components(path).last());
}

/// What is found at a path is an entry of the kind, with the inode, and as much of a symlink as the
/// file system says, and ignored where a rule matches it. It bears the last component of the path,
/// where that is a name. At the root of the tree it has no parent, elsewhere the one that the file
/// system says. A directory is still to be listed; a file knows its path below the root, its inode
/// and whether it is ignored.
pub proof fn law_found_entry_is_what_lies_there(
    root_path: Seq<u8>,
    path: Seq<u8>,
    metadata: FsMetadata,
    parent_inode: Option<u64>,
)
    ensures
        ({
            let entry = found_entry(root_path, path, metadata, parent_inode);
            let parts = components(path);
            &&& (entry is Dir) == metadata.is_dir
            &&& entry.ino() == metadata.inode
            &&& entry.is_ignored() == metadata.matches_ignore
            &&& parts == components(root_path) ==> entry.parent() is None
            &&& parts != components(root_path) ==> entry.parent() == parent_inode
            &&& parts.len() > 0 && is_plain_name(parts.last()) && parts.last() != seq![46u8, 46u8]
                ==> entry.name() == parts.last()
            &&& match entry {
                EntryView::Dir { is_symlink, children, pending, .. } => {
                    &&& is_symlink == metadata.is_symlink
                    &&& children.len() == 0
                    &&& pending
                },
                EntryView::File { path: known, is_symlink, .. } => {
                    &&& is_symlink == metadata.is_symlink
                    &&& known.ino == metadata.inode
                    &&& known.is_ignored == metadata.matches_ignore
                    &&& path_starts_with(path, root_path) ==> components(known.path) == parts.skip(
                        components(root_path).len() as int,
                    )
                    &&& relative_to(path, root_path) matches Some(relative_path) ==> known.path
                        == relative_path
                },
            }
        }),
{
    law_tree_is_named_after_its_path(path);
    let parts = components(path);
    if parts.len() > 0 && is_plain_name(parts.last()) {
        assert(parts.last() != seq![47u8]) by {
            if parts.last() == seq![47u8] {
                assert(parts.last()[0] == 47u8);
                assert(parts.last().contains(parts.last()[0]));
            }
        }
    }
    if path_starts_with(path, root_path) {
        law_strip_prefix_drops_components(path, root_path);
    }
}

/// What the file system holds at a path below the root is told by looking it up: where its inode,
/// its kind and its parent are as the file system says, the entry that is made of it is a lookup of
/// it.
pub proof fn law_found_entry_is_a_lookup(
    files: SnapshotView,
    path: Seq<u8>,
    metadata: FsMetadata,
    parent_inode: Option<u64>,
)
    requires
        files.root_inode matches Some(root) && is_tree(files.entries, root),
        path_starts_with(path, files.path),
        files.entry_at(relative_to(path, files.path)->0) matches Some(there) && {
            &&& metadata.inode == there.ino()
            &&& metadata.is_dir == (there is Dir)
            &&& there.parent() is Some ==> parent_inode == there.parent() && there.name() != seq![
                46u8,
                46u8,
            ]
        },
    ensures
        is_lookup_of(
            found_entry(files.path, path, metadata, parent_inode),
            files.entry_at(relative_to(path, files.path)->0)->0,
        ),
{
    let m = files.entries;
    let root = files.root_inode->0;
    let relative_path = relative_to(path, files.path)->0;
    let there = files.entry_at(relative_path)->0;
    let inode = files.inode_at(relative_path)->0;
    let names = components(relative_path);
    let base = components(files.path);
    law_strip_prefix_drops_components(path, files.path);
    law_containment_goes_by_components(path, files.path);
    law_found_entry_is_what_lies_there(files.path, path, metadata, parent_inode);
    assert(components(path) =~= base + names);
    if names.len() == 0 {
        assert(inode == root);
        assert(components(path) =~= base);
    } else {
        let d = resolved(m, root, names.drop_last())->0;
        law_name_finds_the_first_child(m, m[d].children(), names.last());
        let i = choose|i: int| #[trigger]
            is_first_named(m, m[d].children(), names.last(), i) && m[d].children()[i] == inode;
        assert(m[m[d].children()[i]].parent() == Some(d));
        assert(m.contains_key(inode) && m[inode].parent() is Some);
        assert(components(path).last() == names.last());
        assert(components(path).len() != base.len());
        assert(is_plain_name(there.name()));
    }
}

/// Looking up a path after an event for it finds what the file system was found to hold there,
/// below the directory that the path's directory leads to, and the entry's own path is that path.
pub proof fn law_found_entry_lies_at_its_path(
    batch: EventBatchView,
    path: Seq<u8>,
    relative_path: Seq<u8>,
    metadata: FsMetadata,
    parent: u64,
)
    requires
        batch.snapshot.root_inode matches Some(root) && {
            &&& is_forest(batch.snapshot.entries, root, batch.possible_removed_inodes)
            &&& resolved(batch.snapshot.entries, root, components(relative_path).drop_last()) == Some(
                parent,
            )
            &&& metadata.inode != root
        },
        keyed_by_inode(batch.snapshot.entries),
        relative_to(path, batch.snapshot.path) == Some(relative_path),
        components(relative_path).len() > 0,
        is_plain_name(components(relative_path).last()),
        components(relative_path).last() != seq![46u8, 46u8],
        batch.snapshot.entries[parent] is Dir,
        !lineage(batch.snapshot.entries, parent).contains(metadata.inode),
    ensures
        ({
            let entry = found_entry(batch.snapshot.path, path, metadata, Some(parent));
            let after = batch.applied(path, relative_path, Ok(Some(entry))).snapshot;
            &&& after.inode_at(relative_path) == Some(metadata.inode)
            &&& after.entries[metadata.inode].parent() == Some(parent)
            &&& after.entries[metadata.inode].name() == components(path).last()
            &&& has_lineage(after.entries, metadata.inode)
            &&& components(path_to(after.entries, metadata.inode, false)) == components(
                relative_path,
            )
        }),
{
    let base = components(batch.snapshot.path);
    let root = batch.snapshot.root_inode->0;
    let names = components(relative_path);
    let entry = found_entry(batch.snapshot.path, path, metadata, Some(parent));
    law_containment_goes_by_components(path, batch.snapshot.path);
    law_strip_prefix_drops_components(path, batch.snapshot.path);
    assert(components(path) =~= base + names);
    assert(components(path).last() == names.last());
    assert(components(path).len() != base.len());
    law_found_entry_is_what_lies_there(batch.snapshot.path, path, metadata, Some(parent));
    law_found_path_leads_to_what_was_found(batch, root, path, relative_path, entry, parent);
    let done = batch.applied(path, relative_path, Ok(Some(entry)));
    let after = done.snapshot;
    let m = after.entries;
    assert(resolved(m, root, names) == Some(metadata.inode));
    lemma_resolved_has_lineage(m, root, names);
    let line = lineage(m, metadata.inode);
    assert(is_lineage(m, line));
    assert forall|i: int| 0 <= i < names.len() implies is_plain_name(#[trigger] names[i]) by {
        assert(names[i] == names_along(m, line).skip(1)[i]);
        assert(m[line[i + 1]].parent() == Some(line[i]));
        assert(m.contains_key(line[i + 1]));
    }
    law_path_of_names(names);
}

/// The root of a scan is what the file system says of it: of the kind, with the inode, and as much
/// of a symlink. It has no parent, and bears the last name of the path that the tree was opened at.
/// It is ignored where a rule matches it, and a directory also where the tree's path ends in
/// `.git`. A directory is still to be listed; a file knows its name as its path, its inode and
/// whether it is ignored. Nothing else changes but that the tree now starts there.
pub proof fn law_scan_starts_at_the_root(s: SnapshotView, opened: Seq<u8>, metadata: FsMetadata)
    ensures
        ({
            let after = started(s, opened, metadata);
            let entry = after.entries[metadata.inode];
            let parts = components(opened);
            let tree_parts = components(s.path);
            let in_git = tree_parts.len() > 0 && tree_parts.last() == seq![46u8, 103u8, 105u8, 116u8];
            &&& after.id == s.id
            &&& after.path == s.path
            &&& after.root_inode == Some(metadata.inode)
            &&& after.entries.dom() == s.entries.dom().insert(metadata.inode)
            &&& forall|k: u64| k != metadata.inode ==> #[trigger] after.entries[k] == s.entries[k]
            &&& (entry is Dir) == metadata.is_dir
            &&& entry.ino() == metadata.inode
            &&& entry.parent() is None
            &&& parts.len() > 0 && is_plain_name(parts.last()) && parts.last() != seq![46u8, 46u8]
                ==> entry.name() == parts.last()
            &&& parts.len() == 0 ==> entry.name() == seq![47u8]
            &&& match entry {
                EntryView::Dir { is_symlink, is_ignored, children, pending, .. } => {
                    &&& is_symlink == metadata.is_symlink
                    &&& is_ignored <==> metadata.matches_ignore || in_git
                    &&& children.len() == 0
                    &&& pending
                },
                EntryView::File { path, name, is_symlink, is_ignored, .. } => {
                    &&& is_symlink == metadata.is_symlink
                    &&& is_ignored == metadata.matches_ignore
                    &&& path.ino == metadata.inode
                    &&& path.path == name
                    &&& path.is_ignored == is_ignored
                },
            }
        }),
{
    law_tree_is_named_after_its_path(opened);
    law_tree_is_named_after_its_path(s.path);
    let after = started(s, opened, metadata);
    assert(after.entries.dom() =~= s.entries.dom().insert(metadata.inode));
    let parts = components(opened);
    if parts.len() > 0 && is_plain_name(parts.last()) {
        assert(parts.last() != seq![47u8]) by {
            if parts.last() == seq![47u8] {
                assert(parts.last()[0] == 47u8);
                assert(parts.last().contains(parts.last()[0]));
            }
        }
    }
    let git = seq![46u8, 103u8, 105u8, 116u8];
    assert(git.len() == 4);
    assert(seq![47u8].len() == 1 && seq![46u8].len() == 1 && seq![46u8, 46u8].len() == 2);
}

/// The root is listed first: under its inode, at the tree's path, with the root's name before the
/// paths that are found, and with ignore rules applied.
pub proof fn law_root_is_listed_first(s: SnapshotView, opened: Seq<u8>, metadata: FsMetadata)
    ensures
        ({
            let job = root_job_of(s.path, opened, metadata);
            let after = started(s, opened, metadata);
            &&& job.ino == metadata.inode
            &&& job.path == s.path
            &&& job.dir_entry == after.entries[metadata.inode]
            &&& job.relative_path == after.entries[metadata.inode].name()
            &&& job.ignore
        }),
{
}

/// A snapshot with other entries is the same but for these.
pub proof fn law_other_entries_are_all_that_changes(s: SnapshotView, entries: Map<u64, EntryView>)
    ensures
        s.with_entries(entries).id == s.id,
        s.with_entries(entries).path == s.path,
        s.with_entries(entries).root_inode == s.root_inode,
        s.with_entries(entries).entries == entries,
{
}

} // verus!
