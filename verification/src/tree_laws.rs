//! What holds of the entries of a tree, and how paths and inodes answer each other there.
use vstd::prelude::*;
use crate::entry::EntryView;
use crate::lineage::{law_lineage_is_unique, lemma_lineage_prefix};
use crate::path::{components, pushed};
use crate::path_laws::{is_plain_name, law_path_of_names};
use crate::snapshot::{
    child_named, has_lineage, is_lineage, lineage, names_along, path_to, reparented, resolved,
    without_child, SnapshotView,
};

verus! {

/// Whether every entry that a directory lists is known and names the directory as its parent.
pub open spec fn downlinked(m: Map<u64, EntryView>) -> bool {
    forall|d: u64, i: int|
        #![trigger m[d].children()[i]]
        m.contains_key(d) && 0 <= i < m[d].children().len() ==> m.contains_key(
            m[d].children()[i],
        ) && m[m[d].children()[i]].parent() == Some(d)
}

/// Whether every parent that an entry names is known and lists the entry.
pub open spec fn uplinked(m: Map<u64, EntryView>) -> bool {
    forall|c: u64|
        m.contains_key(c) ==> (#[trigger] m[c].parent() matches Some(p) ==> m.contains_key(p)
            && m[p].children().contains(c))
}

/// Whether no directory lists two entries of the same name.
pub open spec fn named_apart(m: Map<u64, EntryView>) -> bool {
    forall|d: u64, i: int, j: int|
        #![trigger m[d].children()[i], m[d].children()[j]]
        m.contains_key(d) && 0 <= i < j < m[d].children().len() ==> m[m[d].children()[i]].name()
            != m[m[d].children()[j]].name()
}

/// Whether every entry with a parent has a name that stands for one component of a path.
pub open spec fn plainly_named(m: Map<u64, EntryView>) -> bool {
    forall|c: u64| #[trigger]
        m.contains_key(c) && m[c].parent() is Some ==> is_plain_name(m[c].name())
}

/// Whether every entry hangs on `root`.
pub open spec fn hangs_on(m: Map<u64, EntryView>, root: u64) -> bool {
    forall|c: u64|
        #![trigger has_lineage(m, c)]
        #![trigger lineage(m, c)]
        m.contains_key(c) ==> has_lineage(m, c) && lineage(m, c)[0] == root
}

/// Whether the entries make up a tree with the given root.
pub open spec fn is_tree(m: Map<u64, EntryView>, root: u64) -> bool {
    &&& m.contains_key(root)
    &&& m[root].parent() is None
    &&& downlinked(m)
    &&& uplinked(m)
    &&& named_apart(m)
    &&& plainly_named(m)
    &&& hangs_on(m, root)
}

/// Among entries with different names, a name finds the one that bears it.
proof fn lemma_child_found(m: Map<u64, EntryView>, children: Seq<u64>, k: int)
    requires
        0 <= k < children.len(),
        m.contains_key(children[k]),
        forall|i: int|
            0 <= i < k && m.contains_key(#[trigger] children[i]) ==> m[children[i]].name()
                != m[children[k]].name(),
    ensures
        child_named(m, children, m[children[k]].name()) == Some(children[k]),
    decreases children.len(),
{
    if k > 0 {
        let rest = children.drop_first();
        assert(rest[k - 1] == children[k]);
        assert(m.contains_key(children[0]) ==> m[children[0]].name() != m[children[k]].name());
        assert forall|i: int| 0 <= i < k - 1 && m.contains_key(
            #[trigger] rest[i],
        ) implies m[rest[i]].name() != m[rest[k - 1]].name() by {
            assert(rest[i] == children[i + 1]);
        }
        lemma_child_found(m, rest, k - 1);
    }
}

/// What a name finds is a known child of that name.
pub proof fn lemma_child_is_listed(m: Map<u64, EntryView>, children: Seq<u64>, name: Seq<u8>)
    ensures
        child_named(m, children, name) matches Some(c) ==> children.contains(c) && m.contains_key(c)
            && m[c].name() == name,
        child_named(m, children, name) is None ==> forall|i: int|
            0 <= i < children.len() && m.contains_key(#[trigger] children[i])
                ==> m[children[i]].name() != name,
    decreases children.len(),
{
    if children.len() > 0 {
        let rest = children.drop_first();
        lemma_child_is_listed(m, rest, name);
        if m.contains_key(children[0]) && m[children[0]].name() == name {
            assert(children.contains(children[0]));
        } else {
            if child_named(m, rest, name) is Some {
                let c = child_named(m, rest, name)->0;
                let i = rest.index_of(c);
                assert(children[i + 1] == c);
            } else {
                assert forall|i: int| 0 <= i < children.len() && m.contains_key(
                    #[trigger] children[i],
                ) implies m[children[i]].name() != name by {
                    if i > 0 {
                        assert(rest[i - 1] == children[i]);
                    }
                }
            }
        }
    }
}

/// The lineage of an entry is the one that leads there.
pub proof fn lemma_lineage_is(m: Map<u64, EntryView>, line: Seq<u64>)
    requires
        is_lineage(m, line),
    ensures
        has_lineage(m, line.last()),
        lineage(m, line.last()) == line,
{
    law_lineage_is_unique(m, lineage(m, line.last()), line);
}

/// A lineage with one more entry at its end.
pub proof fn lemma_lineage_extends(m: Map<u64, EntryView>, line: Seq<u64>, child: u64)
    requires
        is_lineage(m, line),
        m.contains_key(child),
        m[child].parent() == Some(line.last()),
    ensures
        is_lineage(m, line.push(child)),
        has_lineage(m, child),
        lineage(m, child) == line.push(child),
{
    let longer = line.push(child);
    assert forall|i: int| 0 <= i < longer.len() implies m.contains_key(#[trigger] longer[i]) by {
        if i < line.len() {
            assert(m.contains_key(line[i]));
        }
    }
    assert(longer[0] == line[0]);
    assert forall|i: int, j: int|
        #![trigger longer[i], longer[j]]
        0 <= i < longer.len() && j == i + 1 && j < longer.len() implies m[longer[j]].parent() == Some(
        longer[i],
    ) by {
        if j < line.len() {
            assert(m[line[j]].parent() == Some(line[i]));
        }
    }
    assert(is_lineage(m, longer));
    lemma_lineage_is(m, longer);
}

/// The names along a lineage lead down it.
pub proof fn lemma_names_lead_down(m: Map<u64, EntryView>, line: Seq<u64>)
    requires
        is_lineage(m, line),
        downlinked(m),
        uplinked(m),
        named_apart(m),
    ensures
        resolved(m, line[0], names_along(m, line).skip(1)) == Some(line.last()),
    decreases line.len(),
{
    let names = names_along(m, line).skip(1);
    if line.len() > 1 {
        let upper = line.drop_last();
        let n = line.len() as int;
        lemma_lineage_prefix(m, line, n - 1);
        assert(upper =~= line.take(n - 1));
        lemma_names_lead_down(m, upper);
        assert(names.drop_last() =~= names_along(m, upper).skip(1));
        let p = line[n - 2];
        let c = line[n - 1];
        assert(m.contains_key(c) && m[c].parent() == Some(p));
        assert(m[p].children().contains(c));
        let k = m[p].children().index_of(c);
        assert forall|i: int| 0 <= i < k && m.contains_key(
            #[trigger] m[p].children()[i],
        ) implies m[m[p].children()[i]].name() != m[c].name() by {
            assert(m[m[p].children()[i]].name() != m[m[p].children()[k]].name());
        }
        lemma_child_found(m, m[p].children(), k);
        assert(names.last() == m[c].name());
    }
}

/// The path of an entry leads to the entry: looking up the path that `path_for_inode` gives, seen
/// from the root, finds the inode again.
pub proof fn law_path_leads_to_its_inode(s: SnapshotView, inode: u64)
    requires
        s.root_inode matches Some(root) && is_tree(s.entries, root),
        s.entries.contains_key(inode),
    ensures
        s.inode_at(path_to(s.entries, inode, false)) == Some(inode),
{
    let m = s.entries;
    let line = lineage(m, inode);
    let names = names_along(m, line).skip(1);
    assert(has_lineage(m, inode));
    assert forall|i: int| 0 <= i < names.len() implies is_plain_name(#[trigger] names[i]) by {
        assert(m[line[i + 1]].parent() == Some(line[i]));
        assert(m.contains_key(line[i + 1]));
    }
    law_path_of_names(names);
    lemma_names_lead_down(m, line);
}

/// Where names lead, a lineage leads that bears those names.
pub proof fn lemma_resolved_has_lineage(m: Map<u64, EntryView>, root: u64, names: Seq<Seq<u8>>)
    requires
        m.contains_key(root),
        m[root].parent() is None,
        downlinked(m),
        resolved(m, root, names) is Some,
    ensures
        m.contains_key(resolved(m, root, names)->0),
        has_lineage(m, resolved(m, root, names)->0),
        lineage(m, resolved(m, root, names)->0)[0] == root,
        names_along(m, lineage(m, resolved(m, root, names)->0)).skip(1) == names,
    decreases names.len(),
{
    let inode = resolved(m, root, names)->0;
    if names.len() == 0 {
        let line = seq![root];
        assert(is_lineage(m, line));
        lemma_lineage_is(m, line);
        assert(names_along(m, line).skip(1) =~= names);
    } else {
        let upper = names.drop_last();
        lemma_resolved_has_lineage(m, root, upper);
        let p = resolved(m, root, upper)->0;
        let line = lineage(m, p);
        lemma_child_is_listed(m, m[p].children(), names.last());
        let k = m[p].children().index_of(inode);
        assert(m[m[p].children()[k]].parent() == Some(p));
        lemma_lineage_extends(m, line, inode);
        let longer = line.push(inode);
        assert(longer[0] == line[0]);
        let bearing = names_along(m, longer).skip(1);
        assert forall|i: int| 0 <= i < names.len() implies bearing[i] == names[i] by {
            if i < upper.len() {
                assert(names_along(m, line).skip(1)[i] == upper[i]);
            }
        }
        assert(names_along(m, line).skip(1).len() == upper.len());
        assert(bearing =~= names);
    }
}

/// What a path leads to has that path: the path that `path_for_inode` gives has the same
/// components as the path that was looked up.
pub proof fn law_inode_has_the_path_that_led_to_it(s: SnapshotView, path: Seq<u8>)
    requires
        s.root_inode matches Some(root) && is_tree(s.entries, root),
        s.inode_at(path) is Some,
    ensures
        s.entries.contains_key(s.inode_at(path)->0),
        components(path_to(s.entries, s.inode_at(path)->0, false)) == components(path),
{
    let m = s.entries;
    let root = s.root_inode->0;
    lemma_resolved_has_lineage(m, root, components(path));
    let inode = s.inode_at(path)->0;
    law_path_leads_to_its_inode(s, inode);
    let line = lineage(m, inode);
    let names = names_along(m, line).skip(1);
    assert forall|i: int| 0 <= i < names.len() implies is_plain_name(#[trigger] names[i]) by {
        assert(m[line[i + 1]].parent() == Some(line[i]));
        assert(m.contains_key(line[i + 1]));
    }
    law_path_of_names(names);
}

/// Two entries of a tree do not share a path.
pub proof fn law_paths_tell_inodes_apart(s: SnapshotView, a: u64, b: u64)
    requires
        s.root_inode matches Some(root) && is_tree(s.entries, root),
        s.entries.contains_key(a),
        s.entries.contains_key(b),
        components(path_to(s.entries, a, false)) == components(path_to(s.entries, b, false)),
    ensures
        a == b,
{
    law_path_leads_to_its_inode(s, a);
    law_path_leads_to_its_inode(s, b);
}

/// Whether no directory lists an entry twice.
pub open spec fn listed_once(m: Map<u64, EntryView>) -> bool {
    forall|d: u64| #[trigger] m.contains_key(d) ==> m[d].children().no_duplicates()
}

/// What is left of a list of children.
pub proof fn lemma_without_child(children: Seq<u64>, child: u64)
    ensures
        forall|c: u64| #[trigger]
            without_child(children, child).contains(c) <==> children.contains(c) && c != child,
        children.no_duplicates() ==> without_child(children, child).no_duplicates(),
    decreases children.len(),
{
    reveal(Seq::filter);
    if children.len() > 0 {
        let rest = children.drop_last();
        lemma_without_child(rest, child);
        let kept = without_child(rest, child);
        let all = without_child(children, child);
        let last = children.last();
        assert forall|c: u64| #[trigger] all.contains(c) <==> children.contains(c) && c != child by {
            if all.contains(c) {
                let i = all.index_of(c);
                if i < kept.len() {
                    assert(kept[i] == c);
                    assert(kept.contains(c));
                    let j = rest.index_of(c);
                    assert(children[j] == c);
                } else {
                    assert(children[children.len() - 1] == c);
                }
            }
            if children.contains(c) && c != child {
                let i = children.index_of(c);
                if i < rest.len() {
                    assert(rest[i] == c);
                    assert(kept.contains(c));
                    let j = kept.index_of(c);
                    assert(all[j] == c);
                } else {
                    assert(all[all.len() - 1] == c);
                }
            }
        }
        if children.no_duplicates() {
            assert forall|i: int, j: int| 0 <= i < rest.len() && 0 <= j < rest.len() && i
                != j implies rest[i] != rest[j] by {
                assert(rest[i] == children[i] && rest[j] == children[j]);
            }
            if last != child {
                assert(!kept.contains(last)) by {
                    if kept.contains(last) {
                        let j = rest.index_of(last);
                        assert(children[j] == children[children.len() - 1]);
                    }
                }
                assert forall|i: int, j: int| 0 <= i < all.len() && 0 <= j < all.len() && i
                    != j implies all[i] != all[j] by {
                    if i == kept.len() {
                        assert(kept[j] == all[j]);
                        assert(kept.contains(all[j]));
                    } else if j == kept.len() {
                        assert(kept[i] == all[i]);
                        assert(kept.contains(all[i]));
                    } else {
                        assert(kept[i] == all[i] && kept[j] == all[j]);
                    }
                }
            }
        }
    }
}

/// Moving an entry adds none and takes none away, and keeps what each entry is, its inode, its
/// name and whether it is ignored. Only the moved entry, the parent it leaves and the one it goes
/// to are touched, and only the moved entry gets another parent.
pub proof fn law_reparent_touches_little(
    m: Map<u64, EntryView>,
    child: u64,
    old_parent: Option<u64>,
    new_parent: Option<u64>,
    inode: u64,
)
    requires
        m.contains_key(child),
    ensures
        ({
            let after = reparented(m, child, old_parent, new_parent);
            &&& after.dom() == m.dom()
            &&& m.contains_key(inode) ==> {
                &&& (after[inode] is Dir) == (m[inode] is Dir)
                &&& m[inode] is Dir ==> after[inode]->pending == m[inode]->pending
                &&& after[inode].ino() == m[inode].ino()
                &&& after[inode].name() == m[inode].name()
                &&& after[inode].is_ignored() == m[inode].is_ignored()
                &&& inode != child ==> after[inode].parent() == m[inode].parent()
                &&& inode == child ==> after[inode] == m[inode].with_parent(new_parent)
                &&& inode != child && old_parent != Some(inode) && new_parent != Some(inode)
                    ==> after[inode] == m[inode]
            }
        }),
{
    let after = reparented(m, child, old_parent, new_parent);
    assert(after.dom() =~= m.dom());
}

/// Whether `child` can go from its parent to `new_parent` in a tree: the new parent is a directory
/// that is not the child itself, or there is none.
pub open spec fn is_move(m: Map<u64, EntryView>, child: u64, new_parent: Option<u64>) -> bool {
    &&& m.contains_key(child)
    &&& new_parent matches Some(q) ==> m.contains_key(q) && m[q] is Dir && q != child
    &&& m[child].parent() != Some(child)
}

/// What a directory lists after a move.
pub proof fn lemma_children_after_move(
    m: Map<u64, EntryView>,
    child: u64,
    new_parent: Option<u64>,
    d: u64,
)
    requires
        is_move(m, child, new_parent),
        uplinked(m),
        m.contains_key(d),
    ensures
        ({
            let after = reparented(m, child, m[child].parent(), new_parent);
            &&& m[child].parent() == Some(d) && new_parent != Some(d) ==> after[d].children()
                == without_child(m[d].children(), child)
            &&& m[child].parent() == Some(d) && new_parent == Some(d) ==> after[d].children()
                == without_child(m[d].children(), child).push(child)
            &&& m[child].parent() != Some(d) && new_parent == Some(d) ==> after[d].children()
                == m[d].children().push(child)
            &&& m[child].parent() != Some(d) && new_parent != Some(d) ==> after[d].children()
                == m[d].children()
        }),
{
    assert(m[child].parent() == Some(d) ==> m[d].children().contains(child));
}

/// Moving an entry from its parent to a directory, be it another or the same, or away from its
/// parent, keeps children and parents in agreement, and lists nothing twice.
pub proof fn law_reparent_keeps_links(m: Map<u64, EntryView>, child: u64, new_parent: Option<u64>)
    requires
        is_move(m, child, new_parent),
        downlinked(m),
        uplinked(m),
        listed_once(m),
    ensures
        downlinked(reparented(m, child, m[child].parent(), new_parent)),
        uplinked(reparented(m, child, m[child].parent(), new_parent)),
        listed_once(reparented(m, child, m[child].parent(), new_parent)),
{
    let old_parent = m[child].parent();
    let after = reparented(m, child, old_parent, new_parent);
    assert(after.dom() =~= m.dom());
    assert forall|d: u64| #[trigger] m.contains_key(d) implies {
        let kept = without_child(m[d].children(), child);
        &&& new_parent == Some(d) ==> after[d].children() == kept.push(child)
        &&& new_parent != Some(d) ==> after[d].children() == kept
    } by {
        lemma_children_after_move(m, child, new_parent, d);
        if old_parent != Some(d) {
            assert(!m[d].children().contains(child)) by {
                if m[d].children().contains(child) {
                    let k = m[d].children().index_of(child);
                    assert(m[m[d].children()[k]].parent() == Some(d));
                }
            }
            lemma_without_stranger(m[d].children(), child);
        }
    }
    assert forall|d: u64, i: int|
        #![trigger after[d].children()[i]]
        after.contains_key(d) && 0 <= i < after[d].children().len() implies after.contains_key(
        after[d].children()[i],
    ) && after[after[d].children()[i]].parent() == Some(d) by {
        assert(m.contains_key(d));
        let kept = without_child(m[d].children(), child);
        let c = after[d].children()[i];
        lemma_without_child(m[d].children(), child);
        if i < kept.len() {
            assert(kept[i] == c);
            assert(kept.contains(c));
            let k = m[d].children().index_of(c);
            assert(m[m[d].children()[k]].parent() == Some(d));
            law_reparent_touches_little(m, child, old_parent, new_parent, c);
        } else {
            assert(c == child && new_parent == Some(d));
        }
    }
    assert forall|c: u64| after.contains_key(c) && #[trigger] after[c].parent() is Some implies (
    after.contains_key(after[c].parent()->0) && after[after[c].parent()->0].children().contains(
        c,
    )) by {
        law_reparent_touches_little(m, child, old_parent, new_parent, c);
        let p = after[c].parent()->0;
        assert(m.contains_key(c));
        assert(m.contains_key(p)) by {
            if c != child {
                assert(m[c].parent() == Some(p));
            }
        }
        let kept = without_child(m[p].children(), child);
        lemma_without_child(m[p].children(), child);
        if c == child {
            assert(after[p].children()[kept.len() as int] == child);
        } else {
            assert(m[c].parent() == Some(p));
            assert(m[p].children().contains(c));
            assert(kept.contains(c));
            let k = kept.index_of(c);
            assert(after[p].children()[k] == c);
        }
    }
    assert forall|d: u64| #[trigger] after.contains_key(d) implies after[d].children().no_duplicates() by {
        assert(m.contains_key(d));
        let kept = without_child(m[d].children(), child);
        lemma_without_child(m[d].children(), child);
        if new_parent == Some(d) {
            let now = kept.push(child);
            assert forall|i: int, j: int| 0 <= i < now.len() && 0 <= j < now.len() && i
                != j implies now[i] != now[j] by {
                if i < kept.len() {
                    assert(kept.contains(kept[i]));
                }
                if j < kept.len() {
                    assert(kept.contains(kept[j]));
                }
            }
        }
    }
}

/// Nothing is left out of a list that does not hold it.
proof fn lemma_without_stranger(children: Seq<u64>, child: u64)
    requires
        !children.contains(child),
    ensures
        without_child(children, child) == children,
    decreases children.len(),
{
    reveal(Seq::filter);
    if children.len() > 0 {
        let rest = children.drop_last();
        assert forall|i: int| 0 <= i < rest.len() implies rest[i] != child by {
            assert(rest[i] == children[i]);
        }
        assert(children[children.len() - 1] != child);
        lemma_without_stranger(rest, child);
        assert(without_child(children, child) =~= children);
    } else {
        assert(without_child(children, child) =~= children);
    }
}

/// An entry that does not lie at or below the moved one keeps its path.
pub proof fn law_reparent_keeps_other_paths(
    m: Map<u64, EntryView>,
    child: u64,
    old_parent: Option<u64>,
    new_parent: Option<u64>,
    inode: u64,
    with_root: bool,
)
    requires
        m.contains_key(child),
        has_lineage(m, inode),
        !lineage(m, inode).contains(child),
    ensures
        ({
            let after = reparented(m, child, old_parent, new_parent);
            &&& has_lineage(after, inode)
            &&& lineage(after, inode) == lineage(m, inode)
            &&& path_to(after, inode, with_root) == path_to(m, inode, with_root)
        }),
{
    let after = reparented(m, child, old_parent, new_parent);
    let line = lineage(m, inode);
    assert(is_lineage(m, line));
    assert(after.dom() =~= m.dom());
    assert forall|i: int| 0 <= i < line.len() implies after.contains_key(#[trigger] line[i])
        && after[line[i]].parent() == m[line[i]].parent() && after[line[i]].name()
        == m[line[i]].name() by {
        assert(m.contains_key(line[i]));
        assert(line.contains(line[i]));
    }
    assert(is_lineage(after, line)) by {
        assert forall|i: int, j: int|
            #![trigger line[i], line[j]]
            0 <= i < line.len() && j == i + 1 && j < line.len() implies after[line[j]].parent()
            == Some(line[i]) by {
            assert(m[line[j]].parent() == Some(line[i]));
        }
    }
    lemma_lineage_is(after, line);
    assert(names_along(after, line) =~= names_along(m, line));
}

/// An entry that is moved has its path below its new parent: the parent's path with the entry's
/// name behind it.
pub proof fn law_reparent_moves_the_path(
    m: Map<u64, EntryView>,
    child: u64,
    old_parent: Option<u64>,
    parent: u64,
    with_root: bool,
)
    requires
        m.contains_key(child),
        has_lineage(m, parent),
        !lineage(m, parent).contains(child),
    ensures
        ({
            let after = reparented(m, child, old_parent, Some(parent));
            &&& has_lineage(after, child)
            &&& path_to(after, child, with_root) == pushed(
                path_to(m, parent, with_root),
                m[child].name(),
            )
        }),
{
    let after = reparented(m, child, old_parent, Some(parent));
    let line = lineage(m, parent);
    law_reparent_keeps_other_paths(m, child, old_parent, Some(parent), parent, with_root);
    assert forall|i: int| 0 <= i < line.len() implies after[#[trigger] line[i]].name()
        == m[line[i]].name() by {
        assert(is_lineage(m, line));
        assert(m.contains_key(line[i]));
    }
    assert(after[child].parent() == Some(parent));
    lemma_lineage_extends(after, line, child);
    let names = names_along(m, line);
    let more = names_along(after, line.push(child));
    assert(more =~= names.push(m[child].name()));
    assert(more.drop_last() =~= names);
    assert(more.skip(1).drop_last() =~= names.skip(1));
}

/// Taking an entry out of its parent and putting it back leaves it there, as the last one listed,
/// and changes nothing else.
pub proof fn law_detach_is_undone_by_attach(m: Map<u64, EntryView>, child: u64, parent: u64)
    requires
        m.contains_key(child),
        m.contains_key(parent),
        parent != child,
        m[parent] is Dir,
        m[child].parent() == Some(parent),
    ensures
        reparented(reparented(m, child, Some(parent), None), child, None, Some(parent)) == m.insert(
            parent,
            m[parent].with_children(without_child(m[parent].children(), child).push(child)),
        ),
{
    assert(reparented(reparented(m, child, Some(parent), None), child, None, Some(parent))
        =~= m.insert(
        parent,
        m[parent].with_children(without_child(m[parent].children(), child).push(child)),
    ));
}

} // verus!
