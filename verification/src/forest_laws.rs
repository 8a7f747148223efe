//! A tree together with what has come loose from it: how entries are put in their place, and how
//! what is left loose is taken out.
use vstd::prelude::*;
use crate::entry::EntryView;
use crate::events::recorded;
use crate::lineage::{law_lineage_does_not_repeat, law_lineage_is_unique, lemma_lineage_prefix};
use crate::orphans::{is_reached, is_trail, lemma_trail_extends, orphaned, owns, parentless};
use crate::path::pushed;
use crate::path_laws::is_plain_name;
use crate::snapshot::{
    added, has_lineage, is_lineage, lineage, names_along, path_to, refreshed, reparented,
};
use crate::tree_laws::{
    downlinked, hangs_on, is_tree, law_reparent_keeps_links, law_reparent_keeps_other_paths,
    law_reparent_touches_little, lemma_children_after_move, lemma_lineage_extends, lemma_lineage_is,
    lemma_without_child, listed_once, named_apart, plainly_named, uplinked,
};

verus! {

/// Whether every entry hangs on `root` or on one of `strays`.
pub open spec fn hangs_on_any(m: Map<u64, EntryView>, root: u64, strays: Seq<u64>) -> bool {
    forall|c: u64|
        #![trigger has_lineage(m, c)]
        #![trigger lineage(m, c)]
        m.contains_key(c) ==> has_lineage(m, c) && (lineage(m, c)[0] == root || strays.contains(
            lineage(m, c)[0],
        ))
}

/// Whether the entries make up a tree with the given root, and trees with other roots, each one of
/// `strays`.
pub open spec fn is_forest(m: Map<u64, EntryView>, root: u64, strays: Seq<u64>) -> bool {
    &&& m.contains_key(root)
    &&& m[root].parent() is None
    &&& downlinked(m)
    &&& uplinked(m)
    &&& named_apart(m)
    &&& plainly_named(m)
    &&& hangs_on_any(m, root, strays)
}

/// A tree is a forest, whatever else may have left it.
pub proof fn law_tree_is_a_forest(m: Map<u64, EntryView>, root: u64, strays: Seq<u64>)
    requires
        is_tree(m, root),
    ensures
        is_forest(m, root, strays),
{
    assert forall|c: u64| m.contains_key(c) implies #[trigger] has_lineage(m, c) && (lineage(
        m,
        c,
    )[0] == root || strays.contains(lineage(m, c)[0])) by {
        assert(hangs_on(m, root));
        assert(has_lineage(m, c));
    }
}

/// A forest without strays is a tree.
pub proof fn law_forest_without_strays_is_a_tree(m: Map<u64, EntryView>, root: u64)
    requires
        is_forest(m, root, Seq::empty()),
    ensures
        is_tree(m, root),
{
    let none = Seq::<u64>::empty();
    assert forall|c: u64|
        #![trigger has_lineage(m, c)]
        #![trigger lineage(m, c)]
        m.contains_key(c) implies has_lineage(m, c) && lineage(m, c)[0] == root by {
        assert(hangs_on_any(m, root, none));
        assert(!none.contains(lineage(m, c)[0]));
    }
}

/// Entries with different names are different entries.
proof fn lemma_named_apart_lists_once(m: Map<u64, EntryView>)
    requires
        named_apart(m),
    ensures
        listed_once(m),
{
    assert forall|d: u64| #[trigger] m.contains_key(d) implies m[d].children().no_duplicates() by {
        assert forall|i: int, j: int|
            0 <= i < m[d].children().len() && 0 <= j < m[d].children().len() && i
                != j implies m[d].children()[i] != m[d].children()[j] by {
            if i < j {
                assert(m[m[d].children()[i]].name() != m[m[d].children()[j]].name());
            } else {
                assert(m[m[d].children()[j]].name() != m[m[d].children()[i]].name());
            }
        }
    }
}

/// Two entries that one directory lists have different names.
proof fn lemma_siblings_named_apart(m: Map<u64, EntryView>, d: u64, a: u64, b: u64)
    requires
        named_apart(m),
        m.contains_key(d),
        m[d].children().contains(a),
        m[d].children().contains(b),
        a != b,
    ensures
        m[a].name() != m[b].name(),
{
    let children = m[d].children();
    let i = children.index_of(a);
    let j = children.index_of(b);
    if i < j {
        assert(m[m[d].children()[i]].name() != m[m[d].children()[j]].name());
    } else {
        assert(m[m[d].children()[j]].name() != m[m[d].children()[i]].name());
    }
}

/// An entry with a lineage is not its own parent.
proof fn lemma_not_own_parent(m: Map<u64, EntryView>, inode: u64)
    requires
        has_lineage(m, inode),
    ensures
        m[inode].parent() != Some(inode),
{
    let line = lineage(m, inode);
    assert(is_lineage(m, line));
    law_lineage_does_not_repeat(m, line);
    if line.len() > 1 {
        let n = line.len() as int;
        assert(m[line[n - 1]].parent() == Some(line[n - 2]));
    }
}

/// The part of a lineage from a detached entry on is a lineage once the entry is detached.
proof fn lemma_detached_lineage(
    m: Map<u64, EntryView>,
    child: u64,
    old_parent: Option<u64>,
    inode: u64,
)
    requires
        m.contains_key(child),
        has_lineage(m, inode),
        lineage(m, inode).contains(child),
    ensures
        has_lineage(reparented(m, child, old_parent, None), inode),
        lineage(reparented(m, child, old_parent, None), inode)[0] == child,
{
    let after = reparented(m, child, old_parent, None);
    let line = lineage(m, inode);
    assert(is_lineage(m, line));
    law_lineage_does_not_repeat(m, line);
    let t = line.index_of(child);
    let part = line.skip(t);
    assert(after.dom() =~= m.dom());
    assert(part[0] == child);
    assert(after[child].parent() is None);
    assert forall|i: int| 0 <= i < part.len() implies after.contains_key(#[trigger] part[i]) by {
        assert(m.contains_key(line[t + i]));
    }
    assert forall|i: int, j: int|
        #![trigger part[i], part[j]]
        0 <= i < part.len() && j == i + 1 && j < part.len() implies after[part[j]].parent() == Some(
        part[i],
    ) by {
        assert(m[line[t + j]].parent() == Some(line[t + i]));
        assert(line[t + j] != child);
        law_reparent_touches_little(m, child, old_parent, None, line[t + j]);
    }
    assert(is_lineage(after, part));
    lemma_lineage_is(after, part);
}

/// What hung on a detached entry hangs on it as before, and all else where it hung.
proof fn lemma_detached_hangs(m: Map<u64, EntryView>, root: u64, strays: Seq<u64>, child: u64)
    requires
        hangs_on_any(m, root, strays),
        m.contains_key(child),
    ensures
        hangs_on_any(
            reparented(m, child, m[child].parent(), None),
            root,
            recorded(strays, child),
        ),
{
    let old_parent = m[child].parent();
    let after = reparented(m, child, old_parent, None);
    let more = recorded(strays, child);
    assert(after.dom() =~= m.dom());
    assert(more.contains(child)) by {
        if !strays.contains(child) {
            assert(more[strays.len() as int] == child);
        }
    }
    assert forall|x: u64| strays.contains(x) implies more.contains(x) by {
        if !strays.contains(child) {
            let i = strays.index_of(x);
            assert(more[i] == x);
        }
    }
    assert forall|c: u64| after.contains_key(c) implies #[trigger] has_lineage(after, c) && (lineage(
        after,
        c,
    )[0] == root || more.contains(lineage(after, c)[0])) by {
        assert(has_lineage(m, c));
        if lineage(m, c).contains(child) {
            lemma_detached_lineage(m, child, old_parent, c);
        } else {
            law_reparent_keeps_other_paths(m, child, old_parent, None, c, true);
        }
    }
}

/// Detaching an entry other than the root turns it into a stray: the rest stays in order.
pub proof fn law_detach_keeps_the_forest(
    m: Map<u64, EntryView>,
    root: u64,
    strays: Seq<u64>,
    child: u64,
)
    requires
        is_forest(m, root, strays),
        m.contains_key(child),
        child != root,
    ensures
        is_forest(
            reparented(m, child, m[child].parent(), None),
            root,
            recorded(strays, child),
        ),
{
    let old_parent = m[child].parent();
    let after = reparented(m, child, old_parent, None);
    assert(after.dom() =~= m.dom());
    assert(has_lineage(m, child));
    lemma_not_own_parent(m, child);
    lemma_named_apart_lists_once(m);
    law_reparent_touches_little(m, child, old_parent, None, root);
    if old_parent is None {
        assert(m[child].with_parent(None) == m[child]);
        assert(after =~= m);
    } else {
        law_reparent_keeps_links(m, child, None);
        assert forall|d: u64, i: int, j: int|
            #![trigger after[d].children()[i], after[d].children()[j]]
            after.contains_key(d) && 0 <= i < j
                < after[d].children().len() implies after[after[d].children()[i]].name()
            != after[after[d].children()[j]].name() by {
            lemma_children_after_move(m, child, None, d);
            lemma_without_child(m[d].children(), child);
            assert(after[d].children().no_duplicates());
            let a = after[d].children()[i];
            let b = after[d].children()[j];
            assert(after[d].children().contains(a) && after[d].children().contains(b));
            lemma_siblings_named_apart(m, d, a, b);
            assert(after.contains_key(a) && after.contains_key(b));
            law_reparent_touches_little(m, child, old_parent, None, a);
            law_reparent_touches_little(m, child, old_parent, None, b);
        }
        assert forall|c: u64| #[trigger]
            after.contains_key(c) && after[c].parent() is Some implies is_plain_name(
            after[c].name(),
        ) by {
            law_reparent_touches_little(m, child, old_parent, None, c);
            assert(m.contains_key(c));
        }
    }
    lemma_detached_hangs(m, root, strays, child);
}

/// Whether `child`, an entry without a parent, can be hung on `parent` in a forest: the parent is a
/// directory that does not lie at or below the child, and lists nothing of the child's name.
pub open spec fn can_hang(m: Map<u64, EntryView>, child: u64, parent: u64) -> bool {
    &&& m.contains_key(child)
    &&& m.contains_key(parent)
    &&& m[parent] is Dir
    &&& !lineage(m, parent).contains(child)
    &&& is_plain_name(m[child].name())
    &&& forall|i: int|
        0 <= i < m[parent].children().len() ==> m[#[trigger] m[parent].children()[i]].name()
            != m[child].name()
}

/// What hung on a stray hangs on where the stray is put.
proof fn lemma_attached_lineage(m: Map<u64, EntryView>, child: u64, parent: u64, inode: u64)
    requires
        m.contains_key(child),
        m[child].parent() is None,
        has_lineage(m, parent),
        !lineage(m, parent).contains(child),
        has_lineage(m, inode),
        lineage(m, inode)[0] == child,
    ensures
        has_lineage(reparented(m, child, None, Some(parent)), inode),
        lineage(reparented(m, child, None, Some(parent)), inode)[0] == lineage(m, parent)[0],
{
    let after = reparented(m, child, None, Some(parent));
    let upper = lineage(m, parent);
    let line = lineage(m, inode);
    let whole = upper + line;
    assert(is_lineage(m, line));
    assert(is_lineage(m, upper));
    assert(after.dom() =~= m.dom());
    law_lineage_does_not_repeat(m, line);
    let n = upper.len() as int;
    assert forall|i: int| 0 <= i < whole.len() implies after.contains_key(#[trigger] whole[i]) by {
        if i < n {
            assert(m.contains_key(upper[i]));
        } else {
            assert(m.contains_key(line[i - n]));
        }
    }
    assert forall|i: int, j: int|
        #![trigger whole[i], whole[j]]
        0 <= i < whole.len() && j == i + 1 && j < whole.len() implies after[whole[j]].parent()
        == Some(whole[i]) by {
        law_reparent_touches_little(m, child, None, Some(parent), whole[j]);
        if j < n {
            assert(m[upper[j]].parent() == Some(upper[i]));
            assert(upper.contains(upper[j]));
            assert(m.contains_key(upper[j]));
        } else if j == n {
            assert(whole[j] == child);
            assert(whole[i] == upper.last());
        } else {
            assert(m[line[j - n]].parent() == Some(line[i - n]));
            assert(line[j - n] != line[0]);
            assert(m.contains_key(line[j - n]));
        }
    }
    assert(after[whole[0]].parent() is None) by {
        assert(whole[0] == upper[0]);
        assert(upper.contains(upper[0]));
        assert(m.contains_key(upper[0]));
        law_reparent_touches_little(m, child, None, Some(parent), upper[0]);
    }
    assert(is_lineage(after, whole));
    assert(whole.last() == inode);
    lemma_lineage_is(after, whole);
}

/// Hanging an entry without a parent on a directory keeps the forest in order.
pub proof fn law_attach_keeps_the_forest(
    m: Map<u64, EntryView>,
    root: u64,
    strays: Seq<u64>,
    child: u64,
    parent: u64,
)
    requires
        is_forest(m, root, strays),
        can_hang(m, child, parent),
        m[child].parent() is None,
        child != root,
    ensures
        is_forest(reparented(m, child, None, Some(parent)), root, strays),
{
    let after = reparented(m, child, None, Some(parent));
    let to = Some(parent);
    assert(after.dom() =~= m.dom());
    assert(has_lineage(m, parent));
    let upper = lineage(m, parent);
    assert(is_lineage(m, upper));
    assert(parent != child) by {
        assert(upper.contains(upper.last()));
    }
    lemma_named_apart_lists_once(m);
    law_reparent_keeps_links(m, child, to);
    law_reparent_touches_little(m, child, None, to, root);
    assert forall|d: u64, i: int, j: int|
        #![trigger after[d].children()[i], after[d].children()[j]]
        after.contains_key(d) && 0 <= i < j < after[d].children().len() implies after[after[d].children()[i]].name()
        != after[after[d].children()[j]].name() by {
        lemma_children_after_move(m, child, to, d);
        let a = after[d].children()[i];
        let b = after[d].children()[j];
        assert(after.contains_key(a) && after.contains_key(b));
        law_reparent_touches_little(m, child, None, to, a);
        law_reparent_touches_little(m, child, None, to, b);
        assert(m[d].children()[i] == a);
        if j < m[d].children().len() {
            assert(m[d].children()[j] == b);
            assert(m[m[d].children()[i]].name() != m[m[d].children()[j]].name());
        } else {
            assert(d == parent && b == child);
            assert(m[m[parent].children()[i]].name() != m[child].name());
        }
    }
    assert forall|c: u64| #[trigger]
        after.contains_key(c) && after[c].parent() is Some implies is_plain_name(after[c].name()) by {
        law_reparent_touches_little(m, child, None, to, c);
        assert(m.contains_key(c));
    }
    assert forall|c: u64| after.contains_key(c) implies #[trigger] has_lineage(after, c) && (lineage(
        after,
        c,
    )[0] == root || strays.contains(lineage(after, c)[0])) by {
        assert(has_lineage(m, c));
        let line = lineage(m, c);
        assert(is_lineage(m, line));
        if line.contains(child) {
            let t = line.index_of(child);
            assert(t == 0) by {
                if t > 0 {
                    assert(m[line[t]].parent() == Some(line[t - 1]));
                }
            }
            lemma_attached_lineage(m, child, parent, c);
        } else {
            law_reparent_keeps_other_paths(m, child, None, to, c, true);
        }
    }
}

/// Moving an entry is taking it out of its parent and hanging it on the new one.
pub proof fn law_move_is_detach_and_attach(
    m: Map<u64, EntryView>,
    child: u64,
    old_parent: Option<u64>,
    new_parent: u64,
)
    requires
        m.contains_key(child),
    ensures
        reparented(m, child, old_parent, Some(new_parent)) == reparented(
            reparented(m, child, old_parent, None),
            child,
            None,
            Some(new_parent),
        ),
{
    assert(reparented(m, child, old_parent, Some(new_parent)) =~= reparented(
        reparented(m, child, old_parent, None),
        child,
        None,
        Some(new_parent),
    ));
}

/// Strays that have a parent are strays no longer.
proof fn lemma_stray_with_parent(
    m: Map<u64, EntryView>,
    root: u64,
    strays: Seq<u64>,
    child: u64,
)
    requires
        is_forest(m, root, recorded(strays, child)),
        m.contains_key(child),
        m[child].parent() is Some,
    ensures
        is_forest(m, root, strays),
{
    let more = recorded(strays, child);
    assert forall|c: u64| m.contains_key(c) implies #[trigger] has_lineage(m, c) && (lineage(
        m,
        c,
    )[0] == root || strays.contains(lineage(m, c)[0])) by {
        assert(has_lineage(m, c));
        let line = lineage(m, c);
        assert(is_lineage(m, line));
        if line[0] != root {
            let i = more.index_of(line[0]);
            if i < strays.len() {
                assert(strays[i] == line[0]);
            } else {
                assert(line[0] == child);
            }
        }
    }
}

/// Two maps with the same entries in the same places have the same lineages.
proof fn lemma_same_parents_same_lineage(
    m: Map<u64, EntryView>,
    after: Map<u64, EntryView>,
    inode: u64,
)
    requires
        has_lineage(m, inode),
        forall|i: int|
            0 <= i < lineage(m, inode).len() ==> after.contains_key(
                #[trigger] lineage(m, inode)[i],
            ) && after[lineage(m, inode)[i]].parent() == m[lineage(m, inode)[i]].parent(),
    ensures
        has_lineage(after, inode),
        lineage(after, inode) == lineage(m, inode),
{
    let line = lineage(m, inode);
    assert(is_lineage(m, line));
    assert(is_lineage(after, line)) by {
        assert forall|i: int, j: int|
            #![trigger line[i], line[j]]
            0 <= i < line.len() && j == i + 1 && j < line.len() implies after[line[j]].parent()
            == Some(line[i]) by {
            assert(m[line[j]].parent() == Some(line[i]));
        }
    }
    lemma_lineage_is(after, line);
}

/// Taking over what the file system says of an entry keeps every lineage.
proof fn lemma_refreshed_lineage(m: Map<u64, EntryView>, found: EntryView, inode: u64)
    requires
        has_lineage(m, inode),
    ensures
        has_lineage(refreshed(m, found), inode),
        lineage(refreshed(m, found), inode) == lineage(m, inode),
{
    let line = lineage(m, inode);
    assert(is_lineage(m, line));
    lemma_same_parents_same_lineage(m, refreshed(m, found), inode);
}

/// A stray can take any name.
pub proof fn law_refresh_keeps_the_forest(
    m: Map<u64, EntryView>,
    root: u64,
    strays: Seq<u64>,
    found: EntryView,
)
    requires
        is_forest(m, root, strays),
        m.contains_key(found.ino()),
        m[found.ino()].parent() is None,
    ensures
        is_forest(refreshed(m, found), root, strays),
{
    let after = refreshed(m, found);
    let child = found.ino();
    assert(after.dom() =~= m.dom());
    assert forall|d: u64| m.contains_key(d) implies (#[trigger] after[d]).children()
        == m[d].children() && after[d].parent() == m[d].parent() && (d != child ==> after[d]
        == m[d]) by {}
    assert forall|d: u64, i: int|
        #![trigger after[d].children()[i]]
        after.contains_key(d) && 0 <= i < after[d].children().len() implies after.contains_key(
        after[d].children()[i],
    ) && after[after[d].children()[i]].parent() == Some(d) && after[d].children()[i] != child by {
        assert(after[d].children() == m[d].children());
        let c = m[d].children()[i];
        assert(m.contains_key(c) && m[c].parent() == Some(d));
        assert(after[c].parent() == m[c].parent());
    }
    assert forall|c: u64| after.contains_key(c) && #[trigger] after[c].parent() is Some implies (
    after.contains_key(after[c].parent()->0) && after[after[c].parent()->0].children().contains(
        c,
    )) by {
        assert(after[c].parent() == m[c].parent());
        let p = m[c].parent()->0;
        assert(m.contains_key(p) && m[p].children().contains(c));
        assert(after[p].children() == m[p].children());
    }
    assert forall|d: u64, i: int, j: int|
        #![trigger after[d].children()[i], after[d].children()[j]]
        after.contains_key(d) && 0 <= i < j < after[d].children().len() implies after[after[d].children()[i]].name()
        != after[after[d].children()[j]].name() by {
        assert(after[d].children() == m[d].children());
        let a = after[d].children()[i];
        let b = after[d].children()[j];
        assert(a != child && b != child);
        assert(m[m[d].children()[i]].name() != m[m[d].children()[j]].name());
        assert(after.contains_key(a) && after.contains_key(b));
        assert(after[a] == m[a] && after[b] == m[b]);
    }
    assert forall|c: u64| #[trigger]
        after.contains_key(c) && after[c].parent() is Some implies is_plain_name(after[c].name()) by {
        assert(m.contains_key(c));
        assert(after[c].parent() == m[c].parent());
        assert(c != child);
    }
    assert(hangs_on_any(after, root, strays)) by {
        assert forall|c: u64| after.contains_key(c) implies #[trigger] has_lineage(after, c) && (
        lineage(after, c)[0] == root || strays.contains(lineage(after, c)[0])) by {
            assert(has_lineage(m, c));
            lemma_refreshed_lineage(m, found, c);
        }
    }
}

/// An entry that is put in without a parent, and holds nothing, is a stray.
proof fn lemma_new_stray(m: Map<u64, EntryView>, root: u64, strays: Seq<u64>, entry: EntryView)
    requires
        is_forest(m, root, strays),
        !m.contains_key(entry.ino()),
        entry.parent() is None,
        entry.children().len() == 0,
    ensures
        is_forest(m.insert(entry.ino(), entry), root, recorded(strays, entry.ino())),
{
    let child = entry.ino();
    let after = m.insert(child, entry);
    let more = recorded(strays, child);
    assert forall|d: u64, i: int|
        #![trigger after[d].children()[i]]
        after.contains_key(d) && 0 <= i < after[d].children().len() implies after.contains_key(
        after[d].children()[i],
    ) && after[after[d].children()[i]].parent() == Some(d) && after[d].children()[i] != child by {
        assert(d != child);
        let c = m[d].children()[i];
        assert(m.contains_key(c) && m[c].parent() == Some(d));
    }
    assert forall|c: u64| after.contains_key(c) && #[trigger] after[c].parent() is Some implies (
    after.contains_key(after[c].parent()->0) && after[after[c].parent()->0].children().contains(
        c,
    )) by {
        let p = m[c].parent()->0;
        assert(m.contains_key(p) && m[p].children().contains(c));
    }
    assert forall|d: u64, i: int, j: int|
        #![trigger after[d].children()[i], after[d].children()[j]]
        after.contains_key(d) && 0 <= i < j < after[d].children().len() implies after[after[d].children()[i]].name()
        != after[after[d].children()[j]].name() by {
        assert(d != child);
        assert(after[d].children()[i] != child && after[d].children()[j] != child);
        assert(m[m[d].children()[i]].name() != m[m[d].children()[j]].name());
    }
    assert forall|c: u64| #[trigger]
        after.contains_key(c) && after[c].parent() is Some implies is_plain_name(after[c].name()) by {
        assert(m.contains_key(c));
    }
    assert(more.contains(child)) by {
        if !strays.contains(child) {
            assert(more[strays.len() as int] == child);
        }
    }
    assert forall|x: u64| strays.contains(x) implies more.contains(x) by {
        if !strays.contains(child) {
            let i = strays.index_of(x);
            assert(more[i] == x);
        }
    }
    assert(hangs_on_any(after, root, more)) by {
        assert forall|c: u64| after.contains_key(c) implies #[trigger] has_lineage(after, c) && (
        lineage(after, c)[0] == root || more.contains(lineage(after, c)[0])) by {
            if c == child {
                let line = seq![child];
                assert(is_lineage(after, line));
                lemma_lineage_is(after, line);
            } else {
                assert(has_lineage(m, c));
                let line = lineage(m, c);
                assert(is_lineage(m, line));
                assert forall|i: int| 0 <= i < line.len() implies after.contains_key(
                    #[trigger] line[i],
                ) && after[line[i]].parent() == m[line[i]].parent() by {
                    assert(m.contains_key(line[i]));
                }
                lemma_same_parents_same_lineage(m, after, c);
            }
        }
    }
}

/// The entries once `entry`, as the file system has it, is where it belongs: moved there with its
/// name where it is known, put in where it is not.
pub open spec fn placed(m: Map<u64, EntryView>, entry: EntryView) -> Map<u64, EntryView> {
    if m.contains_key(entry.ino()) {
        refreshed(
            reparented(m, entry.ino(), m[entry.ino()].parent(), entry.parent()),
            entry,
        )
    } else {
        added(m, entry)
    }
}

/// Whether there is a place for `entry` below `parent` in a forest: the parent is a directory that
/// does not lie at or below the entry, and lists nothing else of its name.
pub open spec fn has_place(m: Map<u64, EntryView>, entry: EntryView, parent: u64) -> bool {
    &&& entry.parent() == Some(parent)
    &&& m.contains_key(parent)
    &&& m[parent] is Dir
    &&& !lineage(m, parent).contains(entry.ino())
    &&& is_plain_name(entry.name())
    &&& !m.contains_key(entry.ino()) ==> entry.children().len() == 0
    &&& forall|i: int|
        0 <= i < m[parent].children().len() && m[parent].children()[i] != entry.ino()
            ==> m[#[trigger] m[parent].children()[i]].name() != entry.name()
}

/// Placing an entry gives it the parent and the name that it has on the file system; all others
/// keep theirs.
pub proof fn law_placing_touches_little(m: Map<u64, EntryView>, entry: EntryView, inode: u64)
    ensures
        ({
            let after = placed(m, entry);
            &&& after.dom() == m.dom().insert(entry.ino())
            &&& after[entry.ino()].parent() == entry.parent()
            &&& after[entry.ino()].name() == entry.name()
            &&& m.contains_key(entry.ino()) ==> after[entry.ino()].ino() == m[entry.ino()].ino()
                && (after[entry.ino()] is Dir) == (m[entry.ino()] is Dir) && (
            m[entry.ino()] is Dir ==> after[entry.ino()]->pending == m[entry.ino()]->pending)
                && after[entry.ino()].children() == m[entry.ino()].children()
            &&& !m.contains_key(entry.ino()) ==> after[entry.ino()] == entry
            &&& m.contains_key(inode) && inode != entry.ino() ==> {
                &&& after[inode].parent() == m[inode].parent()
                &&& after[inode].name() == m[inode].name()
                &&& after[inode].ino() == m[inode].ino()
                &&& after[inode].is_ignored() == m[inode].is_ignored()
                &&& (after[inode] is Dir) == (m[inode] is Dir)
                &&& m[inode] is Dir ==> after[inode]->pending == m[inode]->pending
                &&& entry.parent() != Some(inode) && (m.contains_key(entry.ino())
                    ==> m[entry.ino()].parent() != Some(inode)) ==> after[inode] == m[inode]
            }
        }),
{
    let child = entry.ino();
    let after = placed(m, entry);
    if m.contains_key(child) {
        law_reparent_touches_little(m, child, m[child].parent(), entry.parent(), inode);
        law_reparent_touches_little(m, child, m[child].parent(), entry.parent(), child);
        assert(after.dom() =~= m.dom().insert(child));
    } else {
        assert(after.dom() =~= m.dom().insert(child));
    }
}

/// The way to an entry that does not lie at or below the placed one stays as it was.
pub proof fn law_placing_keeps_other_lineages(m: Map<u64, EntryView>, entry: EntryView, inode: u64)
    requires
        has_lineage(m, inode),
        !lineage(m, inode).contains(entry.ino()),
    ensures
        has_lineage(placed(m, entry), inode),
        lineage(placed(m, entry), inode) == lineage(m, inode),
        names_along(placed(m, entry), lineage(m, inode)) == names_along(m, lineage(m, inode)),
{
    let after = placed(m, entry);
    let line = lineage(m, inode);
    assert(is_lineage(m, line));
    assert forall|i: int| 0 <= i < line.len() implies after.contains_key(#[trigger] line[i])
        && after[line[i]].parent() == m[line[i]].parent() && after[line[i]].name()
        == m[line[i]].name() by {
        assert(m.contains_key(line[i]));
        assert(line.contains(line[i]));
        law_placing_touches_little(m, entry, line[i]);
    }
    lemma_same_parents_same_lineage(m, after, inode);
    assert(names_along(after, line) =~= names_along(m, line));
}

/// A placed entry has its path below its parent: the parent's path with the entry's name behind it.
pub proof fn law_placed_entry_has_its_path(
    m: Map<u64, EntryView>,
    entry: EntryView,
    parent: u64,
    with_root: bool,
)
    requires
        entry.parent() == Some(parent),
        has_lineage(m, parent),
        !lineage(m, parent).contains(entry.ino()),
    ensures
        ({
            let after = placed(m, entry);
            &&& has_lineage(after, entry.ino())
            &&& lineage(after, entry.ino()) == lineage(m, parent).push(entry.ino())
            &&& names_along(after, lineage(after, entry.ino())) == names_along(
                m,
                lineage(m, parent),
            ).push(entry.name())
            &&& path_to(after, entry.ino(), with_root) == pushed(
                path_to(m, parent, with_root),
                entry.name(),
            )
        }),
{
    let after = placed(m, entry);
    let child = entry.ino();
    let line = lineage(m, parent);
    law_placing_keeps_other_lineages(m, entry, parent);
    law_placing_touches_little(m, entry, parent);
    lemma_lineage_extends(after, line, child);
    let names = names_along(m, line);
    let more = names_along(after, line.push(child));
    assert(names == names_along(after, line));
    assert forall|i: int| 0 <= i < names.len() implies more[i] == names[i] by {
        assert(names_along(after, line)[i] == more[i]);
    }
    assert(more =~= names.push(entry.name()));
    assert(more.drop_last() =~= names);
    assert(more.skip(1).drop_last() =~= names.skip(1));
}

/// Placing an entry other than the root keeps the forest in order.
pub proof fn law_placing_keeps_the_forest(
    m: Map<u64, EntryView>,
    root: u64,
    strays: Seq<u64>,
    entry: EntryView,
    parent: u64,
)
    requires
        is_forest(m, root, strays),
        has_place(m, entry, parent),
        entry.ino() != root,
    ensures
        is_forest(placed(m, entry), root, strays),
{
    let child = entry.ino();
    let more = recorded(strays, child);
    assert(has_lineage(m, parent));
    let line = lineage(m, parent);
    assert(is_lineage(m, line));
    assert(parent != child) by {
        assert(line.contains(line.last()));
    }
    let after = placed(m, entry);
    if m.contains_key(child) {
        let old_parent = m[child].parent();
        let loose = reparented(m, child, old_parent, None);
        let named = refreshed(loose, entry);
        law_detach_keeps_the_forest(m, root, strays, child);
        law_reparent_touches_little(m, child, old_parent, None, child);
        law_refresh_keeps_the_forest(loose, root, more, entry);
        law_reparent_keeps_other_paths(m, child, old_parent, None, parent, true);
        law_reparent_touches_little(m, child, old_parent, None, parent);
        lemma_refreshed_lineage(loose, entry, parent);
        assert(named[parent] == loose[parent]);
        assert forall|i: int|
            0 <= i < named[parent].children().len() implies named[#[trigger] named[parent].children()[i]].name()
            != named[child].name() by {
            let c = named[parent].children()[i];
            assert(named.contains_key(c) && named[c].parent() == Some(parent));
            assert(c != child);
            assert(m[parent].children().contains(c)) by {
                lemma_detached_children(m, child, parent);
                assert(loose[parent].children().contains(c));
            }
            let k = m[parent].children().index_of(c);
            assert(m[m[parent].children()[k]].name() != entry.name());
            law_reparent_touches_little(m, child, old_parent, None, c);
        }
        law_attach_keeps_the_forest(named, root, more, child, parent);
        assert(after =~= reparented(named, child, None, Some(parent)));
    } else {
        let loose = entry.with_parent(None);
        let more_entries = m.insert(child, loose);
        lemma_new_stray(m, root, strays, loose);
        assert forall|i: int| 0 <= i < line.len() implies more_entries.contains_key(
            #[trigger] line[i],
        ) && more_entries[line[i]].parent() == m[line[i]].parent() by {
            assert(m.contains_key(line[i]));
        }
        lemma_same_parents_same_lineage(m, more_entries, parent);
        assert forall|i: int|
            0 <= i < more_entries[parent].children().len() implies more_entries[#[trigger] more_entries[parent].children()[i]].name()
            != more_entries[child].name() by {
            let c = m[parent].children()[i];
            assert(m.contains_key(c));
        }
        law_attach_keeps_the_forest(more_entries, root, more, child, parent);
        assert(loose.with_parent(Some(parent)) == entry);
        assert(after =~= reparented(more_entries, child, None, Some(parent)));
    }
    law_placing_touches_little(m, entry, parent);
    lemma_stray_with_parent(after, root, strays, child);
}

/// What a directory lists once an entry is detached, it listed before.
proof fn lemma_detached_children(m: Map<u64, EntryView>, child: u64, d: u64)
    requires
        m.contains_key(child),
        m.contains_key(d),
        d != child,
    ensures
        forall|c: u64| #[trigger]
            reparented(m, child, m[child].parent(), None)[d].children().contains(c)
                ==> m[d].children().contains(c),
{
    lemma_without_child(m[d].children(), child);
}

/// What is taken out with the orphans is what hangs on one of the candidates.
pub proof fn law_orphans_hang_on_candidates(
    m: Map<u64, EntryView>,
    candidates: Seq<u64>,
    inode: u64,
)
    requires
        downlinked(m),
        uplinked(m),
        has_lineage(m, inode),
    ensures
        orphaned(m, candidates).contains(inode) <==> candidates.contains(lineage(m, inode)[0]),
{
    let line = lineage(m, inode);
    let starts = parentless(m, candidates);
    assert(is_lineage(m, line));
    if orphaned(m, candidates).contains(inode) {
        let trail = choose|trail: Seq<u64>| #[trigger]
            is_trail(m, trail) && starts.contains(trail[0]) && trail.last() == inode;
        assert forall|i: int, j: int|
            #![trigger trail[i], trail[j]]
            0 <= i < trail.len() && j == i + 1 && j < trail.len() implies m[trail[j]].parent()
            == Some(trail[i]) by {
            assert(owns(m, trail[i], trail[j]));
        }
        assert(is_lineage(m, trail));
        law_lineage_is_unique(m, trail, line);
    }
    if candidates.contains(line[0]) {
        assert(m.contains_key(line[0]));
        assert(starts.contains(line[0]));
        assert forall|i: int, j: int|
            #![trigger line[i], line[j]]
            0 <= i && j == i + 1 && j < line.len() implies owns(m, line[i], line[j]) by {
            assert(m[line[j]].parent() == Some(line[i]));
            assert(m.contains_key(line[j]));
        }
        assert(is_trail(m, line));
        assert(m.contains_key(line[line.len() - 1]));
        assert(is_reached(m, starts, inode));
    }
}

/// Taking out the orphans keeps children and parents in agreement.
pub proof fn law_orphan_removal_keeps_links(m: Map<u64, EntryView>, candidates: Seq<u64>)
    requires
        downlinked(m),
        uplinked(m),
    ensures
        downlinked(m.remove_keys(orphaned(m, candidates))),
        uplinked(m.remove_keys(orphaned(m, candidates))),
{
    let gone = orphaned(m, candidates);
    let starts = parentless(m, candidates);
    let after = m.remove_keys(gone);
    assert forall|d: u64, i: int|
        #![trigger after[d].children()[i]]
        after.contains_key(d) && 0 <= i < after[d].children().len() implies after.contains_key(
        after[d].children()[i],
    ) && after[after[d].children()[i]].parent() == Some(d) by {
        let c = m[d].children()[i];
        assert(m.contains_key(c) && m[c].parent() == Some(d));
        law_orphan_removal_spares_what_has_a_parent(m, candidates, c);
    }
    assert forall|c: u64| after.contains_key(c) && #[trigger] after[c].parent() is Some implies (
    after.contains_key(after[c].parent()->0) && after[after[c].parent()->0].children().contains(
        c,
    )) by {
        let p = m[c].parent()->0;
        assert(m.contains_key(p) && m[p].children().contains(c));
        if gone.contains(p) {
            assert(owns(m, p, c));
            lemma_trail_extends(m, starts, p, c);
        }
    }
}

/// What has a parent that stays, stays: though a directory that is taken out may list it.
pub proof fn law_orphan_removal_spares_what_has_a_parent(
    m: Map<u64, EntryView>,
    candidates: Seq<u64>,
    inode: u64,
)
    requires
        m.contains_key(inode),
        m[inode].parent() matches Some(parent) && !orphaned(m, candidates).contains(parent),
    ensures
        m.remove_keys(orphaned(m, candidates)).contains_key(inode),
{
    let starts = parentless(m, candidates);
    if orphaned(m, candidates).contains(inode) {
        let trail = choose|trail: Seq<u64>| #[trigger]
            is_trail(m, trail) && starts.contains(trail[0]) && trail.last() == inode;
        let n = trail.len() as int;
        if n == 1 {
            assert(m[trail[0]].parent() is None);
        } else {
            assert(owns(m, trail[n - 2], trail[n - 1]));
            let upper = trail.drop_last();
            assert forall|i: int| 0 <= i < upper.len() implies m.contains_key(#[trigger] upper[i]) by {
                assert(m.contains_key(trail[i]));
            }
            assert forall|i: int, j: int|
                #![trigger upper[i], upper[j]]
                0 <= i && j == i + 1 && j < upper.len() implies owns(m, upper[i], upper[j]) by {
                assert(owns(m, trail[i], trail[j]));
            }
            assert(is_trail(m, upper));
            assert(m.contains_key(trail[n - 2]));
            assert(is_reached(m, starts, trail[n - 2]));
        }
    }
}

/// Once the orphans are gone there are none left to be taken out.
pub proof fn law_orphan_removal_is_complete(m: Map<u64, EntryView>, candidates: Seq<u64>)
    ensures
        orphaned(m.remove_keys(orphaned(m, candidates)), candidates) == Set::<u64>::empty(),
{
    let after = m.remove_keys(orphaned(m, candidates));
    let gone = orphaned(after, candidates);
    assert forall|k: u64| !gone.contains(k) by {
        if gone.contains(k) {
            let starts = parentless(after, candidates);
            let trail = choose|trail: Seq<u64>| #[trigger]
                is_trail(after, trail) && starts.contains(trail[0]) && trail.last() == k;
            let start = trail[0];
            assert(m.contains_key(start) && m[start].parent() is None);
            let short = seq![start];
            assert(is_trail(m, short));
            assert(parentless(m, candidates).contains(short[0]));
            assert(short.last() == start);
            assert(is_reached(m, parentless(m, candidates), start));
        }
    }
    assert(gone =~= Set::<u64>::empty());
}

/// Taking out the strays of a forest, with all that hangs on them, leaves the tree.
pub proof fn law_orphan_removal_leaves_a_tree(
    m: Map<u64, EntryView>,
    root: u64,
    candidates: Seq<u64>,
)
    requires
        is_forest(m, root, candidates),
        !candidates.contains(root),
    ensures
        is_tree(m.remove_keys(orphaned(m, candidates)), root),
{
    let gone = orphaned(m, candidates);
    let after = m.remove_keys(gone);
    law_orphan_removal_keeps_links(m, candidates);
    let top = seq![root];
    assert(is_lineage(m, top));
    lemma_lineage_is(m, top);
    law_orphans_hang_on_candidates(m, candidates, root);
    assert(after.contains_key(root));
    assert forall|d: u64, i: int, j: int|
        #![trigger after[d].children()[i], after[d].children()[j]]
        after.contains_key(d) && 0 <= i < j < after[d].children().len() implies after[after[d].children()[i]].name()
        != after[after[d].children()[j]].name() by {
        assert(m[m[d].children()[i]].name() != m[m[d].children()[j]].name());
        assert(after.contains_key(after[d].children()[i]));
        assert(after.contains_key(after[d].children()[j]));
    }
    assert forall|c: u64| #[trigger]
        after.contains_key(c) && after[c].parent() is Some implies is_plain_name(after[c].name()) by {
        assert(m.contains_key(c));
    }
    assert forall|c: u64| after.contains_key(c) implies #[trigger] has_lineage(after, c) && lineage(
        after,
        c,
    )[0] == root by {
        assert(has_lineage(m, c));
        law_orphans_hang_on_candidates(m, candidates, c);
        let line = lineage(m, c);
        assert(is_lineage(m, line));
        assert(line[0] == root);
        assert forall|i: int| 0 <= i < line.len() implies after.contains_key(#[trigger] line[i]) by {
            lemma_lineage_prefix(m, line, i + 1);
            lemma_lineage_is(m, line.take(i + 1));
            assert(line.take(i + 1)[0] == line[0]);
            law_orphans_hang_on_candidates(m, candidates, line[i]);
            assert(m.contains_key(line[i]));
        }
        assert(is_lineage(after, line)) by {
            assert forall|i: int, j: int|
                #![trigger line[i], line[j]]
                0 <= i < line.len() && j == i + 1 && j < line.len() implies after[line[j]].parent()
                == Some(line[i]) by {
                assert(m[line[j]].parent() == Some(line[i]));
                assert(after.contains_key(line[j]));
            }
        }
        lemma_lineage_is(after, line);
    }
}

} // verus!
