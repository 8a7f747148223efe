//! What holds of a worktree as a whole: of its paths, its text and its polling.
use vstd::prelude::*;
use crate::entry::EntryView;
use crate::error::WorktreeError;
use crate::lineage::law_lineage_is_bounded;
use crate::path::{
    components, is_absolute_path, path_of, path_starts_with, pushed, relative_to, DOT, SEPARATOR,
};
use crate::path_laws::{
    is_plain_name, law_push_appends_components, law_push_stays_below,
    law_strip_prefix_drops_components, opens_with_dot,
};
use crate::render::{can_write_out, fits, rendered, rendered_all};
use crate::snapshot::{has_lineage, is_lineage, lineage, names_along, path_to, SnapshotView};
use crate::tree_laws::{downlinked, is_tree, law_path_leads_to_its_inode, lemma_lineage_extends};
use crate::worktree::{SavePlan, ScanState, Worktree, WorktreeHandle, WorktreeView};

verus! {

/// A path made of plain names is relative, and does not open with `.`.
proof fn lemma_path_of_plain_names(names: Seq<Seq<u8>>)
    requires
        forall|i: int| 0 <= i < names.len() ==> is_plain_name(#[trigger] names[i]),
    ensures
        !is_absolute_path(path_of(names)),
        !opens_with_dot(path_of(names)),
        names.len() > 0 ==> path_of(names).len() > 0,
    decreases names.len(),
{
    if names.len() > 0 {
        let front = names.drop_last();
        let last = names[names.len() - 1];
        assert forall|i: int| 0 <= i < front.len() implies is_plain_name(#[trigger] front[i]) by {
            assert(front[i] == names[i]);
        }
        lemma_path_of_plain_names(front);
        assert(is_plain_name(last));
        assert forall|i: int| 0 <= i < last.len() implies last[i] != SEPARATOR by {
            assert(last.contains(last[i]));
        }
        let p = path_of(front);
        let whole = path_of(names);
        assert(whole == pushed(p, last));
        if front.len() == 0 {
            assert(whole =~= last);
            if last.len() == 1 {
                assert(last[0] != DOT) by {
                    if last[0] == DOT {
                        assert(last =~= seq![DOT]);
                    }
                }
            }
        } else {
            assert(whole[0] == p[0]);
            if p.len() > 1 {
                assert(whole[1] == p[1]);
            } else if p.last() != SEPARATOR {
                assert(whole[1] == SEPARATOR);
                assert(p[0] != DOT);
            }
        }
    }
}

/// The path of an entry on the file system lies in the worktree, and leads back to the entry: seen
/// from the root, it is the entry's path in the tree.
pub proof fn law_absolute_path_leads_back(s: SnapshotView, inode: u64)
    requires
        s.root_inode matches Some(root) && is_tree(s.entries, root),
        s.entries.contains_key(inode),
    ensures
        ({
            let path = pushed(s.path, path_to(s.entries, inode, false));
            &&& path_starts_with(path, s.path)
            &&& relative_to(path, s.path) is Some
            &&& components(relative_to(path, s.path)->0) == components(
                path_to(s.entries, inode, false),
            )
            &&& s.inode_at(relative_to(path, s.path)->0) == Some(inode)
        }),
{
    let m = s.entries;
    assert(has_lineage(m, inode));
    let line = lineage(m, inode);
    let names = names_along(m, line).skip(1);
    assert forall|i: int| 0 <= i < names.len() implies is_plain_name(#[trigger] names[i]) by {
        assert(m[line[i + 1]].parent() == Some(line[i]));
        assert(m.contains_key(line[i + 1]));
    }
    let own = path_to(m, inode, false);
    lemma_path_of_plain_names(names);
    law_push_appends_components(s.path, own);
    let path = pushed(s.path, own);
    assert(components(s.path).is_prefix_of(components(path)));
    law_strip_prefix_drops_components(path, s.path);
    assert(components(path).skip(components(s.path).len() as int) =~= components(own));
    law_path_leads_to_its_inode(s, inode);
}

/// A path built from names of which none is absolute is not absolute.
proof fn lemma_path_of_relative_names(names: Seq<Seq<u8>>)
    requires
        forall|i: int| 0 <= i < names.len() ==> !is_absolute_path(#[trigger] names[i]),
    ensures
        !is_absolute_path(path_of(names)),
    decreases names.len(),
{
    if names.len() > 0 {
        let front = names.drop_last();
        let last = names[names.len() - 1];
        assert forall|i: int| 0 <= i < front.len() implies !is_absolute_path(
            #[trigger] front[i],
        ) by {
            assert(front[i] == names[i]);
        }
        lemma_path_of_relative_names(front);
        let p = path_of(front);
        assert(!is_absolute_path(last));
        assert(path_of(names) == pushed(p, last));
        if p.len() > 0 {
            assert(path_of(names)[0] == p[0]);
        } else {
            assert(path_of(names) =~= last);
        }
    }
}

/// The path of an entry on the file system lies in the worktree, and that of the root is the
/// worktree's own, whatever the names are, as long as none below the root is absolute.
pub proof fn law_absolute_path_lies_in_the_worktree(s: SnapshotView, inode: u64)
    requires
        has_lineage(s.entries, inode),
        forall|i: int|
            0 < i < lineage(s.entries, inode).len() ==> !is_absolute_path(
                s.entries[#[trigger] lineage(s.entries, inode)[i]].name(),
            ),
    ensures
        path_starts_with(pushed(s.path, path_to(s.entries, inode, false)), s.path),
        s.entries[inode].parent() is None ==> components(
            pushed(s.path, path_to(s.entries, inode, false)),
        ) == components(s.path),
{
    let m = s.entries;
    let line = lineage(m, inode);
    assert(is_lineage(m, line));
    let names = names_along(m, line).skip(1);
    assert forall|i: int| 0 <= i < names.len() implies !is_absolute_path(#[trigger] names[i]) by {
        assert(names[i] == m[line[i + 1]].name());
    }
    lemma_path_of_relative_names(names);
    law_push_stays_below(s.path, path_to(m, inode, false));
    if m[inode].parent() is None {
        if line.len() > 1 {
            let n = line.len() as int;
            assert(m[line[n - 1]].parent() == Some(line[n - 2]));
        }
        assert(names.len() == 0);
    }
}

/// In a tree, the path of every inode can be told.
pub proof fn law_every_entry_of_a_tree_has_a_path(w: WorktreeView, inode: u64)
    requires
        w.snapshot.root_inode matches Some(root) && is_tree(w.snapshot.entries, root),
    ensures
        w.has_path(inode),
{
    if w.snapshot.entries.contains_key(inode) {
        assert(has_lineage(w.snapshot.entries, inode));
    }
}

/// What ends after some levels ends after more.
pub proof fn lemma_fits_more(m: Map<u64, EntryView>, inode: u64, depth: nat, more: nat)
    requires
        fits(m, inode, depth),
        depth <= more,
    ensures
        fits(m, inode, more),
    decreases depth,
{
    assert forall|i: int| 0 <= i < m[inode].children().len() implies fits(
        m,
        #[trigger] m[inode].children()[i],
        (more - 1) as nat,
    ) by {
        lemma_fits_more(m, m[inode].children()[i], (depth - 1) as nat, (more - 1) as nat);
    }
}

/// As many known entries as there are levels.
proof fn lemma_levels_hold_entries(m: Map<u64, EntryView>, inode: u64, depth: nat) -> (held: Set<u64>)
    requires
        fits(m, inode, depth),
        depth == 1 || !fits(m, inode, (depth - 1) as nat),
    ensures
        held.finite(),
        held.len() == depth,
        held.subset_of(m.dom()),
        forall|k: u64| #[trigger] held.contains(k) ==> fits(m, k, depth),
    decreases depth,
{
    if depth == 1 {
        set![inode]
    } else {
        let less = (depth - 1) as nat;
        let i = choose|i: int|
            0 <= i < m[inode].children().len() && !fits(
                m,
                #[trigger] m[inode].children()[i],
                (less - 1) as nat,
            );
        let child = m[inode].children()[i];
        assert(fits(m, child, less));
        let below = lemma_levels_hold_entries(m, child, less);
        assert(!below.contains(inode));
        let held = below.insert(inode);
        assert forall|k: u64| #[trigger] held.contains(k) implies fits(m, k, depth) by {
            if k != inode {
                assert(below.contains(k));
                lemma_fits_more(m, k, less, depth);
            }
        }
        held
    }
}

/// Where the entries below an inode end after any number of levels, they end after as many levels
/// as there are entries: the test for what can be written out leaves out nothing.
pub proof fn law_levels_are_bounded(m: Map<u64, EntryView>, inode: u64, depth: nat)
    requires
        m.dom().finite(),
        fits(m, inode, depth),
    ensures
        can_write_out(m, inode),
    decreases depth,
{
    if depth > 1 && fits(m, inode, (depth - 1) as nat) {
        law_levels_are_bounded(m, inode, (depth - 1) as nat);
    } else {
        let held = lemma_levels_hold_entries(m, inode, depth);
        vstd::set_lib::lemma_len_subset(held, m.dom());
        lemma_fits_more(m, inode, depth, m.dom().len());
    }
}

/// The text of what can be written out does not depend on how many more levels are allowed for.
pub proof fn law_text_needs_no_more_levels(
    m: Map<u64, EntryView>,
    inode: u64,
    indent: nat,
    depth: nat,
    more: nat,
)
    requires
        fits(m, inode, depth),
        depth <= more,
    ensures
        rendered(m, inode, indent, more) == rendered(m, inode, indent, depth),
    decreases depth, 0nat,
{
    let children = m[inode].children();
    assert forall|i: int| 0 <= i < children.len() implies fits(
        m,
        #[trigger] children[i],
        (depth - 1) as nat,
    ) by {
        assert(fits(m, m[inode].children()[i], (depth - 1) as nat));
    }
    lemma_texts_need_no_more_levels(
        m,
        children,
        indent + 2,
        (depth - 1) as nat,
        (more - 1) as nat,
    );
}

proof fn lemma_texts_need_no_more_levels(
    m: Map<u64, EntryView>,
    inodes: Seq<u64>,
    indent: nat,
    depth: nat,
    more: nat,
)
    requires
        forall|i: int| 0 <= i < inodes.len() ==> fits(m, #[trigger] inodes[i], depth),
        depth <= more,
    ensures
        rendered_all(m, inodes, indent, more) == rendered_all(m, inodes, indent, depth),
    decreases depth, inodes.len(),
{
    if inodes.len() > 0 {
        let front = inodes.drop_last();
        assert forall|i: int| 0 <= i < front.len() implies fits(m, #[trigger] front[i], depth) by {
            assert(front[i] == inodes[i]);
        }
        lemma_texts_need_no_more_levels(m, front, indent, depth, more);
        assert(fits(m, inodes[inodes.len() - 1], depth));
        law_text_needs_no_more_levels(m, inodes.last(), indent, depth, more);
    }
}

/// What lies below an entry ends after as many levels as its lineage leaves.
proof fn lemma_tree_fits(m: Map<u64, EntryView>, inode: u64, depth: nat)
    requires
        m.dom().finite(),
        downlinked(m),
        has_lineage(m, inode),
        depth + lineage(m, inode).len() == m.dom().len() + 1,
    ensures
        fits(m, inode, depth),
    decreases depth,
{
    let line = lineage(m, inode);
    assert(is_lineage(m, line));
    law_lineage_is_bounded(m, line);
    assert(m.contains_key(line[line.len() - 1]));
    assert forall|i: int| 0 <= i < m[inode].children().len() implies fits(
        m,
        #[trigger] m[inode].children()[i],
        (depth - 1) as nat,
    ) by {
        let c = m[inode].children()[i];
        assert(m.contains_key(c) && m[c].parent() == Some(inode));
        lemma_lineage_extends(m, line, c);
        law_lineage_is_bounded(m, line.push(c));
        lemma_tree_fits(m, c, (depth - 1) as nat);
    }
}

/// A tree can be written out, from every entry on.
pub proof fn law_tree_can_be_written_out(m: Map<u64, EntryView>, root: u64, inode: u64)
    requires
        m.dom().finite(),
        is_tree(m, root),
        m.contains_key(inode),
    ensures
        can_write_out(m, inode),
{
    assert(has_lineage(m, inode));
    let line = lineage(m, inode);
    assert(is_lineage(m, line));
    law_lineage_is_bounded(m, line);
    let depth = (m.dom().len() + 1 - line.len()) as nat;
    lemma_tree_fits(m, inode, depth);
    lemma_fits_more(m, inode, depth, m.dom().len());
}

/// Polling goes on for as long as the scanner is at work: after a poll one more is on its way if
/// and only if one was on its way before or the scanner is scanning, and it is put on its way at
/// most once.
pub proof fn law_polling_goes_on_while_scanning(w: WorktreeView, latest: SnapshotView)
    ensures
        w.scanning() ==> w.polled(latest).poll_scheduled,
        w.due().polled(latest).poll_scheduled == w.scanning(),
        !w.polled(latest).needs_poll(),
        w.polled(latest).snapshot == latest,
        w.polled(latest).polled(latest) == w.polled(latest),
{
}

/// What the worktree is told and what it polls change just that: being told changes how far the
/// scanner is, a poll that is due is on its way no more, and polling brings what the scanner has
/// found, with another poll on its way where one was or where the scanner scans.
pub proof fn law_worktree_takes_note(w: WorktreeView, state: ScanState, latest: SnapshotView)
    ensures
        w.scanning() <==> w.scan_state == ScanState::Scanning,
        w.told(state).scan_state == state,
        w.told(state).snapshot == w.snapshot,
        w.told(state).poll_scheduled == w.poll_scheduled,
        !w.due().poll_scheduled,
        w.due().snapshot == w.snapshot,
        w.due().scan_state == w.scan_state,
        w.polled(latest).snapshot == latest,
        w.polled(latest).scan_state == w.scan_state,
        w.polled(latest).poll_scheduled <==> w.poll_scheduled || w.scan_state is Scanning,
        w.needs_poll() <==> w.scan_state is Scanning && !w.poll_scheduled,
{
}

/// A worktree and a snapshot stand for what their fields hold.
pub proof fn law_worktree_stands_for_its_fields(w: Worktree)
    ensures
        w@.scan_state == w.scan_state,
        w@.poll_scheduled == w.poll_scheduled,
        w@.snapshot.id == w.snapshot.id,
        w@.snapshot.path == w.snapshot.path.bytes@,
        w@.snapshot.root_inode == w.snapshot.root_inode,
        w@.snapshot.entries == w.snapshot.entries@,
{
}

/// A path can be told of an inode unless it is known and its parents lead nowhere. A worktree hands
/// out files under its own id, and those that it holds.
pub proof fn law_paths_can_be_told(w: Worktree, inode: u64)
    ensures
        w@.has_path(inode) <==> !w@.snapshot.entries.contains_key(inode) || has_lineage(
            w@.snapshot.entries,
            inode,
        ),
        w.worktree_id() == w@.snapshot.id,
        w.holds(inode) <==> w@.snapshot.entries.contains_key(inode),
{
}

/// A file is written through a buffer as large as its text, but of ten kibibytes at most, to the
/// tree's path with the path of the file behind it; what is not known is not written.
pub proof fn law_buffer_is_bounded(
    w: Worktree,
    inode: u64,
    content_size: usize,
    plan: Result<SavePlan, WorktreeError>,
)
    requires
        w@.has_path(inode),
        call_ensures(Worktree::save, (&w, inode, content_size), plan),
    ensures
        plan is Ok <==> w@.snapshot.entries.contains_key(inode),
        plan matches Ok(plan) ==> {
            &&& plan.buffer_size <= content_size
            &&& plan.buffer_size <= 10 * 1024
            &&& plan.buffer_size == content_size || plan.buffer_size == 10 * 1024
            &&& plan.path@ == pushed(
                w@.snapshot.path,
                path_to(w@.snapshot.entries, inode, false),
            )
        },
        plan matches Err(error) ==> error == WorktreeError::NotInWorktree,
{
}

} // verus!
