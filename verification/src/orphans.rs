//! Entries that no longer hang on the tree.
use vstd::prelude::*;
use crate::entry::{Entry, EntryView};
use crate::snapshot::Snapshot;

verus! {

/// Whether a directory lists an entry that has it as its parent.
pub open spec fn owns(m: Map<u64, EntryView>, dir: u64, child: u64) -> bool {
    m[dir].children().contains(child) && m[child].parent() == Some(dir)
}

/// Whether `trail` leads through known entries, from each directory to one that it lists and that
/// has it as its parent.
pub open spec fn is_trail(m: Map<u64, EntryView>, trail: Seq<u64>) -> bool {
    &&& trail.len() > 0
    &&& forall|i: int| 0 <= i < trail.len() ==> m.contains_key(#[trigger] trail[i])
    &&& forall|i: int, j: int|
        #![trigger trail[i], trail[j]]
        0 <= i && j == i + 1 && j < trail.len() ==> owns(m, trail[i], trail[j])
}

/// Whether a trail leads to `inode` from one of `starts`.
pub open spec fn is_reached(m: Map<u64, EntryView>, starts: Set<u64>, inode: u64) -> bool {
    exists|trail: Seq<u64>| #[trigger]
        is_trail(m, trail) && starts.contains(trail[0]) && trail.last() == inode
}

/// Those of `candidates` that are known and have no parent.
pub open spec fn parentless(m: Map<u64, EntryView>, candidates: Seq<u64>) -> Set<u64> {
    m.dom().filter(|inode: u64| candidates.contains(inode) && m[inode].parent() is None)
}

/// Those of `candidates` that have no parent, and everything below them.
pub open spec fn orphaned(m: Map<u64, EntryView>, candidates: Seq<u64>) -> Set<u64> {
    m.dom().filter(|inode: u64| is_reached(m, parentless(m, candidates), inode))
}

/// One more step along a trail.
pub proof fn lemma_trail_extends(
    m: Map<u64, EntryView>,
    starts: Set<u64>,
    inode: u64,
    child: u64,
)
    requires
        is_reached(m, starts, inode),
        owns(m, inode, child),
        m.contains_key(child),
    ensures
        is_reached(m, starts, child),
{
    let trail = choose|trail: Seq<u64>| #[trigger]
        is_trail(m, trail) && starts.contains(trail[0]) && trail.last() == inode;
    let longer = trail.push(child);
    assert forall|i: int| 0 <= i < longer.len() implies m.contains_key(#[trigger] longer[i]) by {
        if i < trail.len() {
            assert(m.contains_key(trail[i]));
        }
    }
    assert forall|i: int, j: int|
        #![trigger longer[i], longer[j]]
        0 <= i && j == i + 1 && j < longer.len() implies owns(m, longer[i], longer[j]) by {
        if j < trail.len() {
            assert(owns(m, trail[i], trail[j]));
        }
    }
    assert(is_trail(m, longer));
}

/// An entry is reached from itself.
proof fn lemma_trail_starts(m: Map<u64, EntryView>, starts: Set<u64>, inode: u64)
    requires
        starts.contains(inode),
        m.contains_key(inode),
    ensures
        is_reached(m, starts, inode),
{
    let trail = seq![inode];
    assert(is_trail(m, trail));
    assert(trail.last() == inode);
}

/// A set that holds the starts, and with a directory all the known entries that it owns, holds all
/// that is reached.
pub proof fn lemma_closed_set_holds_trail(
    m: Map<u64, EntryView>,
    held: Set<u64>,
    trail: Seq<u64>,
)
    requires
        is_trail(m, trail),
        held.contains(trail[0]),
        forall|a: u64, b: u64|
            held.contains(a) && #[trigger] owns(m, a, b) && m.contains_key(b) ==> held.contains(b),
    ensures
        held.contains(trail.last()),
    decreases trail.len(),
{
    if trail.len() > 1 {
        let shorter = trail.drop_last();
        assert forall|i: int| 0 <= i < shorter.len() implies m.contains_key(
            #[trigger] shorter[i],
        ) by {
            assert(m.contains_key(trail[i]));
        }
        assert forall|i: int, j: int|
            #![trigger shorter[i], shorter[j]]
            0 <= i && j == i + 1 && j < shorter.len() implies owns(m, shorter[i], shorter[j]) by {
            assert(owns(m, trail[i], trail[j]));
        }
        lemma_closed_set_holds_trail(m, held, shorter);
        let last = trail.len() - 1;
        assert(owns(m, trail[last - 1], trail[last]));
    }
}

impl Snapshot {
    /// Takes out those of `candidates` that have no parent, and everything below them. What has
    /// found a parent elsewhere stays, though a directory that goes may still list it.
    pub fn remove_orphans(&mut self, candidates: &Vec<u64>)
        ensures
            final(self)@ == old(self)@.with_entries(
                old(self)@.entries.remove_keys(orphaned(old(self)@.entries, candidates@)),
            ),
    {
        let ghost m = self@.entries;
        let ghost starts = parentless(m, candidates@);
        let ghost before = self@;
        let mut stack: Vec<u64> = Vec::new();
        let mut n: usize = 0;
        // Taking entries out comes to an end, since there are finitely many.
        let _ = self.entries.len();
        while n < candidates.len()
            invariant
                m == self@.entries,
                before == self@,
                starts == parentless(m, candidates@),
                n <= candidates@.len(),
                forall|s: u64| #[trigger] stack@.contains(s) ==> starts.contains(s),
                forall|k: int|
                    0 <= k < n && starts.contains(#[trigger] candidates@[k]) ==> stack@.contains(
                        candidates@[k],
                    ),
            decreases candidates@.len() - n,
        {
            let inode: u64 = candidates[n];
            let ghost prior = stack@;
            let mut is_orphan = false;
            if let Some(entry) = self.entries.get(inode) {
                if entry.parent().is_none() {
                    is_orphan = true;
                }
            }
            if is_orphan {
                stack.push(inode);
                proof {
                    lemma_push_contains(prior, inode);
                    assert(candidates@.contains(candidates@[n as int]));
                    assert(starts.contains(inode));
                }
            }
            n = n + 1;
        }
        let ghost mut gone: Set<u64> = Set::empty();
        assert(m.remove_keys(gone) =~= m);
        assert forall|s: u64| #[trigger] starts.contains(s) implies stack@.contains(s) by {
            let k = candidates@.index_of(s);
            assert(candidates@[k] == s);
        }
        assert forall|s: u64| #[trigger] stack@.contains(s) implies is_reached(m, starts, s) by {
            lemma_trail_starts(m, starts, s);
        }
        while stack.len() > 0
            invariant
                starts == parentless(m, candidates@),
                self@ == before.with_entries(m.remove_keys(gone)),
                before.entries == m,
                m.dom().finite(),
                forall|g: u64| #[trigger] gone.contains(g) ==> is_reached(m, starts, g),
                forall|s: u64| #[trigger]
                    stack@.contains(s) ==> m.contains_key(s) && is_reached(m, starts, s),
                forall|s: u64| #[trigger]
                    starts.contains(s) ==> gone.contains(s) || stack@.contains(s),
                forall|a: u64, b: u64|
                    gone.contains(a) && #[trigger] owns(m, a, b) && m.contains_key(b)
                        ==> gone.contains(b) || stack@.contains(b),
            decreases self@.entries.dom().len(), stack@.len(),
        {
            let ghost full = stack@;
            let inode: u64 = match stack.pop() {
                Some(inode) => inode,
                None => {
                    return;
                },
            };
            let ghost rest = stack@;
            let ghost entries = self@.entries;
            assert(full =~= rest.push(inode));
            proof {
                lemma_push_contains(rest, inode);
                assert(full.contains(inode));
                assert(entries.dom() =~= m.dom().difference(gone));
            }
            let removed = self.entries.remove(inode);
            if let Some(entry) = removed {
                proof {
                    gone = gone.insert(inode);
                    assert(entries.remove(inode) =~= m.remove_keys(gone));
                }
                if let Entry::Dir { children, .. } = entry {
                    assert(children@ == m[inode].children());
                    let mut i: usize = 0;
                    while i < children.len()
                        invariant
                            children@ == m[inode].children(),
                            m.contains_key(inode),
                            gone.contains(inode),
                            is_reached(m, starts, inode),
                            self@ == before.with_entries(m.remove_keys(gone)),
                            before.entries == m,
                            i <= children@.len(),
                            forall|s: u64| #[trigger] rest.contains(s) ==> stack@.contains(s),
                            forall|s: u64| #[trigger]
                                stack@.contains(s) ==> m.contains_key(s) && is_reached(
                                    m,
                                    starts,
                                    s,
                                ),
                            forall|j: int|
                                0 <= j < i && owns(m, inode, #[trigger] children@[j])
                                    && m.contains_key(children@[j]) ==> gone.contains(children@[j])
                                    || stack@.contains(children@[j]),
                        decreases children@.len() - i,
                    {
                        let child: u64 = children[i];
                        let ghost prior = stack@;
                        let mut is_owned = false;
                        if let Some(entry) = self.entries.get(child) {
                            if let Some(parent) = entry.parent() {
                                if parent == inode {
                                    is_owned = true;
                                }
                            }
                        }
                        if is_owned {
                            stack.push(child);
                            proof {
                                lemma_push_contains(prior, child);
                                assert(children@.contains(children@[i as int]));
                                assert(owns(m, inode, child));
                                lemma_trail_extends(m, starts, inode, child);
                            }
                        }
                        i = i + 1;
                    }
                    assert forall|b: u64| #[trigger] owns(m, inode, b) && m.contains_key(
                        b,
                    ) implies gone.contains(b) || stack@.contains(b) by {
                        let j = children@.index_of(b);
                        assert(children@[j] == b);
                    }
                }
            } else {
                assert(entries.remove(inode) =~= entries);
                assert(gone.contains(inode));
            }
            assert(forall|s: u64| full.contains(s) ==> s == inode || rest.contains(s));
            assert(forall|s: u64| rest.contains(s) ==> stack@.contains(s));
        }
        assert forall|k: u64| orphaned(m, candidates@).contains(k) implies gone.contains(k) by {
            let trail = choose|trail: Seq<u64>| #[trigger]
                is_trail(m, trail) && starts.contains(trail[0]) && trail.last() == k;
            lemma_closed_set_holds_trail(m, gone, trail);
        }
        assert(m.remove_keys(gone) =~= m.remove_keys(orphaned(m, candidates@)));
    }
}

/// Which entries are orphaned: a candidate that is known and has no parent is, and so is what a
/// directory that is orphaned lists and is the parent of. Whatever is orphaned is so for one of
/// these reasons.
pub proof fn law_orphans_pull_along_what_they_list(
    m: Map<u64, EntryView>,
    candidates: Seq<u64>,
    dir: u64,
    inode: u64,
)
    ensures
        m.contains_key(inode) && m[inode].parent() is None ==> (orphaned(m, candidates).contains(inode)
            <==> candidates.contains(inode)),
        m.contains_key(inode) && m[inode].parent() == Some(dir) ==> (orphaned(m, candidates).contains(
            inode,
        ) <==> orphaned(m, candidates).contains(dir) && m[dir].children().contains(inode)),
        !m.contains_key(inode) ==> !orphaned(m, candidates).contains(inode),
{
    let starts = parentless(m, candidates);
    let all = orphaned(m, candidates);
    if m.contains_key(inode) && candidates.contains(inode) && m[inode].parent() is None {
        lemma_trail_starts(m, starts, inode);
    }
    if all.contains(inode) {
        let trail = choose|trail: Seq<u64>| #[trigger]
            is_trail(m, trail) && starts.contains(trail[0]) && trail.last() == inode;
        let n = trail.len() as int;
        if n > 1 {
            assert(owns(m, trail[n - 2], trail[n - 1]));
            let shorter = trail.drop_last();
            assert forall|i: int| 0 <= i < shorter.len() implies m.contains_key(
                #[trigger] shorter[i],
            ) by {
                assert(m.contains_key(trail[i]));
            }
            assert forall|i: int, j: int|
                #![trigger shorter[i], shorter[j]]
                0 <= i && j == i + 1 && j < shorter.len() implies owns(m, shorter[i], shorter[j]) by {
                assert(owns(m, trail[i], trail[j]));
            }
            assert(is_trail(m, shorter));
            assert(shorter[0] == trail[0]);
            assert(m.contains_key(trail[n - 2]));
            assert(is_reached(m, starts, trail[n - 2]));
        }
    }
    if m.contains_key(inode) && m[inode].parent() == Some(dir) && all.contains(dir)
        && m[dir].children().contains(inode) {
        assert(owns(m, dir, inode));
        lemma_trail_extends(m, starts, dir, inode);
    }
}

/// What a list holds once something has been added to it.
proof fn lemma_push_contains(s: Seq<u64>, x: u64)
    ensures
        forall|y: u64| #[trigger] s.push(x).contains(y) ==> s.contains(y) || y == x,
        forall|y: u64| #[trigger] s.contains(y) ==> s.push(x).contains(y),
        s.push(x).contains(x),
{
    assert(s.push(x)[s.len() as int] == x);
    assert forall|y: u64| #[trigger] s.contains(y) implies s.push(x).contains(y) by {
        let i = s.index_of(y);
        assert(s.push(x)[i] == y);
    }
}

} // verus!
