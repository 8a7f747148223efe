//! The entries of a snapshot, kept in the order of their inodes.
use std::collections::BTreeMap;
use vstd::prelude::*;
use crate::entry::{Entry, EntrySummary, EntryView};

verus! {

/// What a list of entries stands for.
pub open spec fn entry_views(entries: Seq<Entry>) -> Seq<EntryView> {
    Seq::new(entries.len(), |i: int| entries[i]@)
}

/// The inodes of the files in `m`.
pub open spec fn file_inodes(m: Map<u64, EntryView>) -> Set<u64> {
    m.dom().filter(|inode: u64| m[inode] is File)
}

/// Whether `s` rises.
pub open spec fn rising(s: Seq<u64>) -> bool {
    forall|i: int, j: int| 0 <= i < j < s.len() ==> s[i] < s[j]
}

/// Whether every entry of `m` is found by its own inode.
pub open spec fn keyed_by_inode(m: Map<u64, EntryView>) -> bool {
    forall|inode: u64| #[trigger] m.contains_key(inode) ==> m[inode].ino() == inode
}

/// What a map of entries stands for.
pub open spec fn map_views(items: Map<u64, Entry>) -> Map<u64, EntryView> {
    Map::new(|inode: u64| items.contains_key(inode), |inode: u64| items[inode]@)
}

/// Entries by inode. Every entry is found by its own inode.
pub struct EntryTree {
    items: BTreeMap<u64, Entry>,
}

impl View for EntryTree {
    type V = Map<u64, EntryView>;

    closed spec fn view(&self) -> Map<u64, EntryView> {
        map_views(self.items@)
    }
}

impl Clone for EntryTree {
    fn clone(&self) -> (copy: Self)
        ensures
            copy@ == self@,
    {
        proof {
            use_type_invariant(self);
        }
        EntryTree { items: self.items.clone() }
    }
}

impl EntryTree {
    #[verifier::type_invariant]
    spec fn well_keyed(self) -> bool {
        keyed_by_inode(map_views(self.items@))
    }

    /// A tree without entries.
    pub fn new() -> (tree: Self)
        ensures
            tree@ == Map::<u64, EntryView>::empty(),
    {
        let tree = EntryTree { items: BTreeMap::new() };
        assert(tree@ =~= Map::<u64, EntryView>::empty());
        tree
    }

    /// How many entries there are.
    pub fn len(&self) -> (len: usize)
        ensures
            len == self@.len(),
            self@.dom().finite(),
            keyed_by_inode(self@),
    {
        proof {
            use_type_invariant(self);
        }
        assert(self@.dom() =~= self.items@.dom());
        self.items.len()
    }

    /// The entry of an inode.
    pub fn get(&self, inode: u64) -> (entry: Option<&Entry>)
        ensures
            match entry {
                Some(entry) => self@.contains_key(inode) && self@[inode] == entry@,
                None => !self@.contains_key(inode),
            },
            keyed_by_inode(self@),
    {
        proof {
            use_type_invariant(self);
        }
        self.items.get(&inode)
    }

    /// Takes out the entry of an inode.
    pub fn remove(&mut self, inode: u64) -> (removed: Option<Entry>)
        ensures
            final(self)@ == old(self)@.remove(inode),
            keyed_by_inode(old(self)@),
            match removed {
                Some(entry) => old(self)@.contains_key(inode) && old(self)@[inode] == entry@,
                None => !old(self)@.contains_key(inode),
            },
    {
        proof {
            use_type_invariant(&*self);
        }
        let mut items: BTreeMap<u64, Entry> = BTreeMap::new();
        std::mem::swap(&mut self.items, &mut items);
        let removed = items.remove(&inode);
        assert(map_views(items@) =~= old(self)@.remove(inode));
        self.items = items;
        removed
    }

    /// Puts `entry` in, in place of what its inode had before.
    pub fn insert(&mut self, entry: Entry)
        ensures
            final(self)@ == old(self)@.insert(entry@.ino(), entry@),
            keyed_by_inode(old(self)@),
    {
        proof {
            use_type_invariant(&*self);
        }
        let mut items: BTreeMap<u64, Entry> = BTreeMap::new();
        std::mem::swap(&mut self.items, &mut items);
        let key: u64 = entry.key();
        let ghost added = entry@;
        let _ = items.insert(key, entry);
        assert(map_views(items@) =~= old(self)@.insert(added.ino(), added));
        self.items = items;
    }

    /// The entries, in the order of their inodes.
    fn in_order(&self) -> (entries: Vec<&Entry>)
        ensures
            forall|i: int, j: int|
                #![trigger entries@[i], entries@[j]]
                0 <= i < j < entries@.len() ==> entries@[i]@.ino() < entries@[j]@.ino(),
            forall|i: int|
                0 <= i < entries@.len() ==> self@.contains_key((#[trigger] entries@[i])@.ino())
                    && self@[entries@[i]@.ino()] == entries@[i]@,
            forall|inode: u64| #[trigger]
                self@.contains_key(inode) ==> exists|i: int|
                    0 <= i < entries@.len() && (#[trigger] entries@[i])@.ino() == inode,
    {
        proof {
            use_type_invariant(self);
        }
        let ghost m = self@;
        let mut entries: Vec<&Entry> = Vec::new();
        let items = self.items.iter();
        let ghost found = vstd::std_specs::iter::IteratorSpec::remaining(&items);
        proof {
            let keys = found.map_values(|kv: (&u64, &Entry)| *kv.0);
            assert(vstd::std_specs::btree::increasing_seq(keys));
            assert forall|i: int, j: int|
                #![trigger found[i], found[j]]
                0 <= i < j < found.len() implies *found[i].0 < *found[j].0 by {
                assert(vstd::std_specs::cmp::OrdSpec::cmp_spec(&keys[i], &keys[j]) is Less);
            }
        }
        for (inode, entry) in iter: items
            invariant
                iter.seq() == found,
                m == map_views(self.items@),
                keyed_by_inode(m),
                forall|i: int|
                    0 <= i < found.len() ==> m.contains_key(*(#[trigger] found[i]).0)
                        && m[*found[i].0] == found[i].1@,
                entries@.len() == iter.index(),
                forall|i: int|
                    0 <= i < entries@.len() ==> (#[trigger] entries@[i])@ == found[i].1@,
        {
            entries.push(entry);
        }
        assert forall|i: int| 0 <= i < entries@.len() implies self@.contains_key(
            (#[trigger] entries@[i])@.ino(),
        ) && self@[entries@[i]@.ino()] == entries@[i]@ && entries@[i]@.ino() == *found[i].0 by {
            assert(m.contains_key(*found[i].0));
        }
        assert forall|inode: u64| #[trigger] self@.contains_key(inode) implies exists|i: int|
            0 <= i < entries@.len() && (#[trigger] entries@[i])@.ino() == inode by {
            assert(found.contains((&inode, &self.items@[inode])));
            let i = found.index_of((&inode, &self.items@[inode]));
            assert(entries@[i]@.ino() == inode);
        }
        entries
    }

    /// The inodes of the files, in rising order.
    pub fn files(&self) -> (files: Vec<u64>)
        ensures
            rising(files@),
            files@.to_set() == file_inodes(self@),
    {
        let ghost m = self@;
        let entries = self.in_order();
        let mut files: Vec<u64> = Vec::new();
        let mut n: usize = 0;
        while n < entries.len()
            invariant
                n <= entries@.len(),
                forall|i: int, j: int|
                    #![trigger entries@[i], entries@[j]]
                    0 <= i < j < entries@.len() ==> entries@[i]@.ino() < entries@[j]@.ino(),
                forall|i: int|
                    0 <= i < entries@.len() ==> m.contains_key((#[trigger] entries@[i])@.ino())
                        && m[entries@[i]@.ino()] == entries@[i]@,
                rising(files@),
                forall|i: int|
                    0 <= i < files@.len() ==> file_inodes(m).contains(#[trigger] files@[i]),
                forall|i: int, j: int|
                    #![trigger files@[i], entries@[j]]
                    0 <= i < files@.len() && n <= j < entries@.len() ==> files@[i]
                        < entries@[j]@.ino(),
                forall|j: int|
                    0 <= j < n && (#[trigger] entries@[j])@ is File ==> files@.contains(
                        entries@[j]@.ino(),
                    ),
            decreases entries@.len() - n,
        {
            let ghost prior = files@;
            let entry = entries[n];
            if entry.is_file() {
                let inode: u64 = entry.ino();
                files.push(inode);
                assert(files@[files@.len() - 1] == inode);
                assert forall|k: u64| prior.contains(k) implies files@.contains(k) by {
                    let i = prior.index_of(k);
                    assert(files@[i] == k);
                }
            }
            n = n + 1;
        }
        assert forall|inode: u64| file_inodes(m).contains(inode) implies files@.contains(inode) by {
            assert(m.contains_key(inode));
            let i = choose|i: int|
                0 <= i < entries@.len() && (#[trigger] entries@[i])@.ino() == inode;
            assert(entries@[i]@ is File);
        }
        assert(files@.to_set() =~= file_inodes(self@));
        files
    }

    /// What is known of all entries taken together.
    pub fn summary(&self) -> (summary: EntrySummary)
        ensures
            summary.file_count == file_inodes(self@).len(),
            self@.dom().is_empty() ==> summary.max_ino == 0,
            !self@.dom().is_empty() ==> self@.contains_key(summary.max_ino),
            forall|inode: u64| #[trigger] self@.contains_key(inode) ==> inode <= summary.max_ino,
    {
        let ghost m = self@;
        let entries = self.in_order();
        let mut summary = EntrySummary::default();
        let mut n: usize = 0;
        let ghost mut seen: Set<u64> = Set::empty();
        while n < entries.len()
            invariant
                n <= entries@.len(),
                forall|i: int, j: int|
                    #![trigger entries@[i], entries@[j]]
                    0 <= i < j < entries@.len() ==> entries@[i]@.ino() < entries@[j]@.ino(),
                forall|i: int|
                    0 <= i < entries@.len() ==> m.contains_key((#[trigger] entries@[i])@.ino())
                        && m[entries@[i]@.ino()] == entries@[i]@,
                seen.finite(),
                summary.file_count == seen.len(),
                summary.file_count <= n,
                forall|k: u64| seen.contains(k) ==> file_inodes(m).contains(k),
                forall|k: u64, j: int|
                    #![trigger seen.contains(k), entries@[j]]
                    seen.contains(k) && n <= j < entries@.len() ==> k < entries@[j]@.ino(),
                forall|j: int|
                    0 <= j < n && (#[trigger] entries@[j])@ is File ==> seen.contains(
                        entries@[j]@.ino(),
                    ),
                n == 0 ==> summary.max_ino == 0,
                n > 0 ==> summary.max_ino == entries@[n - 1]@.ino(),
            decreases entries@.len() - n,
        {
            let part = entries[n].summary();
            let ghost inode = entries@[n as int]@.ino();
            summary.add_assign(&part);
            proof {
                if entries@[n as int]@ is File {
                    assert(!seen.contains(inode));
                    seen = seen.insert(inode);
                }
            }
            n = n + 1;
        }
        proof {
            assert forall|inode: u64| file_inodes(m).contains(inode) implies seen.contains(
                inode,
            ) by {
                assert(m.contains_key(inode));
                let i = choose|i: int|
                    0 <= i < entries@.len() && (#[trigger] entries@[i])@.ino() == inode;
                assert(entries@[i]@ is File);
            }
            assert(seen =~= file_inodes(m));
            assert forall|inode: u64| #[trigger] m.contains_key(inode) implies inode
                <= summary.max_ino by {
                let i = choose|i: int|
                    0 <= i < entries@.len() && (#[trigger] entries@[i])@.ino() == inode;
                assert(entries@[n - 1]@.ino() >= entries@[i]@.ino());
            }
            if !m.dom().is_empty() {
                let inode = m.dom().choose();
                assert(m.contains_key(inode));
            }
        }
        summary
    }
}

/// A rising list of the files has as many members as there are files.
pub proof fn law_files_are_as_many_as_counted(m: Map<u64, EntryView>, files: Seq<u64>)
    requires
        rising(files),
        files.to_set() == file_inodes(m),
    ensures
        files.len() == file_inodes(m).len(),
{
    files.unique_seq_to_set();
}

} // verus!
