//! A picture of the tree at one moment: its entries by inode, and where it starts.
use vstd::prelude::*;
use crate::entry::{Entry, EntryView};
use crate::entry_tree::{entry_views, file_inodes, EntryTree};
use crate::path::{components, path_of, same_bytes, spelled, UnixPath};

verus! {

/// The first of `children` whose entry has the name `name`.
pub open spec fn child_named(
    m: Map<u64, EntryView>,
    children: Seq<u64>,
    name: Seq<u8>,
) -> Option<u64>
    decreases children.len(),
{
    if children.len() == 0 {
        None
    } else if m.contains_key(children[0]) && m[children[0]].name() == name {
        Some(children[0])
    } else {
        child_named(m, children.drop_first(), name)
    }
}

/// What lies at `name` in the directory `inode`.
pub open spec fn entered(m: Map<u64, EntryView>, inode: u64, name: Seq<u8>) -> Option<u64> {
    if m.contains_key(inode) && m[inode] is Dir {
        child_named(m, m[inode].children(), name)
    } else {
        None
    }
}

/// Where the names in `names` lead, one after the other, from `start`.
pub open spec fn resolved(m: Map<u64, EntryView>, start: u64, names: Seq<Seq<u8>>) -> Option<u64>
    decreases names.len(),
{
    if names.len() == 0 {
        Some(start)
    } else {
        match resolved(m, start, names.drop_last()) {
            Some(inode) => entered(m, inode, names.last()),
            None => None,
        }
    }
}

/// Whether `line` leads from an entry without a parent down to its last entry, from each parent to
/// the child that names it.
pub open spec fn is_lineage(m: Map<u64, EntryView>, line: Seq<u64>) -> bool {
    &&& line.len() > 0
    &&& forall|i: int| 0 <= i < line.len() ==> m.contains_key(#[trigger] line[i])
    &&& m[line[0]].parent() is None
    &&& forall|i: int, j: int|
        #![trigger line[i], line[j]]
        0 <= i < line.len() && j == i + 1 && j < line.len() ==> m[line[j]].parent() == Some(line[i])
}

/// Whether the parents of `inode` lead to an entry without a parent.
pub open spec fn has_lineage(m: Map<u64, EntryView>, inode: u64) -> bool {
    exists|line: Seq<u64>| #[trigger] is_lineage(m, line) && line.last() == inode
}

/// The way down to `inode` from the entry without a parent above it.
pub open spec fn lineage(m: Map<u64, EntryView>, inode: u64) -> Seq<u64> {
    choose|line: Seq<u64>| #[trigger] is_lineage(m, line) && line.last() == inode
}

/// The names of the entries in `line`.
pub open spec fn names_along(m: Map<u64, EntryView>, line: Seq<u64>) -> Seq<Seq<u8>> {
    Seq::new(line.len(), |i: int| m[line[i]].name())
}

/// The path of `inode`, with or without the name of the entry that everything starts from.
pub open spec fn path_to(m: Map<u64, EntryView>, inode: u64, with_root: bool) -> Seq<u8> {
    let names = names_along(m, lineage(m, inode));
    path_of(
        if with_root {
            names
        } else {
            names.skip(1)
        },
    )
}

/// `children` without `child`.
pub open spec fn without_child(children: Seq<u64>, child: u64) -> Seq<u64> {
    children.filter(|c: u64| c != child)
}

/// Whether `parent`, where it is an entry of its own other than `child`, is a directory.
pub open spec fn can_hold(m: Map<u64, EntryView>, parent: Option<u64>, child: u64) -> bool {
    parent matches Some(p) ==> m.contains_key(p) && p != child ==> m[p] is Dir
}

/// Whether `child` can be moved from `old_parent` to `new_parent`.
pub open spec fn can_reparent(
    m: Map<u64, EntryView>,
    child: u64,
    old_parent: Option<u64>,
    new_parent: Option<u64>,
) -> bool {
    &&& m.contains_key(child)
    &&& can_hold(m, old_parent, child)
    &&& can_hold(m, new_parent, child)
}

/// `m` with `child` moved from `old_parent` to `new_parent`: it names its new parent, the old
/// parent lists it no longer, and the new parent lists it last.
pub open spec fn reparented(
    m: Map<u64, EntryView>,
    child: u64,
    old_parent: Option<u64>,
    new_parent: Option<u64>,
) -> Map<u64, EntryView> {
    let moved = m.insert(child, m[child].with_parent(new_parent));
    let left = match old_parent {
        Some(p) if m.contains_key(p) && p != child => moved.insert(
            p,
            m[p].with_children(without_child(m[p].children(), child)),
        ),
        _ => moved,
    };
    match new_parent {
        Some(q) if m.contains_key(q) && q != child => left.insert(
            q,
            left[q].with_children(left[q].children().push(child)),
        ),
        _ => left,
    }
}

/// `m` with an entry that was not known: its parent, where that is a known directory, lists it last.
pub open spec fn added(m: Map<u64, EntryView>, entry: EntryView) -> Map<u64, EntryView> {
    let listed = match entry.parent() {
        Some(p) if m.contains_key(p) && p != entry.ino() => m.insert(
            p,
            m[p].with_children(m[p].children().push(entry.ino())),
        ),
        _ => m,
    };
    listed.insert(entry.ino(), entry)
}

/// `m` with what the file system says of an entry that is known.
pub open spec fn refreshed(m: Map<u64, EntryView>, found: EntryView) -> Map<u64, EntryView> {
    if m.contains_key(found.ino()) {
        m.insert(found.ino(), m[found.ino()].refreshed(found))
    } else {
        m
    }
}

/// A picture of the tree below `path`.
pub struct Snapshot {
    pub id: usize,
    pub path: UnixPath,
    pub root_inode: Option<u64>,
    pub entries: EntryTree,
}

pub struct SnapshotView {
    pub id: usize,
    pub path: Seq<u8>,
    pub root_inode: Option<u64>,
    pub entries: Map<u64, EntryView>,
}

impl View for Snapshot {
    type V = SnapshotView;

    open spec fn view(&self) -> SnapshotView {
        SnapshotView {
            id: self.id,
            path: self.path@,
            root_inode: self.root_inode,
            entries: self.entries@,
        }
    }
}

impl SnapshotView {
    /// The same snapshot with other entries.
    pub open spec fn with_entries(self, entries: Map<u64, EntryView>) -> SnapshotView {
        SnapshotView { id: self.id, path: self.path, root_inode: self.root_inode, entries }
    }

    /// Where `path` leads from the root.
    pub open spec fn inode_at(self, path: Seq<u8>) -> Option<u64> {
        match self.root_inode {
            Some(root) => resolved(self.entries, root, components(path)),
            None => None,
        }
    }

    /// The entry that `path` leads to.
    pub open spec fn entry_at(self, path: Seq<u8>) -> Option<EntryView> {
        match self.inode_at(path) {
            Some(inode) if self.entries.contains_key(inode) => Some(self.entries[inode]),
            _ => None,
        }
    }
}

impl Clone for Snapshot {
    fn clone(&self) -> (copy: Self)
        ensures
            copy@ == self@,
    {
        Snapshot {
            id: self.id,
            path: self.path.clone(),
            root_inode: self.root_inode,
            entries: self.entries.clone(),
        }
    }
}

impl Snapshot {
    /// The snapshot of a tree that has not been scanned yet.
    pub fn new(id: usize, path: UnixPath) -> (snapshot: Self)
        ensures
            snapshot@ == (SnapshotView {
                id,
                path: path@,
                root_inode: None,
                entries: Map::empty(),
            }),
    {
        Snapshot { id, path, root_inode: None, entries: EntryTree::new() }
    }

    /// How many files there are.
    pub fn file_count(&self) -> (count: usize)
        ensures
            count == file_inodes(self@.entries).len(),
    {
        self.entries.summary().file_count
    }

    /// The entry of the root, where it has one.
    pub fn root_entry(&self) -> (entry: Option<&Entry>)
        ensures
            match entry {
                Some(entry) => self@.root_inode is Some && self@.entries.contains_key(
                    self@.root_inode->0,
                ) && self@.entries[self@.root_inode->0] == entry@,
                None => self@.root_inode is None || !self@.entries.contains_key(
                    self@.root_inode->0,
                ),
            },
    {
        match self.root_inode {
            Some(inode) => self.entries.get(inode),
            None => None,
        }
    }

    /// The first of `children` that has the name `name`.
    fn find_child(&self, children: &Vec<u64>, name: &Vec<u8>) -> (found: Option<u64>)
        ensures
            found == child_named(self@.entries, children@, name@),
    {
        let ghost m = self@.entries;
        let mut i: usize = 0;
        assert(children@.skip(0) =~= children@);
        while i < children.len()
            invariant
                m == self@.entries,
                i <= children@.len(),
                child_named(m, children@, name@) == child_named(m, children@.skip(i as int), name@),
            decreases children@.len() - i,
        {
            let child: u64 = children[i];
            assert(children@.skip(i as int)[0] == child);
            assert(children@.skip(i as int).drop_first() =~= children@.skip(i + 1));
            if let Some(entry) = self.entries.get(child) {
                if same_bytes(entry.name(), name) {
                    return Some(child);
                }
            }
            i = i + 1;
        }
        None
    }

    /// Where `path` leads from the root.
    pub fn inode_for_path(&self, path: &UnixPath) -> (found: Option<u64>)
        ensures
            found == self@.inode_at(path@),
    {
        let root: u64 = match self.root_inode {
            Some(inode) => inode,
            None => {
                return None;
            },
        };
        let parts = path.components();
        let ghost names = components(path@);
        let ghost m = self@.entries;
        let mut inode: u64 = root;
        let mut i: usize = 0;
        assert(names.take(0) =~= Seq::empty());
        while i < parts.len()
            invariant
                m == self@.entries,
                names == spelled(parts@),
                i <= parts@.len(),
                resolved(m, root, names.take(i as int)) == Some(inode),
                self@.root_inode == Some(root),
                names == components(path@),
            decreases parts@.len() - i,
        {
            assert(names.take(i + 1).drop_last() =~= names.take(i as int));
            assert(names.take(i + 1).last() == parts@[i as int]@);
            let next: Option<u64> = match self.entries.get(inode) {
                Some(Entry::Dir { children, .. }) => self.find_child(children, &parts[i]),
                _ => None,
            };
            assert(next == entered(m, inode, parts@[i as int]@));
            match next {
                Some(child) => {
                    inode = child;
                },
                None => {
                    proof {
                        lemma_resolved_needs_prefix(m, root, names, i + 1);
                    }
                    return None;
                },
            }
            i = i + 1;
        }
        assert(names.take(names.len() as int) =~= names);
        Some(inode)
    }

    /// The entry that `path` leads to.
    pub fn entry_for_path(&self, path: &UnixPath) -> (found: Option<&Entry>)
        ensures
            match found {
                Some(entry) => self@.entry_at(path@) == Some(entry@),
                None => self@.entry_at(path@) is None,
            },
    {
        match self.inode_for_path(path) {
            Some(inode) => self.entries.get(inode),
            None => None,
        }
    }

    /// Puts `entries` in, in place of what their inodes had before.
    pub fn insert_entries(&mut self, entries: Vec<Entry>)
        ensures
            final(self)@ == old(self)@.with_entries(
                inserted(old(self)@.entries, entry_views(entries@)),
            ),
    {
        let ghost all = entry_views(entries@);
        let ghost list = entries@;
        let ghost before = self@;
        assert(inserted(before.entries, all.take(0)) == before.entries);
        for entry in iter: entries
            invariant
                iter.seq() == list,
                all == entry_views(list),
                self@ == before.with_entries(inserted(before.entries, all.take(iter.index()))),
        {
            let ghost i = iter.index();
            assert(all.take(i + 1).drop_last() =~= all.take(i));
            assert(all.take(i + 1).last() == entry@);
            self.entries.insert(entry);
        }
        assert(all.take(all.len() as int) =~= all);
    }

    /// Has the directory `parent` list `child` last; a file, or what is not known, stays as it is.
    fn list_child(&mut self, parent: u64, child: u64)
        ensures
            final(self)@ == old(self)@.with_entries(
                if old(self)@.entries.contains_key(parent) {
                    old(self)@.entries.insert(
                        parent,
                        old(self)@.entries[parent].with_children(
                            old(self)@.entries[parent].children().push(child),
                        ),
                    )
                } else {
                    old(self)@.entries
                },
            ),
    {
        let ghost m = self@.entries;
        match self.entries.remove(parent) {
            Some(entry) => {
                let mut entry = entry;
                if let Entry::Dir { children, .. } = &mut entry {
                    children.push(child);
                }
                self.entries.insert(entry);
                assert(self@.entries =~= m.insert(
                    parent,
                    m[parent].with_children(m[parent].children().push(child)),
                ));
            },
            None => {
                assert(self@.entries =~= m);
            },
        }
    }

    /// Puts in an entry that was not known, and has its parent list it.
    pub fn add_entry(&mut self, entry: Entry)
        ensures
            final(self)@ == old(self)@.with_entries(added(old(self)@.entries, entry@)),
    {
        let inode: u64 = entry.ino();
        let parent: Option<u64> = entry.parent();
        let ghost m = self@.entries;
        if let Some(parent) = parent {
            if parent != inode {
                self.list_child(parent, inode);
            }
        }
        self.entries.insert(entry);
        assert(self@.entries =~= added(m, entry@));
    }

    /// Takes over what the file system says of an entry that is known: its name, and for a file
    /// its path and whether it is ignored.
    pub fn refresh_entry(&mut self, found: &Entry)
        ensures
            final(self)@ == old(self)@.with_entries(refreshed(old(self)@.entries, found@)),
    {
        let ghost m = self@.entries;
        match self.entries.remove(found.ino()) {
            Some(entry) => {
                let mut entry = entry;
                entry.refresh(found);
                self.entries.insert(entry);
                assert(self@.entries =~= refreshed(m, found@));
            },
            None => {
                assert(self@.entries =~= refreshed(m, found@));
            },
        }
    }

    /// Whether `parent`, where it is an entry of its own other than `child`, is a directory.
    fn holds(&self, parent: Option<u64>, child: u64) -> (holds: bool)
        ensures
            holds == can_hold(self@.entries, parent, child),
    {
        match parent {
            Some(inode) => match self.entries.get(inode) {
                Some(entry) => inode == child || !entry.is_file(),
                None => true,
            },
            None => true,
        }
    }

    /// Whether `child_inode` can be moved from `old_parent_inode` to `new_parent_inode`.
    pub fn can_reparent(
        &self,
        child_inode: u64,
        old_parent_inode: Option<u64>,
        new_parent_inode: Option<u64>,
    ) -> (can: bool)
        ensures
            can == can_reparent(
                self@.entries,
                child_inode,
                old_parent_inode,
                new_parent_inode,
            ),
    {
        self.entries.get(child_inode).is_some() && self.holds(old_parent_inode, child_inode)
            && self.holds(new_parent_inode, child_inode)
    }

    /// Moves `child_inode` from `old_parent_inode` to `new_parent_inode`.
    pub fn reparent_entry(
        &mut self,
        child_inode: u64,
        old_parent_inode: Option<u64>,
        new_parent_inode: Option<u64>,
    )
        requires
            can_reparent(old(self)@.entries, child_inode, old_parent_inode, new_parent_inode),
        ensures
            final(self)@ == old(self)@.with_entries(
                reparented(
                    old(self)@.entries,
                    child_inode,
                    old_parent_inode,
                    new_parent_inode,
                ),
            ),
    {
        let ghost m = self@.entries;
        // Take the child out of its old parent's children.
        if let Some(inode) = old_parent_inode {
            if inode != child_inode {
                if let Some(entry) = self.entries.remove(inode) {
                    let mut entry = entry;
                    if let Entry::Dir { children, .. } = &mut entry {
                        *children = drop_child(children, child_inode);
                    }
                    self.entries.insert(entry);
                }
            }
        }
        // Add the child to its new parent's children.
        if let Some(inode) = new_parent_inode {
            if inode != child_inode {
                self.list_child(inode, child_inode);
            }
        }
        // Update the child entry's parent.
        if let Some(entry) = self.entries.remove(child_inode) {
            let mut entry = entry;
            entry.set_parent(new_parent_inode);
            self.entries.insert(entry);
        }
        assert(self@.entries =~= reparented(m, child_inode, old_parent_inode, new_parent_inode));
    }
}

/// `m` with `entries` put in one after the other.
pub open spec fn inserted(m: Map<u64, EntryView>, entries: Seq<EntryView>) -> Map<u64, EntryView>
    decreases entries.len(),
{
    if entries.len() == 0 {
        m
    } else {
        inserted(m, entries.drop_last()).insert(entries.last().ino(), entries.last())
    }
}

/// `children` without `child`.
fn drop_child(children: &Vec<u64>, child: u64) -> (rest: Vec<u64>)
    ensures
        rest@ == without_child(children@, child),
{
    let mut rest: Vec<u64> = Vec::new();
    let mut i: usize = 0;
    proof {
        reveal(Seq::filter);
        assert(without_child(children@.take(0), child) =~= Seq::empty());
    }
    while i < children.len()
        invariant
            i <= children@.len(),
            rest@ == without_child(children@.take(i as int), child),
        decreases children@.len() - i,
    {
        proof {
            reveal(Seq::filter);
            assert(children@.take(i + 1).drop_last() =~= children@.take(i as int));
        }
        if children[i] != child {
            rest.push(children[i]);
        }
        i = i + 1;
    }
    assert(children@.take(children@.len() as int) =~= children@);
    rest
}

/// A path leads nowhere if one of its beginnings leads nowhere.
pub proof fn lemma_resolved_needs_prefix(
    m: Map<u64, EntryView>,
    start: u64,
    names: Seq<Seq<u8>>,
    n: int,
)
    requires
        0 <= n <= names.len(),
        resolved(m, start, names.take(n)) is None,
    ensures
        resolved(m, start, names) is None,
    decreases names.len(),
{
    if n == names.len() {
        assert(names.take(n) =~= names);
    } else {
        assert(names.drop_last().take(n) =~= names.take(n));
        lemma_resolved_needs_prefix(m, start, names.drop_last(), n);
    }
}

} // verus!
