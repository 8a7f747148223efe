//! The way from an entry up to where the tree starts.
use vstd::prelude::*;
use crate::entry::EntryView;
use crate::path::{copy_bytes, path_of, UnixPath};
use crate::snapshot::{has_lineage, is_lineage, lineage, names_along, path_to, Snapshot};

verus! {

/// Whether each entry of `line` but the first is known and names the one before it as its parent.
pub open spec fn is_descent(m: Map<u64, EntryView>, line: Seq<u64>) -> bool {
    &&& line.len() > 0
    &&& forall|i: int| 0 < i < line.len() ==> m.contains_key(#[trigger] line[i])
    &&& forall|i: int, j: int|
        #![trigger line[i], line[j]]
        0 <= i && j == i + 1 && j < line.len() ==> m[line[j]].parent() == Some(line[i])
}

/// Whatever leads down to an entry is the lower part of its lineage.
proof fn lemma_descent_is_part_of_lineage(m: Map<u64, EntryView>, line: Seq<u64>, part: Seq<u64>)
    requires
        is_lineage(m, line),
        is_descent(m, part),
        line.last() == part.last(),
    ensures
        part.len() <= line.len(),
        part == line.skip(line.len() - part.len()),
    decreases part.len(),
{
    if part.len() > 1 {
        let lower = part.drop_first();
        assert forall|i: int| 0 < i < lower.len() implies m.contains_key(#[trigger] lower[i]) by {
            assert(m.contains_key(part[i + 1]));
        }
        assert forall|i: int, j: int|
            #![trigger lower[i], lower[j]]
            0 <= i && j == i + 1 && j < lower.len() implies m[lower[j]].parent() == Some(
            lower[i],
        ) by {
            assert(m[part[j + 1]].parent() == Some(part[i + 1]));
        }
        lemma_descent_is_part_of_lineage(m, line, lower);
        let t = line.len() - lower.len();
        assert(lower[0] == line.skip(t)[0]);
        assert(part[1] == line[t]);
        assert(m[part[1]].parent() == Some(part[0]));
        assert(t > 0);
        assert(m[line[t]].parent() == Some(line[t - 1]));
        assert forall|i: int| 0 <= i < part.len() implies part[i] == line.skip(t - 1)[i] by {
            if i > 0 {
                assert(part[i] == lower[i - 1]);
                assert(lower[i - 1] == line.skip(t)[i - 1]);
            }
        }
        assert(part =~= line.skip(t - 1));
    } else {
        assert(part =~= line.skip(line.len() - 1));
    }
}

/// An entry has at most one lineage.
pub proof fn law_lineage_is_unique(m: Map<u64, EntryView>, a: Seq<u64>, b: Seq<u64>)
    requires
        is_lineage(m, a),
        is_lineage(m, b),
        a.last() == b.last(),
    ensures
        a == b,
{
    lemma_descent_is_part_of_lineage(m, a, b);
    lemma_descent_is_part_of_lineage(m, b, a);
    assert(a.skip(0) =~= a);
}

/// What stands above an entry in a lineage is the lineage of that entry.
pub proof fn lemma_lineage_prefix(m: Map<u64, EntryView>, line: Seq<u64>, n: int)
    requires
        is_lineage(m, line),
        0 < n <= line.len(),
    ensures
        is_lineage(m, line.take(n)),
        line.take(n).last() == line[n - 1],
{
    let part = line.take(n);
    assert forall|i: int| 0 <= i < part.len() implies m.contains_key(#[trigger] part[i]) by {
        assert(m.contains_key(line[i]));
    }
    assert forall|i: int, j: int|
        #![trigger part[i], part[j]]
        0 <= i < part.len() && j == i + 1 && j < part.len() implies m[part[j]].parent() == Some(
        part[i],
    ) by {
        assert(m[line[j]].parent() == Some(line[i]));
    }
}

/// No entry stands twice in a lineage.
pub proof fn law_lineage_does_not_repeat(m: Map<u64, EntryView>, line: Seq<u64>)
    requires
        is_lineage(m, line),
    ensures
        line.no_duplicates(),
{
    assert forall|i: int, j: int| 0 <= i < j < line.len() implies line[i] != line[j] by {
        if line[i] == line[j] {
            lemma_lineage_prefix(m, line, i + 1);
            lemma_lineage_prefix(m, line, j + 1);
            law_lineage_is_unique(m, line.take(i + 1), line.take(j + 1));
            assert(line.take(i + 1).len() == i + 1);
        }
    }
}

/// No lineage is longer than there are entries.
pub proof fn law_lineage_is_bounded(m: Map<u64, EntryView>, line: Seq<u64>)
    requires
        is_lineage(m, line),
        m.dom().finite(),
    ensures
        line.len() <= m.dom().len(),
{
    law_lineage_does_not_repeat(m, line);
    line.unique_seq_to_set();
    assert(line.to_set().subset_of(m.dom())) by {
        assert forall|k: u64| line.to_set().contains(k) implies m.dom().contains(k) by {
            let i = line.index_of(k);
            assert(m.contains_key(line[i]));
        }
    }
    vstd::set_lib::lemma_len_subset(line.to_set(), m.dom());
}

impl Snapshot {
    /// Whether the parents of `inode` lead to an entry without a parent.
    pub fn is_rooted(&self, inode: u64) -> (rooted: bool)
        ensures
            rooted == has_lineage(self@.entries, inode),
    {
        let ghost m = self@.entries;
        let limit: usize = self.entries.len();
        let mut current: u64 = inode;
        let mut steps: usize = 0;
        let ghost mut below: Seq<u64> = seq![inode];
        while steps < limit
            invariant
                m == self@.entries,
                limit == m.dom().len(),
                m.dom().finite(),
                steps <= limit,
                below.len() == steps + 1,
                below[0] == current,
                below.last() == inode,
                is_descent(m, below),
            decreases limit - steps,
        {
            match self.entries.get(current) {
                None => {
                    proof {
                        if has_lineage(m, inode) {
                            let line = lineage(m, inode);
                            lemma_descent_is_part_of_lineage(m, line, below);
                            assert(below[0] == line.skip(line.len() - below.len())[0]);
                            assert(m.contains_key(line[line.len() - below.len()]));
                        }
                    }
                    return false;
                },
                Some(entry) => match entry.parent() {
                    None => {
                        proof {
                            assert(is_lineage(m, below)) by {
                                assert forall|i: int| 0 <= i < below.len() implies m.contains_key(
                                    #[trigger] below[i],
                                ) by {}
                            }
                        }
                        return true;
                    },
                    Some(parent) => {
                        proof {
                            let longer = seq![parent] + below;
                            assert(longer.last() == inode);
                            assert forall|i: int| 0 < i < longer.len() implies m.contains_key(
                                #[trigger] longer[i],
                            ) by {
                                assert(longer[i] == below[i - 1]);
                            }
                            assert forall|i: int, j: int|
                                #![trigger longer[i], longer[j]]
                                0 <= i && j == i + 1 && j < longer.len() implies m[longer[j]].parent()
                                == Some(longer[i]) by {
                                assert(longer[j] == below[i]);
                                if i > 0 {
                                    assert(longer[i] == below[i - 1]);
                                }
                            }
                            below = longer;
                        }
                        current = parent;
                    },
                },
            }
            steps = steps + 1;
        }
        proof {
            if has_lineage(m, inode) {
                let line = lineage(m, inode);
                law_lineage_is_bounded(m, line);
                lemma_descent_is_part_of_lineage(m, line, below);
            }
        }
        false
    }

    /// The path of `inode`, with or without the name of the entry that everything starts from.
    pub fn path_to_inode(&self, inode: u64, with_root: bool) -> (path: UnixPath)
        requires
            has_lineage(self@.entries, inode),
        ensures
            path@ == path_to(self@.entries, inode, with_root),
    {
        let ghost m = self@.entries;
        let ghost line = lineage(m, inode);
        let ghost names = names_along(m, line);
        let mut collected: Vec<Vec<u8>> = Vec::new();
        let mut next: Option<u64> = Some(inode);
        while next.is_some()
            invariant
                m == self@.entries,
                is_lineage(m, line),
                names == names_along(m, line),
                collected@.len() <= line.len(),
                next is None ==> collected@.len() == line.len(),
                next matches Some(current) ==> collected@.len() < line.len() && current
                    == line[line.len() - 1 - collected@.len()],
                forall|i: int|
                    0 <= i < collected@.len() ==> (#[trigger] collected@[i])@ == names[line.len() - 1
                        - i],
            decreases line.len() - collected@.len(),
        {
            let current: u64 = next.unwrap();
            let ghost at = line.len() - 1 - collected@.len();
            assert(m.contains_key(line[at]));
            if let Some(entry) = self.entries.get(current) {
                collected.push(copy_bytes(entry.name()));
                next = entry.parent();
                proof {
                    if at > 0 {
                        assert(m[line[at]].parent() == Some(line[at - 1]));
                    }
                }
            }
        }
        let mut path = UnixPath::new(Vec::new());
        if !with_root {
            let _ = collected.pop();
        }
        let ghost used = if with_root {
            names
        } else {
            names.skip(1)
        };
        let mut left: usize = collected.len();
        assert(used.take(0) =~= Seq::empty());
        while left > 0
            invariant
                left <= collected@.len(),
                collected@.len() == used.len(),
                forall|i: int|
                    0 <= i < collected@.len() ==> (#[trigger] collected@[i])@ == used[used.len() - 1
                        - i],
                path@ == path_of(used.take(used.len() - left)),
            decreases left,
        {
            left = left - 1;
            let ghost n = used.len() - left;
            assert(used.take(n).drop_last() =~= used.take(n - 1));
            assert(used.take(n).last() == collected@[left as int]@);
            path.push(&collected[left]);
        }
        assert(used.take(used.len() as int) =~= used);
        path
    }
}

} // verus!
