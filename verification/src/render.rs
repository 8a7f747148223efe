//! The tree as indented text.
use vstd::prelude::*;
use vstd::string::StringExecFns;
use crate::entry::{Entry, EntryView};
use crate::snapshot::Snapshot;

verus! {

/// The text that `String::from_utf8_lossy` makes of a byte string.
pub uninterp spec fn lossy_text(bytes: Seq<u8>) -> Seq<char>;

/// Calls `String::from_utf8_lossy`. The text depends on the bytes alone; bytes that are valid
/// UTF-8 are decoded as they stand. What stands in place of invalid bytes is not spelled out.
#[verifier::external_body]
fn text_of(bytes: &Vec<u8>) -> (text: String)
    ensures
        text@ == lossy_text(bytes@),
        vstd::utf8::valid_utf8(bytes@) ==> text@ == vstd::utf8::decode_utf8(bytes@),
{
    String::from_utf8_lossy(bytes).into_owned()
}

/// A name as text: decoded where it is valid UTF-8, with replacements where it is not.
pub open spec fn name_text(name: Seq<u8>) -> Seq<char> {
    if vstd::utf8::valid_utf8(name) {
        vstd::utf8::decode_utf8(name)
    } else {
        lossy_text(name)
    }
}

/// `n` spaces.
pub open spec fn spaces(n: nat) -> Seq<char> {
    Seq::new(n, |i: int| ' ')
}

/// The character for the digit `d`.
pub open spec fn digit(d: int) -> char {
    if d == 0 {
        '0'
    } else if d == 1 {
        '1'
    } else if d == 2 {
        '2'
    } else if d == 3 {
        '3'
    } else if d == 4 {
        '4'
    } else if d == 5 {
        '5'
    } else if d == 6 {
        '6'
    } else if d == 7 {
        '7'
    } else if d == 8 {
        '8'
    } else {
        '9'
    }
}

/// `n` in decimal notation.
pub open spec fn decimal(n: nat) -> Seq<char>
    decreases n,
{
    if n < 10 {
        seq![digit(n as int)]
    } else {
        decimal(n / 10).push(digit((n % 10) as int))
    }
}

/// The line for an entry with the name `name`.
pub open spec fn entry_line(
    indent: Seq<char>,
    name: Seq<char>,
    is_dir: bool,
    inode: u64,
) -> Seq<char> {
    let opening = if is_dir {
        seq!['/', ' ', '(']
    } else {
        seq![' ', '(']
    };
    indent + name + opening + decimal(inode as nat) + seq![')', '\n']
}

/// Whether the entries below `inode` are all known and end after at most `depth` levels.
pub open spec fn fits(m: Map<u64, EntryView>, inode: u64, depth: nat) -> bool
    decreases depth,
{
    &&& depth > 0
    &&& m.contains_key(inode)
    &&& forall|i: int|
        0 <= i < m[inode].children().len() ==> fits(
            m,
            #[trigger] m[inode].children()[i],
            (depth - 1) as nat,
        )
}

/// Whether what lies below `inode` can be written out: all of it is known, and no directory lies
/// below itself. The number of entries bounds the number of levels.
pub open spec fn can_write_out(m: Map<u64, EntryView>, inode: u64) -> bool {
    fits(m, inode, m.dom().len())
}

/// The lines for `inode` and for what lies at most `depth` levels below, each level indented by
/// two more spaces.
pub open spec fn rendered(m: Map<u64, EntryView>, inode: u64, indent: nat, depth: nat) -> Seq<char>
    decreases depth, 0nat,
{
    if depth == 0 {
        Seq::empty()
    } else {
        entry_line(
            spaces(indent),
            name_text(m[inode].name()),
            m[inode] is Dir,
            m[inode].ino(),
        ) + rendered_all(m, m[inode].children(), indent + 2, (depth - 1) as nat)
    }
}

/// The lines for `inodes`, one after the other.
pub open spec fn rendered_all(
    m: Map<u64, EntryView>,
    inodes: Seq<u64>,
    indent: nat,
    depth: nat,
) -> Seq<char>
    decreases depth, inodes.len(),
{
    if inodes.len() == 0 {
        Seq::empty()
    } else {
        rendered_all(m, inodes.drop_last(), indent, depth) + rendered(
            m,
            inodes.last(),
            indent,
            depth,
        )
    }
}

/// The lines for `inode` and all that lies below it.
pub open spec fn tree_text(m: Map<u64, EntryView>, inode: u64, indent: nat) -> Seq<char> {
    rendered(m, inode, indent, m.dom().len())
}

fn digit_text(d: u64) -> (text: &'static str)
    requires
        d < 10,
    ensures
        text@ == seq![digit(d as int)],
{
    proof {
        reveal_strlit("0");
        reveal_strlit("1");
        reveal_strlit("2");
        reveal_strlit("3");
        reveal_strlit("4");
        reveal_strlit("5");
        reveal_strlit("6");
        reveal_strlit("7");
        reveal_strlit("8");
        reveal_strlit("9");
    }
    let text: &'static str = match d {
        0 => "0",
        1 => "1",
        2 => "2",
        3 => "3",
        4 => "4",
        5 => "5",
        6 => "6",
        7 => "7",
        8 => "8",
        _ => "9",
    };
    assert(text@ =~= seq![digit(d as int)]);
    text
}

/// Writes `n` in decimal notation.
fn write_decimal(out: &mut String, n: u64)
    ensures
        final(out)@ == old(out)@ + decimal(n as nat),
    decreases n,
{
    if n >= 10 {
        write_decimal(out, n / 10);
        out.append(digit_text(n % 10));
        assert(out@ =~= old(out)@ + decimal(n as nat));
    } else {
        out.append(digit_text(n));
    }
}

/// Writes the line for an entry with the name `name`.
pub fn write_line(out: &mut String, indent: &String, name: &String, is_dir: bool, inode: u64)
    ensures
        final(out)@ == old(out)@ + entry_line(indent@, name@, is_dir, inode),
{
    proof {
        reveal_strlit("/ (");
        reveal_strlit(" (");
        reveal_strlit(")\n");
    }
    out.append(indent.as_str());
    out.append(name.as_str());
    if is_dir {
        assert("/ ("@ =~= seq!['/', ' ', '(']);
        out.append("/ (");
    } else {
        assert(" ("@ =~= seq![' ', '(']);
        out.append(" (");
    }
    write_decimal(out, inode);
    assert(")\n"@ =~= seq![')', '\n']);
    out.append(")\n");
    assert(out@ =~= old(out)@ + entry_line(indent@, name@, is_dir, inode));
}

/// `n` spaces.
fn indentation(n: usize) -> (text: String)
    ensures
        text@ == spaces(n as nat),
{
    let mut text = String::new();
    let mut i: usize = 0;
    proof {
        reveal_strlit(" ");
    }
    assert(text@ =~= spaces(0));
    while i < n
        invariant
            i <= n,
            text@ == spaces(i as nat),
            " "@ == seq![' '],
        decreases n - i,
    {
        text.append(" ");
        assert(text@ =~= spaces((i + 1) as nat));
        i = i + 1;
    }
    text
}

impl Snapshot {
    fn entries_fit(&self, inode: u64, depth: usize) -> (fit: bool)
        ensures
            fit == fits(self@.entries, inode, depth as nat),
        decreases depth,
    {
        if depth == 0 {
            return false;
        }
        let entry = match self.entries.get(inode) {
            Some(entry) => entry,
            None => {
                return false;
            },
        };
        if let Entry::Dir { children, .. } = entry {
            let mut i: usize = 0;
            while i < children.len()
                invariant
                    i <= children@.len(),
                    depth > 0,
                    self@.entries.contains_key(inode),
                    children@ == self@.entries[inode].children(),
                    forall|k: int|
                        0 <= k < i ==> fits(
                            self@.entries,
                            #[trigger] children@[k],
                            (depth - 1) as nat,
                        ),
                decreases children@.len() - i,
            {
                if !self.entries_fit(children[i], depth - 1) {
                    assert(!fits(
                        self@.entries,
                        self@.entries[inode].children()[i as int],
                        (depth - 1) as nat,
                    ));
                    return false;
                }
                i = i + 1;
            }
        }
        true
    }

    /// Whether what lies below `inode` can be written out.
    pub fn can_write_out(&self, inode: u64) -> (can: bool)
        ensures
            can == can_write_out(self@.entries, inode),
    {
        self.entries_fit(inode, self.entries.len())
    }

    fn write_entries(&self, out: &mut String, inode: u64, indent: &String, depth: usize, Ghost(
        level,
    ): Ghost<nat>)
        requires
            fits(self@.entries, inode, depth as nat),
            indent@ == spaces(level),
        ensures
            final(out)@ == old(out)@ + rendered(self@.entries, inode, level, depth as nat),
        decreases depth,
    {
        let ghost m = self@.entries;
        if let Some(entry) = self.entries.get(inode) {
            let name = text_of(entry.name());
            let ghost line = entry_line(indent@, name@, m[inode] is Dir, m[inode].ino());
            write_line(out, indent, &name, !entry.is_file(), entry.ino());
            if let Entry::Dir { children, .. } = entry {
                let mut deeper = indent.clone();
                proof {
                    reveal_strlit("  ");
                }
                deeper.append("  ");
                assert(deeper@ =~= spaces(level + 2));
                let ghost below = (depth - 1) as nat;
                let ghost all = children@;
                let mut i: usize = 0;
                assert forall|k: int| 0 <= k < all.len() implies fits(m, #[trigger] all[k], below) by {
                    assert(all[k] == m[inode].children()[k]);
                }
                assert(out@ =~= old(out)@ + line + rendered_all(m, all.take(0), level + 2, below));
                while i < children.len()
                    invariant
                        m == self@.entries,
                        all == children@,
                        i <= all.len(),
                        depth > 0,
                        below == depth - 1,
                        deeper@ == spaces(level + 2),
                        forall|k: int| 0 <= k < all.len() ==> fits(m, #[trigger] all[k], below),
                        out@ == old(out)@ + line + rendered_all(
                            m,
                            all.take(i as int),
                            level + 2,
                            below,
                        ),
                    decreases all.len() - i,
                {
                    assert(all.take(i + 1).drop_last() =~= all.take(i as int));
                    self.write_entries(out, children[i], &deeper, depth - 1, Ghost(level + 2));
                    assert(out@ =~= old(out)@ + line + rendered_all(
                        m,
                        all.take(i + 1),
                        level + 2,
                        below,
                    ));
                    i = i + 1;
                }
                assert(all.take(all.len() as int) =~= all);
            }
            assert(out@ =~= old(out)@ + rendered(m, inode, level, depth as nat));
        }
    }

    /// The lines for `inode` and all that lies below it.
    pub fn write_out(&self, inode: u64, indent: usize) -> (text: String)
        requires
            can_write_out(self@.entries, inode),
        ensures
            text@ == tree_text(self@.entries, inode, indent as nat),
    {
        let mut text = String::new();
        let start = indentation(indent);
        let depth: usize = self.entries.len();
        self.write_entries(&mut text, inode, &start, depth, Ghost(indent as nat));
        assert(text@ =~= tree_text(self@.entries, inode, indent as nat));
        text
    }
}

} // verus!
