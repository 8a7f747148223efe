//! What the text of a tree holds: a line for every entry, each below its directory's and indented
//! by two more.
use vstd::prelude::*;
use crate::entry::EntryView;
use crate::lineage::law_lineage_does_not_repeat;
use crate::render::{
    can_write_out, decimal, entry_line, fits, name_text, rendered, rendered_all, spaces, tree_text,
};
use crate::snapshot::{has_lineage, is_lineage, lineage};
use crate::tree_laws::is_tree;
use crate::worktree_laws::{
    law_levels_are_bounded, law_text_needs_no_more_levels, law_tree_can_be_written_out,
    lemma_fits_more,
};

verus! {

/// The number that a list of digits stands for.
pub open spec fn number_of(digits: Seq<char>) -> int
    decreases digits.len(),
{
    if digits.len() == 0 {
        0
    } else {
        10 * number_of(digits.drop_last()) + (digits.last() as int - '0' as int)
    }
}

/// Decimal notation is made of digits, does not open with a zero but for zero itself, and reads
/// back as the number.
pub proof fn law_decimal_reads_back(n: nat)
    ensures
        number_of(decimal(n)) == n,
        decimal(n).len() > 0,
        decimal(n).len() > 1 ==> decimal(n)[0] != '0',
        n > 0 ==> decimal(n)[0] != '0',
        forall|i: int| 0 <= i < decimal(n).len() ==> '0' <= #[trigger] decimal(n)[i] <= '9',
    decreases n,
{
    let text = decimal(n);
    if n < 10 {
        reveal_with_fuel(number_of, 2);
        assert(text.drop_last() =~= Seq::empty());
        assert(text.last() as int - '0' as int == n);
    } else {
        let upper = decimal(n / 10);
        law_decimal_reads_back(n / 10);
        assert(text.drop_last() =~= upper);
        assert(text.last() as int - '0' as int == n % 10);
        assert(text[0] == upper[0]);
        assert forall|i: int| 0 <= i < text.len() implies '0' <= #[trigger] text[i] <= '9' by {
            if i < upper.len() {
                assert(text[i] == upper[i]);
            }
        }
    }
}

/// A name as text is what its bytes decode to, where they are valid.
pub proof fn law_valid_name_is_decoded(name: Seq<u8>)
    requires
        vstd::utf8::valid_utf8(name),
    ensures
        vstd::utf8::encode_utf8(name_text(name)) == name,
{
    vstd::utf8::decode_utf8_encode_utf8(name);
}

/// The line of an entry: as many spaces as it is indented by, its name, a slash where it is a
/// directory, a space, and its inode in brackets.
pub open spec fn line_of(entry: EntryView, indent: nat) -> Seq<char> {
    Seq::new(indent, |i: int| ' ') + name_text(entry.name()) + (if entry is Dir {
        seq!['/']
    } else {
        seq![]
    }) + seq![' ', '('] + decimal(entry.ino() as nat) + seq![')', '\n']
}

/// Whether `part` stands in `text` between cut `i` and the next.
pub open spec fn stands_between(text: Seq<char>, cuts: Seq<int>, i: int, part: Seq<char>) -> bool {
    &&& 0 <= cuts[i] <= cuts[i + 1] <= text.len()
    &&& text.subrange(cuts[i], cuts[i + 1]) == part
}

/// The text of an entry opens with its own line. Behind it, up to the end, come the texts of its
/// children, one right behind the other in their order, each indented by two more.
pub proof fn law_text_goes_down_the_tree(m: Map<u64, EntryView>, inode: u64, indent: nat) -> (cuts: Seq<
    int,
>)
    requires
        m.dom().finite(),
        can_write_out(m, inode),
    ensures
        ({
            let text = tree_text(m, inode, indent);
            let line = line_of(m[inode], indent);
            let children = m[inode].children();
            &&& line.is_prefix_of(text)
            &&& cuts.len() == children.len() + 1
            &&& cuts[0] == line.len()
            &&& cuts[children.len() as int] == text.len()
            &&& forall|i: int|
                0 <= i < children.len() ==> #[trigger] stands_between(
                    text,
                    cuts,
                    i,
                    tree_text(m, children[i], indent + 2),
                )
        }),
{
    let text = tree_text(m, inode, indent);
    let line = line_of(m[inode], indent);
    let children = m[inode].children();
    let size = m.dom().len();
    let below = (size - 1) as nat;
    assert(entry_line(
        spaces(indent),
        name_text(m[inode].name()),
        m[inode] is Dir,
        m[inode].ino(),
    ) =~= line);
    let rest = rendered_all(m, children, indent + 2, below);
    assert(text == line + rest);
    assert(line =~= text.subrange(0, line.len() as int));
    assert forall|i: int| 0 <= i < children.len() implies fits(m, #[trigger] children[i], below) by {
        assert(fits(m, m[inode].children()[i], below));
    }
    let inner = lemma_texts_follow(m, children, indent + 2, below);
    let cuts = Seq::new(inner.len(), |i: int| line.len() + inner[i]);
    assert forall|i: int| 0 <= i < children.len() implies #[trigger] stands_between(
        text,
        cuts,
        i,
        tree_text(m, children[i], indent + 2),
    ) by {
        assert(fits(m, children[i], below));
        assert(stands_between(rest, inner, i, rendered(m, children[i], indent + 2, below)));
        law_text_needs_no_more_levels(m, children[i], indent + 2, below, size);
        assert(text.subrange(cuts[i], cuts[i + 1]) =~= rest.subrange(inner[i], inner[i + 1]));
    }
    cuts
}

/// Where the text of each of `inodes` begins and ends.
proof fn lemma_texts_follow(m: Map<u64, EntryView>, inodes: Seq<u64>, indent: nat, depth: nat) -> (cuts:
    Seq<int>)
    ensures
        ({
            let text = rendered_all(m, inodes, indent, depth);
            &&& cuts.len() == inodes.len() + 1
            &&& cuts[0] == 0
            &&& cuts[inodes.len() as int] == text.len()
            &&& forall|i: int|
                0 <= i < inodes.len() ==> #[trigger] stands_between(
                    text,
                    cuts,
                    i,
                    rendered(m, inodes[i], indent, depth),
                )
        }),
    decreases inodes.len(),
{
    let text = rendered_all(m, inodes, indent, depth);
    if inodes.len() == 0 {
        seq![0int]
    } else {
        let front = inodes.drop_last();
        let before = rendered_all(m, front, indent, depth);
        let last = rendered(m, inodes.last(), indent, depth);
        assert(text == before + last);
        let earlier = lemma_texts_follow(m, front, indent, depth);
        let cuts = earlier.push(text.len() as int);
        assert forall|i: int| 0 <= i < inodes.len() implies #[trigger] stands_between(
            text,
            cuts,
            i,
            rendered(m, inodes[i], indent, depth),
        ) by {
            if i < front.len() {
                assert(stands_between(before, earlier, i, rendered(m, front[i], indent, depth)));
                assert(cuts[i] == earlier[i] && cuts[i + 1] == earlier[i + 1]);
                assert(text.subrange(cuts[i], cuts[i + 1]) =~= before.subrange(
                    earlier[i],
                    earlier[i + 1],
                ));
            } else {
                assert(text.subrange(cuts[i], cuts[i + 1]) =~= last);
            }
        }
        cuts
    }
}

/// An entry can be written out where it is known and all that it lists can be written out.
pub proof fn law_written_out_where_all_below_is(m: Map<u64, EntryView>, inode: u64)
    requires
        m.dom().finite(),
    ensures
        can_write_out(m, inode) <==> m.contains_key(inode) && forall|i: int|
            0 <= i < m[inode].children().len() ==> can_write_out(
                m,
                #[trigger] m[inode].children()[i],
            ),
{
    let size = m.dom().len();
    if can_write_out(m, inode) {
        assert forall|i: int| 0 <= i < m[inode].children().len() implies can_write_out(
            m,
            #[trigger] m[inode].children()[i],
        ) by {
            assert(fits(m, m[inode].children()[i], (size - 1) as nat));
            lemma_fits_more(m, m[inode].children()[i], (size - 1) as nat, size);
        }
    }
    if m.contains_key(inode) && forall|i: int|
        0 <= i < m[inode].children().len() ==> can_write_out(m, #[trigger] m[inode].children()[i]) {
        assert forall|i: int| 0 <= i < m[inode].children().len() implies fits(
            m,
            #[trigger] m[inode].children()[i],
            (size + 1 - 1) as nat,
        ) by {
            assert(can_write_out(m, m[inode].children()[i]));
        }
        assert(fits(m, inode, size + 1));
        law_levels_are_bounded(m, inode, size + 1);
    }
}

/// Whether `round` leads from an entry, each time to one that it lists, back to the entry itself.
pub open spec fn is_round(m: Map<u64, EntryView>, round: Seq<u64>) -> bool {
    &&& round.len() > 1
    &&& round.last() == round[0]
    &&& forall|i: int, j: int|
        #![trigger round[i], round[j]]
        0 <= i && j == i + 1 && j < round.len() ==> m[round[i]].children().contains(round[j])
}

/// What lies below itself cannot be written out.
pub proof fn law_round_is_not_written_out(m: Map<u64, EntryView>, round: Seq<u64>)
    requires
        is_round(m, round),
    ensures
        !can_write_out(m, round[0]),
{
    lemma_round_does_not_fit(m, round, m.dom().len());
}

proof fn lemma_round_does_not_fit(m: Map<u64, EntryView>, round: Seq<u64>, depth: nat)
    requires
        is_round(m, round),
    ensures
        !fits(m, round[0], depth),
    decreases depth,
{
    if fits(m, round[0], depth) {
        let next = round[1];
        assert(m[round[0]].children().contains(next));
        let k = m[round[0]].children().index_of(next);
        assert(fits(m, m[round[0]].children()[k], (depth - 1) as nat));
        let turned = round.drop_first().push(next);
        assert forall|i: int, j: int|
            #![trigger turned[i], turned[j]]
            0 <= i && j == i + 1 && j < turned.len() implies m[turned[i]].children().contains(
            turned[j],
        ) by {
            if j < round.len() - 1 {
                assert(turned[i] == round[i + 1] && turned[j] == round[j + 1]);
            } else {
                assert(turned[i] == round[round.len() - 1]);
                assert(m[round[0]].children().contains(round[1]));
            }
        }
        lemma_round_does_not_fit(m, turned, (depth - 1) as nat);
    }
}

/// How many line ends a text has.
pub open spec fn line_ends(text: Seq<char>) -> nat {
    text.filter(|c: char| c == '\n').len()
}

proof fn lemma_line_ends_add_up(a: Seq<char>, b: Seq<char>)
    ensures
        line_ends(a + b) == line_ends(a) + line_ends(b),
{
    Seq::filter_distributes_over_add(a, b, |c: char| c == '\n');
}

proof fn lemma_no_line_end(text: Seq<char>)
    requires
        forall|i: int| 0 <= i < text.len() ==> #[trigger] text[i] != '\n',
    ensures
        line_ends(text) == 0,
    decreases text.len(),
{
    reveal(Seq::filter);
    if text.len() > 0 {
        let front = text.drop_last();
        assert forall|i: int| 0 <= i < front.len() implies #[trigger] front[i] != '\n' by {
            assert(front[i] == text[i]);
        }
        lemma_no_line_end(front);
        assert(text[text.len() - 1] != '\n');
    }
}

/// A line ends once, where the name holds no line end.
proof fn lemma_line_ends_once(entry: EntryView, indent: nat)
    requires
        !name_text(entry.name()).contains('\n'),
    ensures
        line_ends(line_of(entry, indent)) == 1,
{
    let line = line_of(entry, indent);
    let front = line.drop_last();
    let name = name_text(entry.name());
    let digits = decimal(entry.ino() as nat);
    law_decimal_reads_back(entry.ino() as nat);
    let slash: Seq<char> = if entry is Dir {
        seq!['/']
    } else {
        seq![]
    };
    let blank = Seq::new(indent, |i: int| ' ');
    assert forall|i: int| 0 <= i < name.len() implies #[trigger] name[i] != '\n' by {
        assert(name.contains(name[i]));
    }
    lemma_no_line_end(blank);
    lemma_no_line_end(name);
    lemma_no_line_end(slash);
    lemma_no_line_end(seq![' ', '(']);
    assert forall|i: int| 0 <= i < digits.len() implies #[trigger] digits[i] != '\n' by {
        assert('0' <= digits[i]);
    }
    lemma_no_line_end(digits);
    lemma_no_line_end(seq![')']);
    lemma_line_ends_add_up(blank, name);
    lemma_line_ends_add_up(blank + name, slash);
    lemma_line_ends_add_up(blank + name + slash, seq![' ', '(']);
    lemma_line_ends_add_up(blank + name + slash + seq![' ', '('], digits);
    lemma_line_ends_add_up(
        blank + name + slash + seq![' ', '('] + digits,
        seq![')', '\n'],
    );
    assert(line_ends(seq![')', '\n']) == 1) by {
        reveal_with_fuel(Seq::filter, 3);
        assert(seq![')', '\n'].drop_last() =~= seq![')']);
        assert(seq![')', '\n'].last() == '\n');
    }
}

/// The entries at or below `inode`: those whose way from the root goes through it.
pub open spec fn at_or_below(m: Map<u64, EntryView>, inode: u64) -> Set<u64> {
    m.dom().filter(|k: u64| lineage(m, k).contains(inode))
}

/// The entries at or below the first `n` children of `inode`.
spec fn below_first(m: Map<u64, EntryView>, inode: u64, n: int) -> Set<u64> {
    m.dom().filter(
        |k: u64|
            exists|i: int|
                0 <= i < n && lineage(m, k).contains(#[trigger] m[inode].children()[i]),
    )
}

/// The way to an entry that goes through a child goes through its directory just before.
proof fn lemma_way_through_child(m: Map<u64, EntryView>, root: u64, inode: u64, i: int, k: u64) -> (t:
    int)
    requires
        is_tree(m, root),
        m.contains_key(inode),
        0 <= i < m[inode].children().len(),
        m.contains_key(k),
        lineage(m, k).contains(m[inode].children()[i]),
    ensures
        0 < t < lineage(m, k).len(),
        lineage(m, k)[t] == m[inode].children()[i],
        lineage(m, k)[t - 1] == inode,
        is_lineage(m, lineage(m, k)),
        lineage(m, k).last() == k,
        lineage(m, k).no_duplicates(),
{
    let c = m[inode].children()[i];
    assert(m.contains_key(c) && m[c].parent() == Some(inode));
    assert(has_lineage(m, k));
    let line = lineage(m, k);
    assert(is_lineage(m, line));
    law_lineage_does_not_repeat(m, line);
    let t = line.index_of(c);
    assert(t > 0);
    assert(m[line[t]].parent() == Some(line[t - 1]));
    t
}

/// What lies at or below an entry is the entry and what lies at or below its children, each apart.
proof fn lemma_below_is_parted(m: Map<u64, EntryView>, root: u64, inode: u64)
    requires
        is_tree(m, root),
        m.contains_key(inode),
    ensures
        at_or_below(m, inode) == below_first(m, inode, m[inode].children().len() as int).insert(inode),
        !below_first(m, inode, m[inode].children().len() as int).contains(inode),
{
    let children = m[inode].children();
    let n = children.len() as int;
    let all = at_or_below(m, inode);
    let lower = below_first(m, inode, n);
    assert(has_lineage(m, inode));
    assert(is_lineage(m, lineage(m, inode)));
    assert forall|k: u64| all.contains(k) implies lower.insert(inode).contains(k) by {
        assert(has_lineage(m, k));
        let line = lineage(m, k);
        assert(is_lineage(m, line));
        if k != inode {
            let t = line.index_of(inode);
            let c = line[t + 1];
            assert(m[line[t + 1]].parent() == Some(line[t]));
            assert(m.contains_key(line[t + 1]));
            assert(m[inode].children().contains(c));
            let i = children.index_of(c);
            assert(lineage(m, k).contains(m[inode].children()[i]));
        }
    }
    assert forall|k: u64| lower.insert(inode).contains(k) implies all.contains(k) by {
        if lower.contains(k) {
            let i = choose|i: int|
                0 <= i < n && lineage(m, k).contains(#[trigger] m[inode].children()[i]);
            let t = lemma_way_through_child(m, root, inode, i, k);
            assert(lineage(m, k).contains(lineage(m, k)[t - 1]));
        } else {
            assert(lineage(m, inode).contains(lineage(m, inode).last()));
        }
    }
    assert(all =~= lower.insert(inode));
    if lower.contains(inode) {
        let i = choose|i: int|
            0 <= i < n && lineage(m, inode).contains(#[trigger] m[inode].children()[i]);
        let t = lemma_way_through_child(m, root, inode, i, inode);
        let line = lineage(m, inode);
        assert(line[t - 1] == line[line.len() - 1]);
    }
}

/// What lies at or below one child does not lie at or below another.
proof fn lemma_children_are_apart(m: Map<u64, EntryView>, root: u64, inode: u64, n: int)
    requires
        is_tree(m, root),
        m.contains_key(inode),
        0 <= n < m[inode].children().len(),
    ensures
        below_first(m, inode, n + 1) == below_first(m, inode, n).union(
            at_or_below(m, m[inode].children()[n]),
        ),
        below_first(m, inode, n).disjoint(at_or_below(m, m[inode].children()[n])),
{
    let children = m[inode].children();
    let first = below_first(m, inode, n);
    let next = at_or_below(m, children[n]);
    assert forall|k: u64| below_first(m, inode, n + 1).contains(k) implies first.union(
        next,
    ).contains(k) by {
        let i = choose|i: int|
            0 <= i < n + 1 && lineage(m, k).contains(#[trigger] m[inode].children()[i]);
        if i < n {
            assert(lineage(m, k).contains(m[inode].children()[i]));
        }
    }
    assert forall|k: u64| first.union(next).contains(k) implies below_first(
        m,
        inode,
        n + 1,
    ).contains(k) by {
        if first.contains(k) {
            let i = choose|i: int|
                0 <= i < n && lineage(m, k).contains(#[trigger] m[inode].children()[i]);
            assert(lineage(m, k).contains(m[inode].children()[i]));
        } else {
            assert(lineage(m, k).contains(m[inode].children()[n]));
        }
    }
    assert(below_first(m, inode, n + 1) =~= first.union(next));
    assert forall|k: u64| !(first.contains(k) && next.contains(k)) by {
        if first.contains(k) && next.contains(k) {
            let i = choose|i: int|
                0 <= i < n && lineage(m, k).contains(#[trigger] m[inode].children()[i]);
            let t = lemma_way_through_child(m, root, inode, i, k);
            let u = lemma_way_through_child(m, root, inode, n, k);
            assert(t - 1 == u - 1);
            assert(m[m[inode].children()[i]].name() != m[m[inode].children()[n]].name());
        }
    }
}

/// The lines for an entry of a tree and for what lies below it.
proof fn lemma_lines_count(m: Map<u64, EntryView>, root: u64, inode: u64, indent: nat, depth: nat)
    requires
        m.dom().finite(),
        is_tree(m, root),
        fits(m, inode, depth),
        forall|k: u64| #[trigger] m.contains_key(k) ==> !name_text(m[k].name()).contains('\n'),
    ensures
        line_ends(rendered(m, inode, indent, depth)) == at_or_below(m, inode).len(),
    decreases depth, 0nat,
{
    let children = m[inode].children();
    let n = children.len() as int;
    let below = (depth - 1) as nat;
    let line = line_of(m[inode], indent);
    assert(m.contains_key(inode));
    assert(entry_line(
        spaces(indent),
        name_text(m[inode].name()),
        m[inode] is Dir,
        m[inode].ino(),
    ) =~= line);
    assert forall|i: int| 0 <= i < children.len() implies fits(m, #[trigger] children[i], below) by {
        assert(fits(m, m[inode].children()[i], below));
    }
    lemma_lines_of_children_count(m, root, inode, n, indent + 2, below);
    assert(children.take(n) =~= children);
    lemma_line_ends_once(m[inode], indent);
    lemma_line_ends_add_up(line, rendered_all(m, children, indent + 2, below));
    lemma_below_is_parted(m, root, inode);
    vstd::set_lib::lemma_len_subset(below_first(m, inode, n), m.dom());
}

proof fn lemma_lines_of_children_count(
    m: Map<u64, EntryView>,
    root: u64,
    inode: u64,
    n: int,
    indent: nat,
    depth: nat,
)
    requires
        m.dom().finite(),
        is_tree(m, root),
        m.contains_key(inode),
        0 <= n <= m[inode].children().len(),
        forall|i: int|
            0 <= i < m[inode].children().len() ==> fits(
                m,
                #[trigger] m[inode].children()[i],
                depth,
            ),
        forall|k: u64| #[trigger] m.contains_key(k) ==> !name_text(m[k].name()).contains('\n'),
    ensures
        line_ends(rendered_all(m, m[inode].children().take(n), indent, depth)) == below_first(
            m,
            inode,
            n,
        ).len(),
    decreases depth, n + 1,
{
    let children = m[inode].children();
    if n == 0 {
        assert(below_first(m, inode, 0) =~= Set::empty());
        reveal(Seq::filter);
    } else {
        lemma_lines_of_children_count(m, root, inode, n - 1, indent, depth);
        assert(fits(m, m[inode].children()[n - 1], depth));
        lemma_lines_count(m, root, children[n - 1], indent, depth);
        assert(children.take(n).drop_last() =~= children.take(n - 1));
        assert(children.take(n).last() == children[n - 1]);
        lemma_line_ends_add_up(
            rendered_all(m, children.take(n - 1), indent, depth),
            rendered(m, children[n - 1], indent, depth),
        );
        lemma_children_are_apart(m, root, inode, n - 1);
        vstd::set_lib::lemma_len_subset(below_first(m, inode, n - 1), m.dom());
        vstd::set_lib::lemma_len_subset(at_or_below(m, children[n - 1]), m.dom());
        vstd::set_lib::lemma_set_disjoint_lens(
            below_first(m, inode, n - 1),
            at_or_below(m, children[n - 1]),
        );
    }
}

/// The text of a tree has exactly one line for every entry at or below the one that it starts from,
/// where names hold no line ends; from the root on, one for every entry that there is.
pub proof fn law_text_has_a_line_for_every_entry(
    m: Map<u64, EntryView>,
    root: u64,
    inode: u64,
    indent: nat,
)
    requires
        m.dom().finite(),
        is_tree(m, root),
        m.contains_key(inode),
        forall|k: u64| #[trigger] m.contains_key(k) ==> !name_text(m[k].name()).contains('\n'),
    ensures
        line_ends(tree_text(m, inode, indent)) == at_or_below(m, inode).len(),
        inode == root ==> line_ends(tree_text(m, inode, indent)) == m.dom().len(),
{
    law_tree_can_be_written_out(m, root, inode);
    lemma_lines_count(m, root, inode, indent, m.dom().len());
    if inode == root {
        assert forall|k: u64| m.dom().contains(k) implies at_or_below(m, root).contains(k) by {
            assert(has_lineage(m, k));
            assert(is_lineage(m, lineage(m, k)));
            assert(lineage(m, k).contains(lineage(m, k)[0]));
        }
        assert(at_or_below(m, root) =~= m.dom());
    }
}

} // verus!
