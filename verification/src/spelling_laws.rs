//! How the bytes of a path spell its components, and how paths stand in order, byte by byte.
use vstd::prelude::*;
use crate::events::sorted_paths;
use crate::path::{
    bytes_before, closed_spans, components, components_ordered, is_absolute_path, last_name,
    lemma_spans_ascend, lemma_spans_in_range, path_of, path_ordered, path_starts_with, pushed,
    relative_to, segment_start, spans,
};
use crate::path_laws::{
    is_plain_name, law_path_order_is_transitive, law_push_name, law_strip_prefix_drops_components,
    lemma_closing_separator, lemma_components_behind_separator, lemma_no_separator,
    lemma_plain_name_is_one_component, lemma_reading_is_local,
};

verus! {

/// What holds no `/` is its own single component; what holds nothing has none.
pub proof fn law_segment_is_one_component(segment: Seq<u8>)
    requires
        !segment.contains(47u8),
    ensures
        segment.len() == 0 ==> components(segment).len() == 0,
        segment.len() > 0 ==> components(segment) == seq![segment],
{
    let n = segment.len() as int;
    lemma_no_separator(segment, n);
    if n > 0 {
        assert(spans(segment) =~= seq![(0int, n)]);
        assert(segment.subrange(0, n) =~= segment);
        assert(components(segment) =~= seq![segment]);
    } else {
        assert(spans(segment) =~= Seq::empty());
    }
}

/// What follows the last `/` of a path is one more component of what stands before, but for nothing
/// and for a single `.`, which leave no trace. Where nothing stands before, the `/` is the root.
/// Together with what a single segment spells, this settles the components of every path.
pub proof fn law_slash_parts_components(front: Seq<u8>, segment: Seq<u8>)
    requires
        !segment.contains(47u8),
    ensures
        ({
            let before = if front.len() == 0 {
                seq![seq![47u8]]
            } else {
                components(front)
            };
            components(front.push(47u8) + segment) == if segment.len() == 0 || segment == seq![46u8] {
                before
            } else {
                before.push(segment)
            }
        }),
{
    let base = front.push(47u8);
    let n = base.len() as int;
    let before = components(base);
    if front.len() == 0 {
        reveal_with_fuel(closed_spans, 2);
        assert(closed_spans(base, 1) =~= seq![(0int, 1int)]);
        assert(segment_start(base, 1) == 1);
        assert(spans(base) =~= seq![(0int, 1int)]);
        assert(base.subrange(0, 1) =~= seq![47u8]);
        assert(before =~= seq![seq![47u8]]);
    } else {
        lemma_closing_separator(front);
    }
    let whole = base + segment;
    if segment.len() == 0 {
        assert(whole =~= base);
    } else if segment == seq![46u8] {
        lemma_reading_is_local(base, whole, n);
        assert(whole[n] == 46u8);
        assert(segment_start(whole, n) == n);
        assert(segment_start(whole, n + 1) == n);
        assert(closed_spans(whole, n + 1) == closed_spans(base, n));
        assert(spans(base) =~= closed_spans(base, n));
        assert(spans(whole) =~= spans(base));
        lemma_spans_in_range(base);
        assert forall|i: int| 0 <= i < before.len() implies #[trigger] components(whole)[i]
            == before[i] by {
            assert(0 <= spans(base)[i].0);
            assert(components(whole)[i] =~= before[i]);
        }
        assert(components(whole) =~= before);
    } else {
        lemma_plain_name_is_one_component(segment);
        lemma_components_behind_separator(base, segment);
        assert(before + seq![segment] =~= before.push(segment));
    }
}

/// A path is absolute where it opens with `/`.
pub proof fn law_absolute_path_opens_with_slash(p: Seq<u8>)
    ensures
        is_absolute_path(p) <==> p.len() > 0 && p.first() == 47u8,
{
}

/// Pushing puts the one path behind the other, with a single `/` in between where the first has
/// something and does not end in one. What opens with `/` stands for itself.
pub proof fn law_push_puts_behind(p: Seq<u8>, q: Seq<u8>)
    ensures
        q.len() > 0 && q[0] == 47u8 ==> pushed(p, q) == q,
        !(q.len() > 0 && q[0] == 47u8) ==> {
            let between = pushed(p, q).len() - p.len() - q.len();
            &&& between == 0 || between == 1
            &&& between == 1 <==> p.len() > 0 && p.last() != 47u8
            &&& pushed(p, q).take(p.len() as int) == p
            &&& pushed(p, q).skip(p.len() + between) == q
            &&& between == 1 ==> pushed(p, q)[p.len() as int] == 47u8
        },
{
    let between = pushed(p, q).len() - p.len() - q.len();
    if !(q.len() > 0 && q[0] == 47u8) {
        assert(pushed(p, q).take(p.len() as int) =~= p);
        assert(pushed(p, q).skip(p.len() + between) =~= q);
    }
}

/// A name that is pushed is the last name.
pub proof fn law_pushed_name_is_last(p: Seq<u8>, name: Seq<u8>)
    requires
        is_plain_name(name),
        name != seq![46u8, 46u8],
    ensures
        last_name(pushed(p, name)) == Some(name),
{
    law_push_name(p, name);
    assert(name != seq![47u8]) by {
        if name == seq![47u8] {
            assert(name[0] == 47u8);
            assert(name.contains(name[0]));
        }
    }
}

/// The last name of a path is its last component, where that is not the root, `.` or `..`.
pub proof fn law_last_name_is_last_component(p: Seq<u8>, name: Seq<u8>)
    ensures
        last_name(p) == Some(name) <==> {
            &&& components(p).len() > 0
            &&& components(p).last() == name
            &&& name != seq![47u8]
            &&& name != seq![46u8]
            &&& name != seq![46u8, 46u8]
        },
        last_name(p) is None <==> components(p).len() == 0 || components(p).last() == seq![47u8]
            || components(p).last() == seq![46u8] || components(p).last() == seq![46u8, 46u8],
{
}

/// One path lies at or below another where the components of the other open its own, one by one.
pub proof fn law_containment_goes_by_components(p: Seq<u8>, base: Seq<u8>)
    ensures
        path_starts_with(p, base) <==> {
            &&& components(base).len() <= components(p).len()
            &&& forall|i: int|
                0 <= i < components(base).len() ==> #[trigger] components(p)[i] == components(base)[i]
        },
        path_starts_with(p, base) <==> relative_to(p, base) is Some,
{
    let a = components(base);
    let b = components(p);
    if a.len() <= b.len() && forall|i: int| 0 <= i < a.len() ==> #[trigger] b[i] == a[i] {
        assert(a =~= b.subrange(0, a.len() as int));
    }
    if a.is_prefix_of(b) {
        assert forall|i: int| 0 <= i < a.len() implies #[trigger] b[i] == a[i] by {
            assert(b.subrange(0, a.len() as int)[i] == b[i]);
        }
    }
}

/// A path relative to a base is a stretch of the path's own bytes, from where the first component
/// that the base lacks begins to where the last one ends. Nothing is left where it lacks none.
pub proof fn law_relative_path_is_cut_out(p: Seq<u8>, base: Seq<u8>)
    requires
        relative_to(p, base) is Some,
    ensures
        ({
            let rest = relative_to(p, base)->0;
            let lacking = components(p).skip(components(base).len() as int);
            &&& components(rest) == lacking
            &&& lacking.len() == 0 ==> rest.len() == 0
            &&& lacking.len() > 0 ==> {
                &&& lacking.first().is_prefix_of(rest)
                &&& lacking.last().is_suffix_of(rest)
                &&& exists|at: int|
                    0 <= at <= p.len() - rest.len() && rest == #[trigger] p.subrange(
                        at,
                        at + rest.len(),
                    )
            }
        }),
{
    let rest = relative_to(p, base)->0;
    let k = components(base).len() as int;
    let lacking = components(p).skip(k);
    law_strip_prefix_drops_components(p, base);
    law_containment_goes_by_components(p, base);
    if lacking.len() > 0 {
        let all = spans(p);
        let last = all.len() - 1;
        lemma_spans_in_range(p);
        lemma_spans_ascend(p, k, last);
        assert(0 <= all[k].0);
        assert(0 <= all[last].0);
        let at = all[k].0;
        let end = all[last].1;
        assert(rest == p.subrange(at, end));
        assert(all[k].1 <= end);
        assert(lacking.first() == p.subrange(at, all[k].1));
        assert(lacking.last() == p.subrange(all[last].0, end));
        assert(lacking.first() =~= rest.subrange(0, lacking.first().len() as int));
        assert(lacking.last() =~= rest.subrange(
            rest.len() - lacking.last().len(),
            rest.len() as int,
        ));
        assert(rest =~= p.subrange(at, at + rest.len()));
    }
}

/// Names are joined by single slashes.
pub proof fn law_names_are_joined_by_slashes(names: Seq<Seq<u8>>, name: Seq<u8>)
    requires
        forall|i: int| 0 <= i < names.len() ==> is_plain_name(#[trigger] names[i]),
        is_plain_name(name),
    ensures
        names.len() == 0 ==> path_of(names).len() == 0 && path_of(names.push(name)) == name,
        names.len() > 0 ==> path_of(names.push(name)) == path_of(names).push(47u8) + name,
{
    lemma_plain_name_is_one_component(name);
    assert(names.push(name).drop_last() =~= names);
    if names.len() == 0 {
        assert(path_of(names) + name =~= name);
    } else {
        lemma_path_of_names_ends_in_one(names);
    }
}

/// A path made of names ends in the last of them.
proof fn lemma_path_of_names_ends_in_one(names: Seq<Seq<u8>>)
    requires
        forall|i: int| 0 <= i < names.len() ==> is_plain_name(#[trigger] names[i]),
        names.len() > 0,
    ensures
        path_of(names).len() > 0,
        path_of(names).last() != 47u8,
{
    let name = names[names.len() - 1];
    assert(is_plain_name(name));
    lemma_plain_name_is_one_component(name);
    assert(path_of(names).last() == name.last());
    assert(name.contains(name.last()));
}

/// The first difference between two byte strings decides which stands before the other.
proof fn lemma_bytes_first_difference(a: Seq<u8>, b: Seq<u8>, n: int)
    requires
        0 <= n <= a.len(),
        n <= b.len(),
        a.take(n) == b.take(n),
        n < a.len() && n < b.len() ==> a[n] != b[n],
    ensures
        bytes_before(a, b) <==> n < b.len() && (n == a.len() || a[n] < b[n]),
    decreases n,
{
    if n > 0 {
        assert(a[0] == a.take(n)[0]);
        assert(b[0] == b.take(n)[0]);
        assert(a.drop_first().take(n - 1) =~= b.drop_first().take(n - 1)) by {
            assert forall|i: int| 0 <= i < n - 1 implies a.drop_first()[i] == b.drop_first()[i] by {
                assert(a.take(n)[i + 1] == a[i + 1]);
                assert(b.take(n)[i + 1] == b[i + 1]);
            }
        }
        lemma_bytes_first_difference(a.drop_first(), b.drop_first(), n - 1);
    }
}

/// The first difference between two lists of components decides which stands before the other.
proof fn lemma_components_first_difference(a: Seq<Seq<u8>>, b: Seq<Seq<u8>>, n: int)
    requires
        0 <= n <= a.len(),
        n <= b.len(),
        a.take(n) == b.take(n),
        n < a.len() && n < b.len() ==> a[n] != b[n],
    ensures
        n == a.len() ==> components_ordered(a, b),
        n < a.len() && n == b.len() ==> !components_ordered(a, b),
        n < a.len() && n < b.len() ==> components_ordered(a, b) == components_ordered(
            seq![a[n]],
            seq![b[n]],
        ),
    decreases n,
{
    if n > 0 {
        assert(a[0] == a.take(n)[0]);
        assert(b[0] == b.take(n)[0]);
        assert(a.drop_first().take(n - 1) =~= b.drop_first().take(n - 1)) by {
            assert forall|i: int| 0 <= i < n - 1 implies a.drop_first()[i] == b.drop_first()[i] by {
                assert(a.take(n)[i + 1] == a[i + 1]);
                assert(b.take(n)[i + 1] == b[i + 1]);
            }
        }
        lemma_components_first_difference(a.drop_first(), b.drop_first(), n - 1);
    }
}

/// A path may stand before every path that lies below it, and before none that it lies below.
pub proof fn law_directory_stands_before_its_contents(p: Seq<u8>, below: Seq<u8>)
    requires
        components(p).len() < components(below).len(),
        components(below).take(components(p).len() as int) == components(p),
    ensures
        path_ordered(p, below),
        !path_ordered(below, p),
{
    let n = components(p).len() as int;
    assert(components(p).take(n) =~= components(p));
    lemma_components_first_difference(components(p), components(below), n);
    lemma_components_first_difference(components(below), components(p), n);
}

/// Where two paths agree up to component `n` and have different names there, which may stand before
/// the other is decided by the first byte in which these names differ, the lower one first; a name
/// stands before those that extend it.
pub proof fn law_names_stand_in_dictionary_order(p: Seq<u8>, q: Seq<u8>, n: int, k: int)
    requires
        0 <= n < components(p).len(),
        n < components(q).len(),
        components(p).take(n) == components(q).take(n),
        ({
            let a = components(p)[n];
            let b = components(q)[n];
            &&& a != seq![47u8] && a != seq![46u8] && a != seq![46u8, 46u8]
            &&& b != seq![47u8] && b != seq![46u8] && b != seq![46u8, 46u8]
            &&& a != b
            &&& 0 <= k <= a.len() && k <= b.len()
            &&& a.take(k) == b.take(k)
            &&& k < a.len() && k < b.len() ==> a[k] != b[k]
        }),
    ensures
        ({
            let a = components(p)[n];
            let b = components(q)[n];
            path_ordered(p, q) <==> k == a.len() || (k < b.len() && a[k] < b[k])
        }),
{
    let a = components(p)[n];
    let b = components(q)[n];
    lemma_components_first_difference(components(p), components(q), n);
    lemma_bytes_first_difference(a, b, k);
    assert(seq![a][0] == a && seq![b][0] == b);
    if k == a.len() && k == b.len() {
        assert(a.take(k) =~= a && b.take(k) =~= b);
    }
}

/// Where two paths agree up to component `n` and differ there in kind, the root stands before `.`,
/// `.` before `..`, and `..` before any name.
pub proof fn law_kinds_stand_in_order(p: Seq<u8>, q: Seq<u8>, n: int)
    requires
        0 <= n < components(p).len(),
        n < components(q).len(),
        components(p).take(n) == components(q).take(n),
        components(p)[n] != components(q)[n],
    ensures
        ({
            let a = components(p)[n];
            let b = components(q)[n];
            let root = seq![47u8];
            let here = seq![46u8];
            let up = seq![46u8, 46u8];
            &&& a == root ==> path_ordered(p, q)
            &&& a == here && b != root ==> path_ordered(p, q)
            &&& a == up && b != root && b != here ==> path_ordered(p, q)
            &&& b == root ==> !path_ordered(p, q)
            &&& b == here && a != root ==> !path_ordered(p, q)
            &&& b == up && a != root && a != here ==> !path_ordered(p, q)
        }),
{
    let a = components(p)[n];
    let b = components(q)[n];
    lemma_components_first_difference(components(p), components(q), n);
    assert(seq![a][0] == a && seq![b][0] == b);
    let root = seq![47u8];
    let here = seq![46u8];
    let up = seq![46u8, 46u8];
    assert(root[0] == 47u8 && here[0] == 46u8 && up[0] == 46u8);
    assert(root.len() == 1 && here.len() == 1 && up.len() == 2);
}

/// Paths are sorted where each may stand before the next one.
pub proof fn law_sorted_paths_stand_in_order(paths: Seq<Seq<u8>>)
    ensures
        sorted_paths(paths) <==> forall|i: int|
            #![trigger paths[i]]
            0 <= i < paths.len() - 1 ==> path_ordered(paths[i], paths[i + 1]),
{
    if forall|i: int|
        #![trigger paths[i]]
        0 <= i < paths.len() - 1 ==> path_ordered(paths[i], paths[i + 1]) {
        assert forall|i: int, j: int|
            #![trigger paths[i], paths[j]]
            0 <= i < j < paths.len() implies path_ordered(paths[i], paths[j]) by {
            lemma_stands_before(paths, i, j);
        }
    }
    if sorted_paths(paths) {
        assert forall|i: int| #![trigger paths[i]] 0 <= i < paths.len() - 1 implies path_ordered(
            paths[i],
            paths[i + 1],
        ) by {
            let j = i + 1;
            assert(path_ordered(paths[i], paths[j]));
        }
    }
}

proof fn lemma_stands_before(paths: Seq<Seq<u8>>, i: int, j: int)
    requires
        forall|i: int|
            #![trigger paths[i]]
            0 <= i < paths.len() - 1 ==> path_ordered(paths[i], paths[i + 1]),
        0 <= i < j < paths.len(),
    ensures
        path_ordered(paths[i], paths[j]),
    decreases j - i,
{
    assert(path_ordered(paths[j - 1], paths[j - 1 + 1]));
    if i < j - 1 {
        lemma_stands_before(paths, i, j - 1);
        law_path_order_is_transitive(paths[i], paths[j - 1], paths[j]);
    }
}

} // verus!
