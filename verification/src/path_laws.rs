//! What holds of paths in general: how the components of a path follow from those of its parts,
//! and how sorted lists of paths are laid out.
use vstd::prelude::*;
use crate::path::{
    bytes_before, closed_spans, component_before, components, components_ordered, is_absolute_path,
    is_component, kind_rank, lemma_closed_spans_in_range, lemma_spans_ascend, lemma_spans_in_range,
    path_from, path_of, path_ordered, path_starts_with, pushed, relative_to, segment_start, spans,
    DOT, SEPARATOR,
};

verus! {

/// Whether `name` can name a file or directory: it is not empty, holds no separator, and is not
/// the current directory.
pub open spec fn is_plain_name(name: Seq<u8>) -> bool {
    &&& name.len() > 0
    &&& !name.contains(SEPARATOR)
    &&& name != seq![DOT]
}

/// Whether the first segment of `q` is `.`.
pub open spec fn opens_with_dot(q: Seq<u8>) -> bool {
    q.len() > 0 && q[0] == DOT && (q.len() == 1 || q[1] == SEPARATOR)
}

/// Spans, moved to the right by `by` bytes.
pub open spec fn shifted(s: Seq<(int, int)>, by: int) -> Seq<(int, int)> {
    Seq::new(s.len(), |i: int| (s[i].0 + by, s[i].1 + by))
}

/// The first `n` bytes decide what is read from them.
pub proof fn lemma_reading_is_local(p: Seq<u8>, q: Seq<u8>, n: int)
    requires
        0 <= n <= p.len(),
        n <= q.len(),
        forall|i: int| 0 <= i < n ==> p[i] == q[i],
    ensures
        segment_start(p, n) == segment_start(q, n),
        closed_spans(p, n) == closed_spans(q, n),
    decreases n,
{
    if n > 0 {
        lemma_reading_is_local(p, q, n - 1);
        lemma_closed_spans_in_range(p, n - 1);
    }
}

/// Behind a separator, `q` is read as if it stood alone.
proof fn lemma_reading_behind_separator(p: Seq<u8>, q: Seq<u8>, n: int)
    requires
        p.len() > 0,
        p.last() == SEPARATOR,
        !is_absolute_path(q),
        !opens_with_dot(q),
        0 <= n <= q.len(),
    ensures
        segment_start(p + q, p.len() + n) == p.len() + segment_start(q, n),
        closed_spans(p + q, p.len() + n) == closed_spans(p + q, p.len() as int) + shifted(
            closed_spans(q, n),
            p.len() as int,
        ),
    decreases n,
{
    let whole = p + q;
    let by = p.len() as int;
    if n == 0 {
        assert(closed_spans(whole, by + 0) =~= closed_spans(whole, by) + shifted(
            closed_spans(q, 0),
            by,
        ));
    } else {
        lemma_reading_behind_separator(p, q, n - 1);
        lemma_closed_spans_in_range(q, n - 1);
        assert(whole[by + n - 1] == q[n - 1]);
        if q[n - 1] == SEPARATOR {
            lemma_segment_start_is_after_separator(q, n - 1);
            let a = segment_start(q, n - 1);
            let b = n - 1;
            if a < b {
                assert(whole[by + a] == q[a]);
                assert(is_component(whole, by + a, by + b) == is_component(q, a, b));
            }
        }
        assert(closed_spans(whole, by + n) =~= closed_spans(whole, by) + shifted(
            closed_spans(q, n),
            by,
        ));
    }
}

proof fn lemma_segment_start_is_after_separator(p: Seq<u8>, n: int)
    requires
        0 <= n <= p.len(),
    ensures
        0 <= segment_start(p, n) <= n,
        segment_start(p, n) > 0 ==> p[segment_start(p, n) - 1] == SEPARATOR,
        forall|i: int| segment_start(p, n) <= i < n ==> p[i] != SEPARATOR,
    decreases n,
{
    if n > 0 {
        lemma_segment_start_is_after_separator(p, n - 1);
    }
}

/// Behind a separator, the components of `q` follow those of what stands before.
pub proof fn lemma_components_behind_separator(p: Seq<u8>, q: Seq<u8>)
    requires
        p.len() > 0,
        p.last() == SEPARATOR,
        !is_absolute_path(q),
        !opens_with_dot(q),
    ensures
        spans(p + q) == spans(p) + shifted(spans(q), p.len() as int),
        components(p + q) == components(p) + components(q),
{
    let whole = p + q;
    let by = p.len() as int;
    let n = q.len() as int;
    lemma_reading_behind_separator(p, q, n);
    lemma_reading_is_local(p, whole, by);
    lemma_segment_start_is_after_separator(q, n);
    let a = segment_start(q, n);
    if a < n {
        assert(whole[by + a] == q[a]);
        assert(is_component(whole, by + a, by + n) == is_component(q, a, n));
    }
    assert(spans(p) =~= closed_spans(p, by));
    assert(spans(whole) =~= spans(p) + shifted(spans(q), by));
    lemma_spans_in_range(p);
    lemma_spans_in_range(q);
    let left = components(p);
    let right = components(q);
    assert forall|i: int| 0 <= i < components(whole).len() implies #[trigger] components(whole)[i]
        == (left + right)[i] by {
        if i < left.len() {
            assert(spans(whole)[i] == spans(p)[i]);
            assert(0 <= spans(p)[i].0);
            assert(components(whole)[i] =~= left[i]);
        } else {
            let j = i - left.len();
            assert(spans(whole)[i] == shifted(spans(q), by)[j]);
            assert(0 <= spans(q)[j].0);
            assert(components(whole)[i] =~= right[j]);
        }
    }
    assert(components(whole) =~= left + right);
}

/// A separator at the end leaves no trace.
pub proof fn lemma_closing_separator(p: Seq<u8>)
    requires
        p.len() > 0,
    ensures
        spans(p.push(SEPARATOR)) == spans(p),
        components(p.push(SEPARATOR)) == components(p),
{
    let n = p.len() as int;
    let q = p.push(SEPARATOR);
    lemma_reading_is_local(p, q, n);
    lemma_closed_spans_in_range(p, n);
    assert(closed_spans(q, n + 1) == spans(p));
    assert(segment_start(q, n + 1) == n + 1);
    lemma_spans_in_range(p);
    assert forall|i: int| 0 <= i < components(p).len() implies #[trigger] components(q)[i]
        == components(p)[i] by {
        assert(0 <= spans(p)[i].0);
        assert(components(q)[i] =~= components(p)[i]);
    }
    assert(components(q) =~= components(p));
}

/// Pushing a relative path that does not open with `.` appends its components.
pub proof fn law_push_appends_components(p: Seq<u8>, q: Seq<u8>)
    requires
        !is_absolute_path(q),
        !opens_with_dot(q),
    ensures
        components(pushed(p, q)) == components(p) + components(q),
{
    if p.len() == 0 {
        assert(p + q =~= q);
        assert(spans(p) =~= Seq::empty());
        assert(components(p) + components(q) =~= components(q));
    } else if p.last() == SEPARATOR {
        lemma_components_behind_separator(p, q);
    } else {
        lemma_closing_separator(p);
        lemma_components_behind_separator(p.push(SEPARATOR), q);
    }
}

/// A plain name has one component, itself.
pub proof fn lemma_plain_name_is_one_component(name: Seq<u8>)
    requires
        is_plain_name(name),
    ensures
        components(name) == seq![name],
        !is_absolute_path(name),
        !opens_with_dot(name),
{
    let n = name.len() as int;
    lemma_no_separator(name, n);
    assert(spans(name) =~= seq![(0int, n)]);
    assert(name.subrange(0, n) =~= name);
    assert(components(name) =~= seq![name]);
    assert(name.contains(name[0]));
    if n == 1 && name[0] == DOT {
        assert(name =~= seq![DOT]);
    }
    if n > 1 {
        assert(name.contains(name[1]));
    }
}

pub proof fn lemma_no_separator(name: Seq<u8>, n: int)
    requires
        0 <= n <= name.len(),
        !name.contains(SEPARATOR),
    ensures
        segment_start(name, n) == 0,
        closed_spans(name, n) == Seq::<(int, int)>::empty(),
    decreases n,
{
    if n > 0 {
        lemma_no_separator(name, n - 1);
        assert(name.contains(name[n - 1]));
    }
}

/// Pushing a path that is not absolute stays at or below the directory, and pushing an empty one
/// stays there.
pub proof fn law_push_stays_below(p: Seq<u8>, q: Seq<u8>)
    requires
        !is_absolute_path(q),
    ensures
        path_starts_with(pushed(p, q), p),
        q.len() == 0 ==> components(pushed(p, q)) == components(p),
{
    let whole = pushed(p, q);
    if p.len() == 0 {
        assert(p + q =~= q);
        assert(components(p) =~= Seq::empty());
        assert(components(p).is_prefix_of(components(whole)));
        if q.len() == 0 {
            assert(whole =~= p);
        }
    } else {
        let base = if p.last() != SEPARATOR {
            p.push(SEPARATOR)
        } else {
            p
        };
        if p.last() != SEPARATOR {
            lemma_closing_separator(p);
        }
        assert(whole == base + q);
        let n = base.len() as int;
        assert(spans(base) =~= closed_spans(base, n));
        lemma_reading_is_local(whole, base, n);
        lemma_reading_extends(whole, n, whole.len() as int);
        let mine = spans(base);
        let all = spans(whole);
        assert(mine.is_prefix_of(all)) by {
            let closed = closed_spans(whole, whole.len() as int);
            assert forall|i: int| 0 <= i < mine.len() implies mine[i] == all[i] by {
                assert(mine[i] == closed.subrange(0, mine.len() as int)[i]);
            }
            assert(mine =~= all.subrange(0, mine.len() as int));
        }
        lemma_spans_in_range(base);
        let a = components(base);
        let b = components(whole);
        assert forall|i: int| 0 <= i < a.len() implies a[i] == b[i] by {
            assert(mine[i] == all.subrange(0, mine.len() as int)[i]);
            assert(base.subrange(mine[i].0, mine[i].1) =~= whole.subrange(all[i].0, all[i].1));
        }
        assert(a =~= b.subrange(0, a.len() as int));
        if q.len() == 0 {
            assert(whole =~= base);
        }
    }
}

/// Pushing the name of a file or directory adds one component, that name.
pub proof fn law_push_name(p: Seq<u8>, name: Seq<u8>)
    requires
        is_plain_name(name),
    ensures
        components(pushed(p, name)) == components(p).push(name),
{
    lemma_plain_name_is_one_component(name);
    law_push_appends_components(p, name);
    assert(components(p) + seq![name] =~= components(p).push(name));
}

/// The path built from a list of names has just these names as its components.
pub proof fn law_path_of_names(names: Seq<Seq<u8>>)
    requires
        forall|i: int| 0 <= i < names.len() ==> is_plain_name(#[trigger] names[i]),
    ensures
        components(path_of(names)) == names,
    decreases names.len(),
{
    if names.len() == 0 {
        assert(spans(path_of(names)) =~= Seq::empty());
        assert(components(path_of(names)) =~= names);
    } else {
        law_path_of_names(names.drop_last());
        law_push_name(path_of(names.drop_last()), names.last());
        assert(names.drop_last().push(names.last()) =~= names);
    }
}

/// Every span but the root's runs from a segment's start to its end, and is a component.
proof fn lemma_closed_span_is_segment(p: Seq<u8>, n: int, i: int)
    requires
        0 <= n <= p.len(),
        0 <= i < closed_spans(p, n).len(),
    ensures
        ({
            let (a, b) = closed_spans(p, n)[i];
            ||| (i == 0 && a == 0 && b == 1 && is_absolute_path(p))
            ||| {
                &&& a == segment_start(p, b)
                &&& is_component(p, a, b)
                &&& b < n
                &&& p[b] == SEPARATOR
            }
        }),
    decreases n,
{
    if n > 0 {
        if i < closed_spans(p, n - 1).len() {
            lemma_closed_span_is_segment(p, n - 1, i);
        }
    }
}

proof fn lemma_span_is_segment(p: Seq<u8>, i: int)
    requires
        0 <= i < spans(p).len(),
    ensures
        ({
            let (a, b) = spans(p)[i];
            ||| (i == 0 && a == 0 && b == 1 && is_absolute_path(p))
            ||| {
                &&& a == segment_start(p, b)
                &&& is_component(p, a, b)
                &&& b == p.len() || p[b] == SEPARATOR
            }
        }),
{
    if i < closed_spans(p, p.len() as int).len() {
        lemma_closed_span_is_segment(p, p.len() as int, i);
    }
}

/// What is read from more bytes extends what is read from fewer.
proof fn lemma_reading_extends(p: Seq<u8>, m: int, n: int)
    requires
        0 <= m <= n <= p.len(),
    ensures
        closed_spans(p, m).is_prefix_of(closed_spans(p, n)),
    decreases n - m,
{
    if m < n {
        lemma_reading_extends(p, m, n - 1);
        let small = closed_spans(p, m);
        let mid = closed_spans(p, n - 1);
        let big = closed_spans(p, n);
        if n == 1 {
            assert(m == 0);
        } else {
            assert(big.len() >= mid.len());
            assert(mid =~= big.subrange(0, mid.len() as int));
        }
        assert(small =~= big.subrange(0, small.len() as int));
    } else {
        assert(closed_spans(p, m) =~= closed_spans(p, n).subrange(
            0,
            closed_spans(p, m).len() as int,
        ));
    }
}

/// What lies behind the last component can be cut off.
proof fn lemma_trim_end(q: Seq<u8>)
    requires
        spans(q).len() > 0,
    ensures
        components(q.subrange(0, spans(q).last().1)) == components(q),
{
    lemma_spans_in_range(q);
    let last = spans(q).len() - 1;
    let (a, e) = spans(q)[last];
    assert(0 <= spans(q)[last].0);
    lemma_span_is_segment(q, last);
    let t = q.subrange(0, e);
    lemma_reading_is_local(q, t, e);
    assert(a < e);
    assert(t[a] == q[a]);
    let n = q.len() as int;
    if last == 0 && is_absolute_path(q) {
        lemma_reading_extends(q, 1, n);
        assert(closed_spans(q, 1) == seq![(0int, 1int)]);
        assert(closed_spans(q, n).subrange(0, 1)[0] == (0int, 1int));
        assert(spans(t) =~= spans(q));
        assert(components(t)[0] =~= components(q)[0]);
        assert(components(t) =~= components(q));
    } else {
        let w = closed_spans(q, e).push((a, e));
        assert(spans(t) =~= w);
        if e < n {
            lemma_reading_extends(q, e + 1, n);
            assert(closed_spans(q, e + 1) == w);
            let c = closed_spans(q, n);
            assert(w.is_prefix_of(c));
            let k = w.len() - 1;
            assert(c.subrange(0, w.len() as int)[k] == w[k]);
            assert(spans(q)[k] == (a, e));
            if k < last {
                lemma_spans_ascend(q, k, last);
            }
            assert forall|i: int| 0 <= i < w.len() implies #[trigger] spans(q)[i] == w[i] by {
                assert(c.subrange(0, w.len() as int)[i] == w[i]);
            }
        }
        assert(spans(q) =~= w);
        assert forall|i: int| 0 <= i < components(q).len() implies #[trigger] components(t)[i]
            == components(q)[i] by {
            assert(0 <= spans(q)[i].0);
            lemma_spans_ascend(q, i, last);
            assert(spans(q)[i].1 <= e);
            assert(components(t)[i] =~= components(q)[i]);
        }
        assert(components(t) =~= components(q));
    }
}

/// The first component opens the path.
proof fn lemma_first_span_opens(p: Seq<u8>, n: int)
    requires
        0 <= n <= p.len(),
    ensures
        closed_spans(p, n).len() == 0 ==> segment_start(p, n) == 0,
        closed_spans(p, n).len() > 0 ==> closed_spans(p, n)[0].0 == 0,
    decreases n,
{
    if n > 0 {
        lemma_first_span_opens(p, n - 1);
    }
}

/// Without anything taken off, a path keeps all its components.
proof fn lemma_path_from_start(p: Seq<u8>)
    ensures
        components(path_from(p, 0)) == components(p),
{
    lemma_first_span_opens(p, p.len() as int);
    if spans(p).len() > 0 {
        lemma_trim_end(p);
    } else {
        assert(spans(path_from(p, 0)) =~= Seq::empty());
        assert(components(path_from(p, 0)) =~= components(p));
    }
}

/// Behind its first `k` components, a path keeps the others; it is relative and does not open
/// with `.` where something was taken off.
proof fn lemma_path_from(p: Seq<u8>, k: int)
    requires
        0 < k < spans(p).len(),
    ensures
        components(path_from(p, k)) == components(p).skip(k),
        !is_absolute_path(path_from(p, k)),
        !opens_with_dot(path_from(p, k)),
{
    lemma_spans_in_range(p);
    let (s, end) = spans(p)[k];
    assert(0 <= spans(p)[k].0);
    lemma_span_is_segment(p, k);
    lemma_spans_ascend(p, 0, k);
    assert(0 <= spans(p)[0].0);
    assert(s > 0);
    lemma_segment_start_is_after_separator(p, end);
    let head = p.subrange(0, s);
    let q = p.subrange(s, p.len() as int);
    assert(head + q =~= p);
    assert(head.last() == p[s - 1]);
    assert(q[0] == p[s]);
    assert(p[s] != SEPARATOR);
    assert(!is_absolute_path(q));
    if opens_with_dot(q) {
        if q.len() > 1 {
            assert(q[1] == p[s + 1]);
            assert(p[s + 1] == SEPARATOR);
            assert(end <= s + 1);
        }
        assert(end == s + 1);
        assert(p[s] == DOT);
        assert(false);
    }
    lemma_components_behind_separator(head, q);
    lemma_spans_in_range(head);
    lemma_spans_in_range(q);
    let c = spans(head).len() as int;
    let whole = spans(head) + shifted(spans(q), s);
    if k < c {
        assert(whole[k] == spans(head)[k]);
        assert(0 <= spans(head)[k].0);
        assert(false);
    }
    if k > c {
        assert(whole[c] == shifted(spans(q), s)[0]);
        assert(0 <= spans(q)[0].0);
        lemma_spans_ascend(p, c, k);
        assert(false);
    }
    assert(components(p).skip(k) =~= components(q));
    let last = spans(q).len() - 1;
    assert(whole.last() == shifted(spans(q), s)[last]);
    let e = spans(q).last().1;
    assert(0 <= spans(q)[last].0);
    assert(path_from(p, k) =~= q.subrange(0, e));
    lemma_trim_end(q);
    let r = q.subrange(0, e);
    assert(r[0] == q[0]);
    lemma_spans_ascend(q, 0, last);
    lemma_span_is_segment(q, 0);
    if opens_with_dot(r) {
        if r.len() > 1 {
            assert(r[1] == q[1]);
        } else {
            assert(e == 1);
            lemma_span_is_segment(q, last);
            assert(q.len() == 1 || q[1] == SEPARATOR);
        }
    }
}

/// A path relative to a base has the components that the base lacks, and only these.
pub proof fn law_strip_prefix_drops_components(p: Seq<u8>, base: Seq<u8>)
    requires
        path_starts_with(p, base),
    ensures
        relative_to(p, base) is Some,
        components(relative_to(p, base)->0) == components(p).skip(components(base).len() as int),
{
    let k = components(base).len() as int;
    if k == 0 {
        lemma_path_from_start(p);
        assert(components(p).skip(0) =~= components(p));
    } else if k < spans(p).len() {
        lemma_path_from(p, k);
    } else {
        assert(spans(path_from(p, k)) =~= Seq::empty());
        assert(components(path_from(p, k)) =~= components(p).skip(k));
    }
}

/// Joined onto its base, a relative path gives back the path that it was taken from.
pub proof fn law_strip_prefix_undone_by_push(p: Seq<u8>, base: Seq<u8>)
    requires
        path_starts_with(p, base),
    ensures
        components(pushed(base, relative_to(p, base)->0)) == components(p),
{
    let k = components(base).len() as int;
    law_strip_prefix_drops_components(p, base);
    assert(components(base) =~= components(p).subrange(0, k));
    if k == 0 {
        lemma_first_span_opens(base, base.len() as int);
        assert(base.len() == 0);
        assert(components(p).skip(0) =~= components(p));
        assert(base + relative_to(p, base)->0 =~= relative_to(p, base)->0);
    } else {
        if k < spans(p).len() {
            lemma_path_from(p, k);
        }
        law_push_appends_components(base, relative_to(p, base)->0);
        assert(components(base) + components(p).skip(k) =~= components(p));
    }
}

/// Every path lies below itself, and whatever lies below a path lies below all that it lies below.
pub proof fn law_containment_is_a_preorder(p: Seq<u8>, q: Seq<u8>, r: Seq<u8>)
    ensures
        path_starts_with(p, p),
        path_starts_with(p, q) && path_starts_with(q, r) ==> path_starts_with(p, r),
{
    let a = components(p);
    let b = components(q);
    let c = components(r);
    assert(a =~= a.subrange(0, a.len() as int));
    if b.is_prefix_of(a) && c.is_prefix_of(b) {
        assert forall|i: int| 0 <= i < c.len() implies c[i] == a.subrange(0, c.len() as int)[i] by {
            assert(b.subrange(0, c.len() as int)[i] == b[i]);
            assert(a.subrange(0, b.len() as int)[i] == a[i]);
        }
        assert(c =~= a.subrange(0, c.len() as int));
    }
}

proof fn lemma_bytes_order(a: Seq<u8>, b: Seq<u8>)
    ensures
        !(bytes_before(a, b) && bytes_before(b, a)),
        a == b || bytes_before(a, b) || bytes_before(b, a),
        !bytes_before(a, a),
    decreases a.len(),
{
    if a.len() > 0 {
        lemma_bytes_order(a.drop_first(), a.drop_first());
    }
    if a.len() > 0 && b.len() > 0 && a[0] == b[0] {
        lemma_bytes_order(a.drop_first(), b.drop_first());
        if a.drop_first() == b.drop_first() {
            assert(seq![a[0]] + a.drop_first() =~= a);
            assert(seq![b[0]] + b.drop_first() =~= b);
        }
    }
    if a.len() == 0 && b.len() == 0 {
        assert(a =~= b);
    }
}

proof fn lemma_bytes_transitive(a: Seq<u8>, b: Seq<u8>, c: Seq<u8>)
    requires
        bytes_before(a, b),
        bytes_before(b, c),
    ensures
        bytes_before(a, c),
    decreases a.len(),
{
    if a.len() > 0 && a[0] == b[0] && b[0] == c[0] {
        lemma_bytes_transitive(a.drop_first(), b.drop_first(), c.drop_first());
    }
}

proof fn lemma_component_order(a: Seq<u8>, b: Seq<u8>)
    ensures
        !(component_before(a, b) && component_before(b, a)),
        a == b || component_before(a, b) || component_before(b, a),
        !component_before(a, a),
{
    lemma_bytes_order(a, b);
}

proof fn lemma_component_transitive(a: Seq<u8>, b: Seq<u8>, c: Seq<u8>)
    requires
        component_before(a, b),
        component_before(b, c),
    ensures
        component_before(a, c),
{
    if kind_rank(a) == kind_rank(b) && kind_rank(b) == kind_rank(c) {
        lemma_bytes_transitive(a, b, c);
    }
}

proof fn lemma_components_total(a: Seq<Seq<u8>>, b: Seq<Seq<u8>>)
    ensures
        components_ordered(a, b) || components_ordered(b, a),
        components_ordered(a, b) && components_ordered(b, a) ==> a == b,
    decreases a.len(),
{
    if a.len() > 0 && b.len() > 0 {
        lemma_component_order(a[0], b[0]);
        if a[0] == b[0] {
            lemma_components_total(a.drop_first(), b.drop_first());
            if a.drop_first() == b.drop_first() {
                assert(seq![a[0]] + a.drop_first() =~= a);
                assert(seq![b[0]] + b.drop_first() =~= b);
            }
        }
    }
    if a.len() == 0 && b.len() == 0 {
        assert(a =~= b);
    }
}

proof fn lemma_components_transitive(a: Seq<Seq<u8>>, b: Seq<Seq<u8>>, c: Seq<Seq<u8>>)
    requires
        components_ordered(a, b),
        components_ordered(b, c),
    ensures
        components_ordered(a, c),
    decreases a.len(),
{
    if a.len() > 0 {
        lemma_component_order(a[0], b[0]);
        if a[0] == b[0] && b[0] == c[0] {
            lemma_components_transitive(a.drop_first(), b.drop_first(), c.drop_first());
        } else if a[0] != b[0] && b[0] != c[0] {
            lemma_component_transitive(a[0], b[0], c[0]);
            lemma_component_order(a[0], c[0]);
        }
    }
}

/// The order of paths is total; two paths that may stand either way round have the same
/// components.
pub proof fn law_path_order_is_total(p: Seq<u8>, q: Seq<u8>)
    ensures
        path_ordered(p, q) || path_ordered(q, p),
        path_ordered(p, q) && path_ordered(q, p) ==> components(p) == components(q),
{
    lemma_components_total(components(p), components(q));
}

/// The order of paths is transitive.
pub proof fn law_path_order_is_transitive(p: Seq<u8>, q: Seq<u8>, r: Seq<u8>)
    requires
        path_ordered(p, q),
        path_ordered(q, r),
    ensures
        path_ordered(p, r),
{
    lemma_components_transitive(components(p), components(q), components(r));
}

proof fn lemma_between_extensions(a: Seq<Seq<u8>>, b: Seq<Seq<u8>>, c: Seq<Seq<u8>>)
    requires
        components_ordered(a, b),
        components_ordered(b, c),
        a.is_prefix_of(c),
    ensures
        a.is_prefix_of(b),
    decreases a.len(),
{
    if a.len() == 0 {
        assert(a =~= b.subrange(0, 0));
    } else {
        let n = a.len() as int;
        assert(c.subrange(0, n)[0] == c[0]);
        lemma_component_order(a[0], b[0]);
        assert(a[0] == b[0]);
        assert(a.drop_first() =~= c.drop_first().subrange(0, n - 1)) by {
            assert forall|i: int| 0 <= i < n - 1 implies a.drop_first()[i]
                == c.drop_first().subrange(0, n - 1)[i] by {
                assert(a[i + 1] == c.subrange(0, n)[i + 1]);
            }
        }
        lemma_between_extensions(a.drop_first(), b.drop_first(), c.drop_first());
        assert forall|i: int| 0 <= i < n implies a[i] == b.subrange(0, n)[i] by {
            if i > 0 {
                assert(a.drop_first()[i - 1] == b.drop_first().subrange(0, n - 1)[i - 1]);
            }
        }
        assert(a =~= b.subrange(0, n));
    }
}

/// In a sorted list, the paths below a path stand right behind it: whatever stands between the
/// path and one that it contains is contained in it too.
pub proof fn law_contained_paths_are_contiguous(p: Seq<u8>, between: Seq<u8>, below: Seq<u8>)
    requires
        path_ordered(p, between),
        path_ordered(between, below),
        path_starts_with(below, p),
    ensures
        path_starts_with(between, p),
{
    lemma_between_extensions(components(p), components(between), components(below));
}

} // verus!
