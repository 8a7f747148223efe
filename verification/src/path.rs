//! Unix paths as byte strings, read component by component.
use vstd::prelude::*;

verus! {

/// The byte that separates components.
pub const SEPARATOR: u8 = 47;

/// The byte that spells the current directory.
pub const DOT: u8 = 46;

/// Where the segment that ends at byte `n` of `p` begins: behind the last separator before `n`.
pub open spec fn segment_start(p: Seq<u8>, n: int) -> int
    decreases n,
{
    if n <= 0 {
        0
    } else if p[n - 1] == SEPARATOR {
        n
    } else {
        segment_start(p, n - 1)
    }
}

/// Whether the segment `p[a..b]` is a component: it is not empty, and it is not a `.` other than
/// one that opens the path.
pub open spec fn is_component(p: Seq<u8>, a: int, b: int) -> bool {
    a < b && !(a > 0 && b == a + 1 && p[a] == DOT)
}

/// `found`, extended by the segment `p[a..b]` where that is a component.
pub open spec fn with_segment(p: Seq<u8>, found: Seq<(int, int)>, a: int, b: int) -> Seq<
    (int, int),
> {
    if is_component(p, a, b) {
        found.push((a, b))
    } else {
        found
    }
}

/// The components of `p` that a separator among the first `n` bytes closes. A separator that opens
/// the path is itself a component, the root.
pub open spec fn closed_spans(p: Seq<u8>, n: int) -> Seq<(int, int)>
    decreases n,
{
    if n <= 0 {
        Seq::empty()
    } else if p[n - 1] != SEPARATOR {
        closed_spans(p, n - 1)
    } else if n == 1 {
        seq![(0int, 1int)]
    } else {
        with_segment(p, closed_spans(p, n - 1), segment_start(p, n - 1), n - 1)
    }
}

/// Where the components of `p` lie, from left to right.
pub open spec fn spans(p: Seq<u8>) -> Seq<(int, int)> {
    let n = p.len() as int;
    with_segment(p, closed_spans(p, n), segment_start(p, n), n)
}

/// The components of `p`. The root is spelled `/`; repeated separators, a separator at the end and
/// every `.` but one that opens the path leave no trace.
pub open spec fn components(p: Seq<u8>) -> Seq<Seq<u8>> {
    Seq::new(spans(p).len(), |i: int| p.subrange(spans(p)[i].0, spans(p)[i].1))
}

/// Whether `p` lies at or below `base`.
pub open spec fn path_starts_with(p: Seq<u8>, base: Seq<u8>) -> bool {
    components(base).is_prefix_of(components(p))
}

/// What is left of `p` behind its first `k` components, without what lies before the next
/// component and behind the last one.
pub open spec fn path_from(p: Seq<u8>, k: int) -> Seq<u8> {
    if 0 <= k < spans(p).len() {
        p.subrange(spans(p)[k].0, spans(p).last().1)
    } else {
        Seq::empty()
    }
}

/// `p` relative to `base`, where `p` lies at or below it.
pub open spec fn relative_to(p: Seq<u8>, base: Seq<u8>) -> Option<Seq<u8>> {
    if path_starts_with(p, base) {
        Some(path_from(p, components(base).len() as int))
    } else {
        None
    }
}

pub open spec fn is_absolute_path(p: Seq<u8>) -> bool {
    p.len() > 0 && p[0] == SEPARATOR
}

/// `q` seen from the directory `p`: an absolute `q` stands for itself.
pub open spec fn pushed(p: Seq<u8>, q: Seq<u8>) -> Seq<u8> {
    if is_absolute_path(q) {
        q
    } else if p.len() > 0 && p.last() != SEPARATOR {
        p.push(SEPARATOR) + q
    } else {
        p + q
    }
}

/// The path that pushing `names` one after the other onto an empty path builds.
pub open spec fn path_of(names: Seq<Seq<u8>>) -> Seq<u8>
    decreases names.len(),
{
    if names.len() == 0 {
        Seq::empty()
    } else {
        pushed(path_of(names.drop_last()), names.last())
    }
}

/// Where the spelling of a component falls in the order of kinds: the root, the current directory,
/// the parent directory, a name.
pub open spec fn kind_rank(c: Seq<u8>) -> int {
    if c == seq![SEPARATOR] {
        0
    } else if c == seq![DOT] {
        1
    } else if c == seq![DOT, DOT] {
        2
    } else {
        3
    }
}

/// Whether `c` is the name of a file or directory, as opposed to the root, `.` or `..`.
pub open spec fn is_name(c: Seq<u8>) -> bool {
    kind_rank(c) == 3
}

/// The last component of `p`, where that is a name.
pub open spec fn last_name(p: Seq<u8>) -> Option<Seq<u8>> {
    if components(p).len() > 0 && is_name(components(p).last()) {
        Some(components(p).last())
    } else {
        None
    }
}

/// Byte strings in dictionary order.
pub open spec fn bytes_before(a: Seq<u8>, b: Seq<u8>) -> bool
    decreases a.len(),
{
    if b.len() == 0 {
        false
    } else if a.len() == 0 {
        true
    } else if a[0] == b[0] {
        bytes_before(a.drop_first(), b.drop_first())
    } else {
        a[0] < b[0]
    }
}

/// Components in order: by kind, and names in dictionary order.
pub open spec fn component_before(a: Seq<u8>, b: Seq<u8>) -> bool {
    kind_rank(a) < kind_rank(b) || (kind_rank(a) == kind_rank(b) && bytes_before(a, b))
}

/// Lists of components in dictionary order, a list before those that extend it.
pub open spec fn components_ordered(a: Seq<Seq<u8>>, b: Seq<Seq<u8>>) -> bool
    decreases a.len(),
{
    if a.len() == 0 {
        true
    } else if b.len() == 0 {
        false
    } else if a[0] == b[0] {
        components_ordered(a.drop_first(), b.drop_first())
    } else {
        component_before(a[0], b[0])
    }
}

/// Whether `p` may stand before `q` in a sorted list of paths.
pub open spec fn path_ordered(p: Seq<u8>, q: Seq<u8>) -> bool {
    components_ordered(components(p), components(q))
}

/// What a list of byte strings spells.
pub open spec fn spelled(parts: Seq<Vec<u8>>) -> Seq<Seq<u8>> {
    Seq::new(parts.len(), |i: int| parts[i]@)
}

/// A path, held as the bytes that spell it.
#[derive(Debug)]
pub struct UnixPath {
    pub bytes: Vec<u8>,
}

impl View for UnixPath {
    type V = Seq<u8>;

    open spec fn view(&self) -> Seq<u8> {
        self.bytes@
    }
}

impl Clone for UnixPath {
    fn clone(&self) -> (copy: Self)
        ensures
            copy@ == self@,
    {
        UnixPath { bytes: copy_bytes(&self.bytes) }
    }
}

/// A copy of `bytes`.
pub fn copy_bytes(bytes: &Vec<u8>) -> (copy: Vec<u8>)
    ensures
        copy@ == bytes@,
{
    let copy = bytes.clone();
    assert(copy@ =~= bytes@);
    copy
}

/// Whether two byte strings are the same.
pub fn same_bytes(a: &Vec<u8>, b: &Vec<u8>) -> (same: bool)
    ensures
        same == (a@ == b@),
{
    if a.len() != b.len() {
        return false;
    }
    let mut i: usize = 0;
    while i < a.len()
        invariant
            i <= a.len(),
            a.len() == b.len(),
            forall|j: int| 0 <= j < i ==> a@[j] == b@[j],
        decreases a.len() - i,
    {
        if a[i] != b[i] {
            return false;
        }
        i = i + 1;
    }
    assert(a@ =~= b@);
    true
}

/// The bytes from `start` to `end`.
fn slice_bytes(bytes: &Vec<u8>, start: usize, end: usize) -> (part: Vec<u8>)
    requires
        start <= end <= bytes@.len(),
    ensures
        part@ == bytes@.subrange(start as int, end as int),
{
    let mut part: Vec<u8> = Vec::new();
    let mut i: usize = start;
    while i < end
        invariant
            start <= i <= end <= bytes@.len(),
            part@ == bytes@.subrange(start as int, i as int),
        decreases end - i,
    {
        part.push(bytes[i]);
        assert(part@ =~= bytes@.subrange(start as int, i + 1));
        i = i + 1;
    }
    part
}

/// Spans stay within the bytes that they were read from.
pub proof fn lemma_closed_spans_in_range(p: Seq<u8>, n: int)
    requires
        0 <= n <= p.len(),
    ensures
        0 <= segment_start(p, n) <= n,
        forall|i: int|
            0 <= i < closed_spans(p, n).len() ==> 0 <= #[trigger] closed_spans(p, n)[i].0
                < closed_spans(p, n)[i].1 <= n,
    decreases n,
{
    if n > 0 {
        let before = closed_spans(p, n - 1);
        lemma_closed_spans_in_range(p, n - 1);
        assert forall|i: int| 0 <= i < closed_spans(p, n).len() implies 0 <= (
        #[trigger] closed_spans(p, n)[i].0) < closed_spans(p, n)[i].1 <= n by {
            if i < before.len() {
                assert(0 <= before[i].0);
            }
        }
    }
}

pub proof fn lemma_spans_in_range(p: Seq<u8>)
    ensures
        forall|i: int|
            0 <= i < spans(p).len() ==> 0 <= #[trigger] spans(p)[i].0 < spans(p)[i].1 <= p.len(),
{
    lemma_closed_spans_in_range(p, p.len() as int);
}

impl UnixPath {
    pub fn new(bytes: Vec<u8>) -> (path: Self)
        ensures
            path@ == bytes@,
    {
        UnixPath { bytes }
    }

    /// Where the components lie.
    fn find_spans(&self) -> (found: Vec<(usize, usize)>)
        ensures
            found@.len() == spans(self@).len(),
            forall|i: int|
                0 <= i < found@.len() ==> (#[trigger] found@[i]).0 == spans(self@)[i].0
                    && found@[i].1 == spans(self@)[i].1,
    {
        let mut found: Vec<(usize, usize)> = Vec::new();
        let mut start: usize = 0;
        let mut n: usize = 0;
        let ghost p = self.bytes@;
        while n < self.bytes.len()
            invariant
                p == self.bytes@,
                n <= p.len(),
                start == segment_start(p, n as int),
                start <= n,
                found@.len() == closed_spans(p, n as int).len(),
                forall|i: int|
                    0 <= i < found@.len() ==> (#[trigger] found@[i]).0 == closed_spans(
                        p,
                        n as int,
                    )[i].0 && found@[i].1 == closed_spans(p, n as int)[i].1,
            decreases p.len() - n,
        {
            if self.bytes[n] == SEPARATOR {
                if n == 0 {
                    assert(found@.len() == 0);
                    found.push((0, 1));
                } else if start < n && !(start > 0 && n == start + 1 && self.bytes[start] == DOT) {
                    found.push((start, n));
                }
                start = n + 1;
            }
            n = n + 1;
        }
        if start < n && !(start > 0 && n == start + 1 && self.bytes[start] == DOT) {
            found.push((start, n));
        }
        found
    }

    /// The components.
    pub fn components(&self) -> (parts: Vec<Vec<u8>>)
        ensures
            spelled(parts@) == components(self@),
    {
        let found = self.find_spans();
        let mut parts: Vec<Vec<u8>> = Vec::new();
        let mut i: usize = 0;
        proof {
            lemma_spans_in_range(self@);
        }
        while i < found.len()
            invariant
                i <= found@.len(),
                found@.len() == spans(self@).len(),
                forall|j: int|
                    0 <= j < found@.len() ==> (#[trigger] found@[j]).0 == spans(self@)[j].0
                        && found@[j].1 == spans(self@)[j].1,
                forall|j: int|
                    0 <= j < spans(self@).len() ==> 0 <= #[trigger] spans(self@)[j].0
                        < spans(self@)[j].1 <= self@.len(),
                parts@.len() == i,
                forall|j: int|
                    0 <= j < parts@.len() ==> (#[trigger] parts@[j])@ == components(self@)[j],
            decreases found@.len() - i,
        {
            let (start, end): (usize, usize) = found[i];
            assert(found@[i as int].0 == spans(self@)[i as int].0);
            let part = slice_bytes(&self.bytes, start, end);
            parts.push(part);
            i = i + 1;
        }
        assert(spelled(parts@) =~= components(self@));
        parts
    }

    /// Whether both paths have the same components.
    pub fn same_as(&self, other: &UnixPath) -> (same: bool)
        ensures
            same == (components(self@) == components(other@)),
    {
        let mine = self.components();
        let theirs = other.components();
        assert(spelled(mine@).len() == mine@.len());
        assert(spelled(theirs@).len() == theirs@.len());
        let same = mine.len() == theirs.len() && opens_with(&mine, &theirs);
        proof {
            let n = components(self@).len() as int;
            assert(components(self@).subrange(0, n) =~= components(self@));
        }
        same
    }

    /// Whether this path lies at or below `base`.
    pub fn starts_with(&self, base: &UnixPath) -> (below: bool)
        ensures
            below == path_starts_with(self@, base@),
    {
        let mine = self.components();
        let theirs = base.components();
        opens_with(&mine, &theirs)
    }

    /// This path relative to `base`; nothing where it does not lie at or below `base`.
    pub fn strip_prefix(&self, base: &UnixPath) -> (rest: Option<UnixPath>)
        ensures
            match rest {
                Some(rest) => relative_to(self@, base@) == Some(rest@),
                None => relative_to(self@, base@) is None,
            },
    {
        let mine = self.components();
        let theirs = base.components();
        if !opens_with(&mine, &theirs) {
            return None;
        }
        let found = self.find_spans();
        let skipped: usize = theirs.len();
        assert(spelled(theirs@).len() == theirs@.len());
        assert(spelled(mine@).len() == mine@.len());
        proof {
            lemma_spans_in_range(self@);
        }
        if skipped < found.len() {
            let (start, _): (usize, usize) = found[skipped];
            let (_, end): (usize, usize) = found[found.len() - 1];
            proof {
                lemma_spans_ascend(self@, skipped as int, found@.len() - 1);
                assert(found@[skipped as int].0 == spans(self@)[skipped as int].0);
                assert(found@[found@.len() - 1].1 == spans(self@)[found@.len() - 1].1);
                assert(spans(self@)[found@.len() - 1].0 < spans(self@)[found@.len() - 1].1);
            }
            Some(UnixPath { bytes: slice_bytes(&self.bytes, start, end) })
        } else {
            Some(UnixPath { bytes: Vec::new() })
        }
    }

    /// Moves on to `other` as seen from this directory.
    pub fn push(&mut self, other: &Vec<u8>)
        ensures
            final(self)@ == pushed(old(self)@, other@),
    {
        if other.len() > 0 && other[0] == SEPARATOR {
            self.bytes = copy_bytes(other);
        } else {
            let len: usize = self.bytes.len();
            if len > 0 && self.bytes[len - 1] != SEPARATOR {
                self.bytes.push(SEPARATOR);
            }
            let mut tail = copy_bytes(other);
            self.bytes.append(&mut tail);
        }
    }

    /// `other` as seen from this directory.
    pub fn join(&self, other: &Vec<u8>) -> (joined: UnixPath)
        ensures
            joined@ == pushed(self@, other@),
    {
        let mut joined = self.clone();
        joined.push(other);
        joined
    }

    /// The last component, where that is a name.
    pub fn file_name(&self) -> (name: Option<Vec<u8>>)
        ensures
            match name {
                Some(name) => last_name(self@) == Some(name@),
                None => last_name(self@) is None,
            },
    {
        let mut parts = self.components();
        assert(spelled(parts@).len() == parts@.len());
        match parts.pop() {
            Some(part) => {
                assert(components(self@).last() == part@);
                if component_kind(&part) == 3 {
                    Some(part)
                } else {
                    None
                }
            },
            None => None,
        }
    }

    /// Whether this path may stand before `other` in a sorted list.
    pub fn ordered_before(&self, other: &UnixPath) -> (ordered: bool)
        ensures
            ordered == path_ordered(self@, other@),
    {
        let mine = self.components();
        let theirs = other.components();
        let ghost a = spelled(mine@);
        let ghost b = spelled(theirs@);
        let mut i: usize = 0;
        assert(a.skip(0) =~= a);
        assert(b.skip(0) =~= b);
        while i < mine.len()
            invariant
                a == spelled(mine@),
                b == spelled(theirs@),
                a == components(self@),
                b == components(other@),
                i <= a.len(),
                i <= b.len(),
                path_ordered(self@, other@) == components_ordered(a.skip(i as int), b.skip(i as int)),
            decreases mine@.len() - i,
        {
            if i == theirs.len() {
                return false;
            }
            assert(a.skip(i as int)[0] == mine@[i as int]@);
            assert(b.skip(i as int)[0] == theirs@[i as int]@);
            if !same_bytes(&mine[i], &theirs[i]) {
                return component_precedes(&mine[i], &theirs[i]);
            }
            assert(a.skip(i as int).drop_first() =~= a.skip(i + 1));
            assert(b.skip(i as int).drop_first() =~= b.skip(i + 1));
            i = i + 1;
        }
        true
    }
}

/// Whether `parts` opens with `prefix`.
fn opens_with(parts: &Vec<Vec<u8>>, prefix: &Vec<Vec<u8>>) -> (opens: bool)
    ensures
        opens == spelled(prefix@).is_prefix_of(spelled(parts@)),
{
    let ghost a = spelled(prefix@);
    let ghost b = spelled(parts@);
    if prefix.len() > parts.len() {
        return false;
    }
    let mut i: usize = 0;
    while i < prefix.len()
        invariant
            a == spelled(prefix@),
            b == spelled(parts@),
            i <= a.len() <= b.len(),
            forall|j: int| 0 <= j < i ==> a[j] == b[j],
        decreases a.len() - i,
    {
        if !same_bytes(&prefix[i], &parts[i]) {
            assert(a[i as int] != b[i as int]);
            assert(b.subrange(0, a.len() as int)[i as int] == b[i as int]);
            return false;
        }
        i = i + 1;
    }
    assert(a =~= b.subrange(0, a.len() as int));
    true
}

/// The rank of a component's kind.
fn component_kind(c: &Vec<u8>) -> (kind: u8)
    ensures
        kind == kind_rank(c@),
{
    if c.len() == 1 && c[0] == SEPARATOR {
        assert(c@ =~= seq![SEPARATOR]);
        0
    } else if c.len() == 1 && c[0] == DOT {
        assert(c@ =~= seq![DOT]);
        1
    } else if c.len() == 2 && c[0] == DOT && c[1] == DOT {
        assert(c@ =~= seq![DOT, DOT]);
        2
    } else {
        3
    }
}

/// Whether `a` stands before `b` in dictionary order.
fn bytes_precede(a: &Vec<u8>, b: &Vec<u8>) -> (before: bool)
    ensures
        before == bytes_before(a@, b@),
{
    let mut i: usize = 0;
    assert(a@.skip(0) =~= a@);
    assert(b@.skip(0) =~= b@);
    while i < b.len()
        invariant
            i <= a@.len(),
            i <= b@.len(),
            bytes_before(a@, b@) == bytes_before(a@.skip(i as int), b@.skip(i as int)),
        decreases b@.len() - i,
    {
        if i == a.len() {
            return true;
        }
        if a[i] != b[i] {
            return a[i] < b[i];
        }
        assert(a@.skip(i as int).drop_first() =~= a@.skip(i + 1));
        assert(b@.skip(i as int).drop_first() =~= b@.skip(i + 1));
        i = i + 1;
    }
    false
}

fn component_precedes(a: &Vec<u8>, b: &Vec<u8>) -> (before: bool)
    ensures
        before == component_before(a@, b@),
{
    let first: u8 = component_kind(a);
    let second: u8 = component_kind(b);
    first < second || (first == second && bytes_precede(a, b))
}

/// Spans follow one another.
pub proof fn lemma_closed_spans_ascend(p: Seq<u8>, n: int)
    requires
        0 <= n <= p.len(),
    ensures
        forall|i: int|
            0 <= i < closed_spans(p, n).len() ==> (#[trigger] closed_spans(p, n)[i]).1
                <= segment_start(p, n),
        forall|i: int, j: int|
            #![trigger closed_spans(p, n)[i], closed_spans(p, n)[j]]
            0 <= i < j < closed_spans(p, n).len() ==> closed_spans(p, n)[i].1 <= closed_spans(
                p,
                n,
            )[j].0,
    decreases n,
{
    if n > 0 {
        lemma_closed_spans_ascend(p, n - 1);
        lemma_closed_spans_in_range(p, n - 1);
        let before = closed_spans(p, n - 1);
        let after = closed_spans(p, n);
        assert forall|i: int| 0 <= i < after.len() implies (#[trigger] after[i]).1 <= segment_start(
            p,
            n,
        ) by {
            if i < before.len() {
                assert(before[i].1 <= segment_start(p, n - 1));
            }
        }
        assert forall|i: int, j: int|
            #![trigger after[i], after[j]]
            0 <= i < j < after.len() implies after[i].1 <= after[j].0 by {
            assert(before[i].1 <= segment_start(p, n - 1));
        }
    }
}

pub proof fn lemma_spans_ascend(p: Seq<u8>, i: int, j: int)
    requires
        0 <= i <= j < spans(p).len(),
    ensures
        i < j ==> spans(p)[i].1 <= spans(p)[j].0,
        spans(p)[i].0 <= spans(p)[j].0,
        spans(p)[i].0 < spans(p)[j].1,
{
    let n = p.len() as int;
    lemma_closed_spans_ascend(p, n);
    lemma_closed_spans_in_range(p, n);
    lemma_spans_in_range(p);
    let c = closed_spans(p, n);
    if i < j {
        assert(c[i].1 <= segment_start(p, n));
        if j < c.len() {
            assert(c[i].1 <= c[j].0);
        }
    }
    assert(0 <= spans(p)[i].0);
    assert(0 <= spans(p)[j].0);
}

} // verus!
