use smallvec::SmallVec;
use vstd::prelude::*;

verus! {

/// The indices of a position, held in a small vector of the `smallvec`
/// crate that stores up to four indices inline.
#[verifier::external_body]
#[derive(Debug)]
pub struct PositionIndices {
    inner: SmallVec<[usize; 4]>,
}

/// The indices that the small vector holds, in order.
pub uninterp spec fn smallvec_items(v: PositionIndices) -> Seq<usize>;

/// Calls `SmallVec::new`, which creates an empty small vector.
#[verifier::external_body]
fn smallvec_new() -> (result: PositionIndices)
    ensures
        smallvec_items(result) == Seq::<usize>::empty(),
{
    PositionIndices { inner: SmallVec::new() }
}

/// Calls `SmallVec::from_slice`, which copies the slice's elements in order.
#[verifier::external_body]
fn smallvec_from_slice(slice: &[usize]) -> (result: PositionIndices)
    ensures
        smallvec_items(result) == slice@,
{
    PositionIndices { inner: SmallVec::from_slice(slice) }
}

/// Calls `SmallVec::len`, the number of stored elements.
#[verifier::external_body]
fn smallvec_len(v: &PositionIndices) -> (result: usize)
    ensures
        result == smallvec_items(*v).len(),
{
    v.inner.len()
}

/// Indexes the small vector (through its slice), which yields the element
/// at that index.
#[verifier::external_body]
fn smallvec_get(v: &PositionIndices, i: usize) -> (result: usize)
    requires
        i < smallvec_items(*v).len(),
    ensures
        result == smallvec_items(*v)[i as int],
{
    v.inner[i]
}

/// Calls `Clone::clone` of the small vector, which copies its elements.
#[verifier::external_body]
fn smallvec_clone(v: &PositionIndices) -> (result: PositionIndices)
    ensures
        smallvec_items(result) == smallvec_items(*v),
{
    PositionIndices { inner: v.inner.clone() }
}

/// An ExplicitPosition stores a list of position indices. The index starts at 1.
/// The subterm of term s(s(0)) at position 1.1 is 0.
/// The empty position, aka the root term, is represented by the symbol ε.
/// Indices are stored in a SmallVec, which is configured to store 4 elements.
/// If the position contains a maximum of 4 elements it is stored on the stack.
/// If the position is longer a heap allocation is made.
#[derive(Debug)]
pub struct ExplicitPosition {
    pub indices: PositionIndices,
}

impl View for ExplicitPosition {
    type V = Seq<usize>;

    open spec fn view(&self) -> Seq<usize> {
        smallvec_items(self.indices)
    }
}

/// `p` is a prefix of `q`.
pub open spec fn is_prefix(p: Seq<usize>, q: Seq<usize>) -> bool {
    p.len() <= q.len() && q.subrange(0, p.len() as int) == p
}

/// Two positions are comparable when one lies above the other.
pub open spec fn comparable(p: Seq<usize>, q: Seq<usize>) -> bool {
    is_prefix(p, q) || is_prefix(q, p)
}

/// The lexicographic order on positions (a prefix comes first).
pub open spec fn lex_lt(p: Seq<usize>, q: Seq<usize>) -> bool
    decreases p.len(),
{
    if q.len() == 0 {
        false
    } else if p.len() == 0 {
        true
    } else if p[0] != q[0] {
        p[0] < q[0]
    } else {
        lex_lt(p.drop_first(), q.drop_first())
    }
}

/// The lexicographic order is irreflexive.
pub proof fn lemma_lex_irreflexive(p: Seq<usize>)
    ensures
        !lex_lt(p, p),
    decreases p.len(),
{
    if p.len() > 0 {
        lemma_lex_irreflexive(p.drop_first());
    }
}

/// The lexicographic order is transitive.
pub proof fn lemma_lex_transitive(p: Seq<usize>, q: Seq<usize>, r: Seq<usize>)
    requires
        lex_lt(p, q),
        lex_lt(q, r),
    ensures
        lex_lt(p, r),
    decreases p.len(),
{
    if p.len() > 0 && q.len() > 0 && r.len() > 0 && p[0] == q[0] && q[0] == r[0] {
        lemma_lex_transitive(p.drop_first(), q.drop_first(), r.drop_first());
    }
}

/// Two distinct positions are ordered one way or the other.
pub proof fn lemma_lex_total(p: Seq<usize>, q: Seq<usize>)
    requires
        p != q,
    ensures
        lex_lt(p, q) || lex_lt(q, p),
    decreases p.len(),
{
    if p.len() > 0 && q.len() > 0 && p[0] == q[0] {
        if p.drop_first() == q.drop_first() {
            assert(p =~= seq![p[0]] + p.drop_first());
            assert(q =~= seq![q[0]] + q.drop_first());
        }
        lemma_lex_total(p.drop_first(), q.drop_first());
    } else if p.len() == 0 && q.len() == 0 {
        assert(p =~= q);
    }
}

/// The shortlex order on positions: a shorter position comes first, and
/// positions of the same length are ordered lexicographically.
pub open spec fn shortlex_lt(p: Seq<usize>, q: Seq<usize>) -> bool {
    p.len() < q.len() || (p.len() == q.len() && lex_lt(p, q))
}

/// The shortlex order is irreflexive.
pub proof fn lemma_shortlex_irreflexive(p: Seq<usize>)
    ensures
        !shortlex_lt(p, p),
{
    lemma_lex_irreflexive(p);
}

/// The shortlex order is transitive.
pub proof fn lemma_shortlex_transitive(p: Seq<usize>, q: Seq<usize>, r: Seq<usize>)
    requires
        shortlex_lt(p, q),
        shortlex_lt(q, r),
    ensures
        shortlex_lt(p, r),
{
    if p.len() == q.len() && q.len() == r.len() {
        lemma_lex_transitive(p, q, r);
    }
}

/// Of two children of one position, the one with the smaller index comes
/// first.
pub proof fn lemma_lex_push_same(p: Seq<usize>, i: usize, j: usize)
    requires
        i < j,
    ensures
        lex_lt(p.push(i), p.push(j)),
    decreases p.len(),
{
    if p.len() > 0 {
        assert(p.push(i).drop_first() =~= p.drop_first().push(i));
        assert(p.push(j).drop_first() =~= p.drop_first().push(j));
        lemma_lex_push_same(p.drop_first(), i, j);
    }
}

/// The lexicographic order of two positions of the same length carries
/// over to their children.
pub proof fn lemma_lex_push_diff(a: Seq<usize>, b: Seq<usize>, c: usize, d: usize)
    requires
        a.len() == b.len(),
        lex_lt(a, b),
    ensures
        lex_lt(a.push(c), b.push(d)),
    decreases a.len(),
{
    if a.len() > 0 && a[0] == b[0] {
        assert(a.push(c).drop_first() =~= a.drop_first().push(c));
        assert(b.push(d).drop_first() =~= b.drop_first().push(d));
        lemma_lex_push_diff(a.drop_first(), b.drop_first(), c, d);
    }
}

/// A child of a position that comes before `p` in the shortlex order comes
/// before every child of `p`.
pub proof fn lemma_shortlex_children(r: Seq<usize>, p: Seq<usize>, c: usize, d: usize)
    requires
        shortlex_lt(r, p),
    ensures
        shortlex_lt(r.push(c), p.push(d)),
{
    if r.len() == p.len() {
        lemma_lex_push_diff(r, p, c, d);
    }
}

/// The lexicographic order is asymmetric.
pub proof fn lemma_lex_asymmetric(p: Seq<usize>, q: Seq<usize>)
    requires
        lex_lt(p, q),
    ensures
        !lex_lt(q, p),
{
    if lex_lt(q, p) {
        lemma_lex_transitive(p, q, p);
        lemma_lex_irreflexive(p);
    }
}

impl ExplicitPosition {
    /// Creates a position from the given indices.
    pub fn new(indices: &[usize]) -> (result: ExplicitPosition)
        ensures
            result@ == indices@,
    {
        ExplicitPosition { indices: smallvec_from_slice(indices) }
    }

    /// The empty position, ε.
    pub fn empty_pos() -> (result: ExplicitPosition)
        ensures
            result@ == Seq::<usize>::empty(),
    {
        ExplicitPosition { indices: smallvec_new() }
    }

    /// The number of indices.
    pub fn len(&self) -> (result: usize)
        ensures
            result == self@.len(),
    {
        smallvec_len(&self.indices)
    }

    /// Whether this is the empty position ε.
    pub fn is_empty(&self) -> (result: bool)
        ensures
            result == (self@.len() == 0),
    {
        smallvec_len(&self.indices) == 0
    }

    /// The index at the given depth.
    pub fn index(&self, i: usize) -> (result: usize)
        requires
            i < self@.len(),
        ensures
            result == self@[i as int],
    {
        smallvec_get(&self.indices, i)
    }

    /// Appends an index at the end of the position.
    pub fn push(&mut self, index: usize)
        ensures
            final(self)@ == old(self)@.push(index),
    {
        let mut v = self.to_vec();
        v.push(index);
        self.indices = smallvec_from_slice(v.as_slice());
    }

    /// The indices as a vector.
    pub fn to_vec(&self) -> (result: Vec<usize>)
        ensures
            result@ == self@,
    {
        let n = self.len();
        let mut v: Vec<usize> = Vec::new();
        let mut i: usize = 0;
        while i < n
            invariant
                i <= n,
                n == self@.len(),
                v@ == self@.subrange(0, i as int),
            decreases n - i,
        {
            v.push(self.index(i));
            assert(self@.subrange(0, i + 1) =~= self@.subrange(0, i as int).push(self@[i as int]));
            i = i + 1;
        }
        assert(self@.subrange(0, n as int) =~= self@);
        v
    }

    /// Returns the position without its first `len` indices.
    pub fn skip(&self, len: usize) -> (result: ExplicitPosition)
        requires
            len <= self@.len(),
        ensures
            result@ == self@.skip(len as int),
    {
        let n = self.len();
        let mut v: Vec<usize> = Vec::new();
        let mut i: usize = len;
        while i < n
            invariant
                len <= i <= n,
                n == self@.len(),
                v@ == self@.subrange(len as int, i as int),
            decreases n - i,
        {
            v.push(self.index(i));
            assert(self@.subrange(len as int, i + 1) =~= self@.subrange(len as int, i as int).push(
                self@[i as int],
            ));
            i = i + 1;
        }
        assert(self@.subrange(len as int, n as int) =~= self@.skip(len as int));
        ExplicitPosition { indices: smallvec_from_slice(v.as_slice()) }
    }

    /// Returns the first `len` indices of the position.
    pub fn take(&self, len: usize) -> (result: ExplicitPosition)
        requires
            len <= self@.len(),
        ensures
            result@ == self@.take(len as int),
    {
        let mut v: Vec<usize> = Vec::new();
        let mut i: usize = 0;
        while i < len
            invariant
                i <= len <= self@.len(),
                v@ == self@.subrange(0, i as int),
            decreases len - i,
        {
            v.push(self.index(i));
            assert(self@.subrange(0, i + 1) =~= self@.subrange(0, i as int).push(self@[i as int]));
            i = i + 1;
        }
        assert(self@.subrange(0, len as int) =~= self@.take(len as int));
        ExplicitPosition { indices: smallvec_from_slice(v.as_slice()) }
    }

    /// Whether both positions hold the same indices.
    pub fn same(&self, other: &ExplicitPosition) -> (result: bool)
        ensures
            result == (self@ == other@),
    {
        let n = self.len();
        if n != other.len() {
            return false;
        }
        let mut i: usize = 0;
        while i < n
            invariant
                i <= n,
                n == self@.len(),
                n == other@.len(),
                forall|j: int| 0 <= j < i ==> self@[j] == other@[j],
            decreases n - i,
        {
            if self.index(i) != other.index(i) {
                return false;
            }
            i = i + 1;
        }
        assert(self@ =~= other@);
        true
    }

    /// Whether this position comes before the other one in the shortlex
    /// order: it is shorter, or as long and lexicographically smaller.
    pub fn shorter_than(&self, other: &ExplicitPosition) -> (result: bool)
        ensures
            result == shortlex_lt(self@, other@),
    {
        self.len() < other.len() || (self.len() == other.len() && self.less_than(other))
    }

    /// Whether this position comes before the other one in the lexicographic
    /// order.
    pub fn less_than(&self, other: &ExplicitPosition) -> (result: bool)
        ensures
            result == lex_lt(self@, other@),
    {
        let n = self.len();
        let m = other.len();
        let mut i: usize = 0;
        assert(self@.skip(0) =~= self@);
        assert(other@.skip(0) =~= other@);
        while i < n && i < m
            invariant
                i <= n,
                i <= m,
                n == self@.len(),
                m == other@.len(),
                lex_lt(self@, other@) == lex_lt(self@.skip(i as int), other@.skip(i as int)),
            decreases n - i,
        {
            let a = self.index(i);
            let b = other.index(i);
            assert(self@.skip(i as int)[0] == a);
            assert(other@.skip(i as int)[0] == b);
            if a != b {
                return a < b;
            }
            assert(self@.skip(i as int).drop_first() =~= self@.skip(i + 1));
            assert(other@.skip(i as int).drop_first() =~= other@.skip(i + 1));
            i = i + 1;
        }
        i < m
    }
}

impl Clone for ExplicitPosition {
    fn clone(&self) -> (result: ExplicitPosition)
        ensures
            result@ == self@,
    {
        ExplicitPosition { indices: smallvec_clone(&self.indices) }
    }
}

/// Values that carry a position, by which they can be sorted.
pub trait Positioned {
    /// The model of a value.
    type Model;

    /// The model of the value.
    spec fn model(&self) -> Self::Model;

    /// The position of the value.
    spec fn key(&self) -> Seq<usize>;

    /// Returns the position of the value.
    fn position(&self) -> (result: &ExplicitPosition)
        ensures
            result@ == self.key(),
    ;
}

impl Positioned for ExplicitPosition {
    type Model = Seq<usize>;

    open spec fn model(&self) -> Seq<usize> {
        self@
    }

    open spec fn key(&self) -> Seq<usize> {
        self@
    }

    fn position(&self) -> (result: &ExplicitPosition) {
        self
    }
}

/// The models of a sequence of values.
pub open spec fn models<T: Positioned>(s: Seq<T>) -> Seq<T::Model> {
    Seq::new(s.len(), |i: int| s[i].model())
}

/// The values are sorted by position in the lexicographic order.
pub open spec fn sorted_by_position<T: Positioned>(s: Seq<T>) -> bool {
    forall|i: int, j: int| 0 <= i < j < s.len() ==> !lex_lt(s[j].key(), s[i].key())
}

/// Sorts the values by their positions in the lexicographic order; values with
/// the same position keep their order.
pub fn sort_by_position<T: Positioned>(v: Vec<T>) -> (result: Vec<T>)
    ensures
        result@.to_multiset() == v@.to_multiset(),
        models(result@).to_multiset() == models(v@).to_multiset(),
        sorted_by_position(result@),
{
    broadcast use vstd::seq_lib::to_multiset_build, vstd::seq_lib::to_multiset_insert;

    let ghost original = v@;
    let mut input = v;
    let mut result: Vec<T> = Vec::new();
    let ghost mut k: int = 0;
    assert(original.take(0) =~= Seq::<T>::empty());
    assert(models(result@) =~= models(original.take(0)));
    while input.len() > 0
        invariant
            0 <= k <= original.len(),
            input@ == original.skip(k),
            result@.to_multiset() == original.take(k).to_multiset(),
            models(result@).to_multiset() == models(original.take(k)).to_multiset(),
            sorted_by_position(result@),
        decreases input@.len(),
    {
        let x = input.remove(0);
        assert(x == original[k]);
        // Find the first element with a greater position.
        let mut j: usize = 0;
        while j < result.len() && !lex_lt_exec(x.position(), result[j].position())
            invariant
                j <= result@.len(),
                forall|i: int| 0 <= i < j ==> !lex_lt(x.key(), #[trigger] result@[i].key()),
            decreases result@.len() - j,
        {
            j = j + 1;
        }
        let ghost before = result@;
        result.insert(j, x);
        proof {
            assert(result@ == before.insert(j as int, x));
            assert forall|a: int, b: int| 0 <= a < b < result@.len() implies !lex_lt(
                result@[b].key(),
                result@[a].key(),
            ) by {
                if a < j && b == j {
                } else if a == j {
                    // x comes before the element at index j of before, which
                    // comes no later than the others after it
                    assert(lex_lt(x.key(), before[j as int].key()));
                    if b > j + 1 {
                        assert(!lex_lt(before[b - 1].key(), before[j as int].key()));
                        if before[b - 1].key() != before[j as int].key() {
                            lemma_lex_total(before[b - 1].key(), before[j as int].key());
                            lemma_lex_transitive(x.key(), before[j as int].key(), before[b - 1].key());
                        }
                    }
                    lemma_lex_asymmetric(x.key(), result@[b].key());
                } else if a < j && b > j {
                    assert(result@[b] == before[b - 1]);
                } else if a > j {
                    assert(result@[a] == before[a - 1]);
                    assert(result@[b] == before[b - 1]);
                }
            }
            assert(original.take(k + 1) =~= original.take(k).push(x));
            vstd::seq_lib::to_multiset_insert(before, j as int, x);
            vstd::seq_lib::to_multiset_build(original.take(k), x);
            assert(result@.to_multiset() == original.take(k + 1).to_multiset());
            assert(models(result@) =~= models(before).insert(j as int, x.model()));
            assert(models(original.take(k + 1)) =~= models(original.take(k)).push(x.model()));
            vstd::seq_lib::to_multiset_insert(models(before), j as int, x.model());
            vstd::seq_lib::to_multiset_build(models(original.take(k)), x.model());
            assert(input@ =~= original.skip(k + 1));
            k = k + 1;
        }
    }
    assert(original.take(k) =~= original);
    result
}

/// Whether the first position comes before the second one in the
/// lexicographic order.
fn lex_lt_exec(p: &ExplicitPosition, q: &ExplicitPosition) -> (result: bool)
    ensures
        result == lex_lt(p@, q@),
{
    p.less_than(q)
}

} // verus!
