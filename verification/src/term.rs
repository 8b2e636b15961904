use std::collections::VecDeque;
use vstd::prelude::*;

use crate::position::{
    comparable, is_prefix, lemma_lex_push_same, lemma_shortlex_children, lemma_shortlex_transitive, shortlex_lt,
    ExplicitPosition,
};

verus! {

/// The mathematical model of a term: a symbol, whether that symbol is a
/// variable, and the arguments.
pub struct Term {
    pub symbol: usize,
    pub variable: bool,
    pub args: Seq<Term>,
}

/// A first-order term. Function symbols and variables are identified by
/// their index; a variable has no arguments.
#[derive(Debug)]
pub struct ATerm {
    pub symbol: usize,
    pub variable: bool,
    pub args: Vec<ATerm>,
}

/// The models of a sequence of terms.
pub open spec fn terms_view(args: Seq<ATerm>) -> Seq<Term> {
    args.map_values(|a: ATerm| a@)
}

/// The subterm of `t` at position `p`, where indices start at 1; `None` when
/// `p` is not a position of `t`.
pub open spec fn subterm_at(t: Term, p: Seq<usize>) -> Option<Term>
    decreases p.len(),
{
    if p.len() == 0 {
        Some(t)
    } else if 1 <= p[0] && p[0] <= t.args.len() {
        subterm_at(t.args[p[0] - 1], p.drop_first())
    } else {
        None
    }
}

/// `p` is a position of `t`.
pub open spec fn is_position(t: Term, p: Seq<usize>) -> bool {
    subterm_at(t, p) is Some
}

/// The term `t` with the subterm at position `p` replaced by `s`.
pub open spec fn replace_at(t: Term, p: Seq<usize>, s: Term) -> Term
    decreases p.len(),
{
    if p.len() == 0 {
        s
    } else if 1 <= p[0] && p[0] <= t.args.len() {
        Term {
            symbol: t.symbol,
            variable: t.variable,
            args: t.args.update(p[0] - 1, replace_at(t.args[p[0] - 1], p.drop_first(), s)),
        }
    } else {
        t
    }
}

/// The number of subterms of `t`, `t` included.
pub open spec fn term_size(t: Term) -> nat
    decreases t, 1nat,
{
    1 + args_size(t.args)
}

/// The number of subterms of the terms in `s`.
pub open spec fn args_size(s: Seq<Term>) -> nat
    decreases s, 0nat,
{
    if s.len() == 0 {
        0
    } else {
        args_size(s.drop_last()) + term_size(s.last())
    }
}

/// Every subterm of `t` has at most `usize::MAX` arguments, so that each
/// argument can be reached by a position.
pub open spec fn well_sized(t: Term) -> bool
    decreases t,
{
    t.args.len() <= usize::MAX && forall|i: int| 0 <= i < t.args.len() ==> well_sized(#[trigger] t.args[i])
}

impl ATerm {
    /// The model of every term is well sized.
    pub proof fn lemma_well_sized(&self)
        ensures
            well_sized(self@),
        decreases self,
    {
        assert(self.args.len() == self.args@.len());
        assert forall|i: int| 0 <= i < self@.args.len() implies well_sized(#[trigger] self@.args[i]) by {
            self.args@[i].lemma_well_sized();
        }
    }

    /// The model of this term.
    pub open spec fn view(&self) -> Term
        decreases self,
    {
        Term {
            symbol: self.symbol,
            variable: self.variable,
            args: Seq::new(
                self.args@.len(),
                |i: int|
                    if 0 <= i < self.args@.len() {
                        self.args@[i].view()
                    } else {
                        arbitrary()
                    },
            ),
        }
    }

    /// Creates the application of a function symbol to the given arguments.
    pub fn new(symbol: usize, args: Vec<ATerm>) -> (result: ATerm)
        ensures
            result@ == (Term { symbol, variable: false, args: terms_view(args@) }),
    {
        let result = ATerm { symbol, variable: false, args };
        assert(result@.args =~= terms_view(args@));
        result
    }

    /// Creates a constant: a function symbol without arguments.
    pub fn constant(symbol: usize) -> (result: ATerm)
        ensures
            result@ == (Term { symbol, variable: false, args: Seq::empty() }),
    {
        let result = ATerm { symbol, variable: false, args: Vec::new() };
        assert(result@.args =~= Seq::<Term>::empty());
        result
    }

    /// Creates a variable.
    pub fn new_variable(symbol: usize) -> (result: ATerm)
        ensures
            result@ == (Term { symbol, variable: true, args: Seq::empty() }),
    {
        let result = ATerm { symbol, variable: true, args: Vec::new() };
        assert(result@.args =~= Seq::<Term>::empty());
        result
    }

    /// The head symbol of this term.
    pub fn get_head_symbol(&self) -> (result: usize)
        ensures
            result == self@.symbol,
    {
        self.symbol
    }

    /// Whether this term is a variable.
    pub fn is_variable(&self) -> (result: bool)
        ensures
            result == self@.variable,
    {
        self.variable
    }

    /// The number of arguments.
    pub fn arity(&self) -> (result: usize)
        ensures
            result == self@.args.len(),
    {
        self.args.len()
    }

    /// The argument at index `i`, counting from 0.
    pub fn arg(&self, i: usize) -> (result: &ATerm)
        requires
            i < self@.args.len(),
        ensures
            result@ == self@.args[i as int],
    {
        &self.args[i]
    }

    /// Whether both terms are the same.
    pub fn equals(&self, other: &ATerm) -> (result: bool)
        ensures
            result == (self@ == other@),
        decreases self,
    {
        if self.symbol != other.symbol || self.variable != other.variable || self.args.len()
            != other.args.len() {
            proof {
                if self@ == other@ {
                    assert(self@.args.len() == other@.args.len());
                }
            }
            return false;
        }
        let mut i: usize = 0;
        while i < self.args.len()
            invariant
                i <= self.args.len(),
                self.args.len() == other.args.len(),
                self.symbol == other.symbol,
                self.variable == other.variable,
                forall|j: int| 0 <= j < i ==> self@.args[j] == other@.args[j],
            decreases self.args.len() - i,
        {
            if !self.args[i].equals(&other.args[i]) {
                assert(self@.args[i as int] != other@.args[i as int]);
                return false;
            }
            i = i + 1;
        }
        assert(self@.args =~= other@.args);
        true
    }

    /// Returns a copy of this term.
    pub fn copy(&self) -> (result: ATerm)
        ensures
            result@ == self@,
        decreases self,
    {
        let mut args: Vec<ATerm> = Vec::new();
        let mut i: usize = 0;
        while i < self.args.len()
            invariant
                i <= self.args.len(),
                args@.len() == i,
                forall|j: int| 0 <= j < i ==> (#[trigger] args@[j])@ == self@.args[j],
            decreases self.args.len() - i,
        {
            args.push(self.args[i].copy());
            i = i + 1;
        }
        let result = ATerm { symbol: self.symbol, variable: self.variable, args };
        assert(result@.args =~= self@.args);
        result
    }
}

impl Clone for ATerm {
    fn clone(&self) -> (result: ATerm)
        ensures
            result@ == self@,
    {
        self.copy()
    }
}

/// Returns the subterm at the specific position
pub fn get_position(term: &ATerm, position: &ExplicitPosition) -> (result: ATerm)
    requires
        is_position(term@, position@),
    ensures
        Some(result@) == subterm_at(term@, position@),
{
    let n = position.len();
    let mut current: &ATerm = term;
    let mut i: usize = 0;
    assert(position@.take(0) =~= Seq::<usize>::empty());
    while i < n
        invariant
            i <= n,
            n == position@.len(),
            is_position(term@, position@),
            subterm_at(term@, position@.take(i as int)) == Some(current@),
        decreases n - i,
    {
        let index = position.index(i);
        proof {
            lemma_prefix_position(term@, position@, (i + 1) as int);
            assert(position@.take(i + 1) =~= position@.take(i as int).push(index));
            lemma_subterm_push(term@, position@.take(i as int), current@, index);
        }
        // Note that positions are 1 indexed.
        current = current.arg(index - 1);
        i = i + 1;
    }
    assert(position@.take(n as int) =~= position@);
    current.copy()
}

/// Whether the position is a position of the term.
pub fn is_position_exec(term: &ATerm, position: &ExplicitPosition) -> (result: bool)
    ensures
        result == is_position(term@, position@),
{
    let n = position.len();
    let mut current: &ATerm = term;
    let mut i: usize = 0;
    assert(position@.take(0) =~= Seq::<usize>::empty());
    while i < n
        invariant
            i <= n,
            n == position@.len(),
            subterm_at(term@, position@.take(i as int)) == Some(current@),
        decreases n - i,
    {
        let index = position.index(i);
        proof {
            assert(position@.take(i + 1) =~= position@.take(i as int).push(index));
            lemma_subterm_push(term@, position@.take(i as int), current@, index);
        }
        if index < 1 || index > current.arity() {
            proof {
                if is_position(term@, position@) {
                    lemma_prefix_position(term@, position@, (i + 1) as int);
                }
            }
            return false;
        }
        current = current.arg(index - 1);
        i = i + 1;
    }
    assert(position@.take(n as int) =~= position@);
    true
}

/// A prefix of a position is a position.
proof fn lemma_prefix_position(t: Term, p: Seq<usize>, k: int)
    requires
        is_position(t, p),
        0 <= k <= p.len(),
    ensures
        is_position(t, p.take(k)),
    decreases p.len(),
{
    if k > 0 {
        assert(p.take(k).drop_first() =~= p.drop_first().take(k - 1));
        lemma_prefix_position(t.args[p[0] - 1], p.drop_first(), k - 1);
    }
}

/// Creates a new term where a subterm is replaced with another term.
///
/// # Parameters
/// 't'             -   The original term
/// 'new_subterm'   -   The subterm that will be injected
/// 'p'             -   The place in 't' on which 'new_subterm' will be placed,
///                     given as a slice of position indexes
///
/// # Example
/// The term is constructed bottom up. As an an example take the term s(s(a)).
/// Lets say we want to replace the a with the term 0.
/// Then we traverse the term until we have arrived at a and replace it with 0.
/// We then construct s(0).
/// We then construct s(s(0)).
pub fn substitute(t: &ATerm, new_subterm: ATerm, p: &[usize]) -> (result: ATerm)
    requires
        is_position(t@, p@),
    ensures
        result@ == replace_at(t@, p@, new_subterm@),
{
    assert(p@.skip(0) =~= p@);
    substitute_rec(t, new_subterm, p, 0)
}

/// The recursive implementation for substitute
///
/// 'depth'         -   Used to keep track of the depth in 't'. Function should be called with
///                     'depth' = 0.
fn substitute_rec(t: &ATerm, new_subterm: ATerm, p: &[usize], depth: usize) -> (result: ATerm)
    requires
        depth <= p@.len(),
        is_position(t@, p@.skip(depth as int)),
    ensures
        result@ == replace_at(t@, p@.skip(depth as int), new_subterm@),
    decreases p@.len() - depth,
{
    if p.len() == depth {
        // in this case we have arrived at the place where 'new_subterm' needs to be injected
        new_subterm
    } else {
        // else recurse deeper into 't'
        let ghost rest = p@.skip(depth as int);
        assert(rest.drop_first() =~= p@.skip(depth + 1));
        let new_child_index = p[depth] - 1;
        let new_child = substitute_rec(&t.args[new_child_index], new_subterm, p, depth + 1);
        let mut args: Vec<ATerm> = Vec::new();
        let mut i: usize = 0;
        while i < t.args.len()
            invariant
                i <= t.args.len(),
                new_child_index < t.args.len(),
                args@.len() == i,
                forall|j: int|
                    0 <= j < i ==> (#[trigger] args@[j])@ == (if j == new_child_index {
                        new_child@
                    } else {
                        t@.args[j]
                    }),
            decreases t.args.len() - i,
        {
            if i == new_child_index {
                args.push(new_child.copy());
            } else {
                args.push(t.args[i].copy());
            }
            i = i + 1;
        }
        let result = ATerm { symbol: t.symbol, variable: t.variable, args };
        assert(result@.args =~= t@.args.update(new_child_index as int, new_child@));
        result
    }
}

/// An iterator over all (term, position) pairs of the given [ATerm], in
/// breadth-first order.
pub struct PositionIterator {
    queue: VecDeque<(ATerm, ExplicitPosition)>,
    root: Ghost<Term>,
    yielded: Ghost<Seq<Seq<usize>>>,
}

/// The number of subterms of the terms in the queue.
pub open spec fn queue_size(q: Seq<(ATerm, ExplicitPosition)>) -> nat
    decreases q.len(),
{
    if q.len() == 0 {
        0
    } else {
        queue_size(q.drop_last()) + term_size(q.last().0@)
    }
}

/// The size of a queue is the size of its front plus the size of the rest.
proof fn lemma_queue_size_front(q: Seq<(ATerm, ExplicitPosition)>)
    requires
        q.len() > 0,
    ensures
        queue_size(q) == term_size(q[0].0@) + queue_size(q.subrange(1, q.len() as int)),
    decreases q.len(),
{
    let rest = q.subrange(1, q.len() as int);
    if q.len() > 1 {
        let r = q.drop_last();
        lemma_queue_size_front(r);
        assert(rest.drop_last() =~= r.subrange(1, r.len() as int));
        assert(rest.last() == q.last());
        assert(r[0] == q[0]);
        assert(queue_size(rest) == queue_size(rest.drop_last()) + term_size(rest.last().0@));
    } else {
        assert(rest =~= Seq::<(ATerm, ExplicitPosition)>::empty());
        assert(q.drop_last() =~= Seq::<(ATerm, ExplicitPosition)>::empty());
        assert(q.last() == q[0]);
    }
}

/// The size of a term is one more than the sizes of its first `k` arguments
/// and the remaining arguments.
proof fn lemma_args_size_prefix(s: Seq<Term>, k: int)
    requires
        0 <= k < s.len(),
    ensures
        args_size(s.take(k + 1)) == args_size(s.take(k)) + term_size(s[k]),
{
    assert(s.take(k + 1).drop_last() =~= s.take(k));
}

/// The positions of the queue, in order.
pub open spec fn queue_positions(q: Seq<(ATerm, ExplicitPosition)>) -> Seq<Seq<usize>> {
    q.map_values(|e: (ATerm, ExplicitPosition)| e.1@)
}

/// The positions are yielded in the shortlex order (shorter first, then
/// lexicographically), the queue is in that order and after what was
/// yielded, and the parent of each queued position was yielded.
pub open spec fn breadth_first(y: Seq<Seq<usize>>, q: Seq<Seq<usize>>) -> bool {
    &&& forall|i: int, j: int| 0 <= i < j < y.len() ==> shortlex_lt(#[trigger] y[i], #[trigger] y[j])
    &&& forall|k: int, l: int| 0 <= k < l < q.len() ==> shortlex_lt(#[trigger] q[k], #[trigger] q[l])
    &&& forall|j: int, k: int| 0 <= j < y.len() && 0 <= k < q.len() ==> shortlex_lt(#[trigger] y[j], #[trigger] q[k])
    &&& forall|k: int| 0 <= k < q.len() && (#[trigger] q[k]).len() > 0 ==> y.contains(q[k].drop_last())
}

/// The empty position comes first in the shortlex order.
proof fn lemma_shortlex_root_first(p: Seq<usize>)
    ensures
        !shortlex_lt(p, Seq::<usize>::empty()),
{
}

/// Taking the front of a breadth-first queue keeps the order, and the rest of
/// the queue comes before the children of the front.
proof fn lemma_after_pop(y: Seq<Seq<usize>>, q: Seq<Seq<usize>>)
    requires
        breadth_first(y, q),
        q.len() > 0,
    ensures
        breadth_first(y.push(q[0]), q.subrange(1, q.len() as int)),
        forall|k: int|
            0 <= k < q.len() - 1 ==> shortlex_lt(#[trigger] q.subrange(1, q.len() as int)[k], q[0].push(1usize)),
        forall|j: int| 0 <= j < y.len() ==> shortlex_lt(#[trigger] y[j], q[0]),
{
    let y2 = y.push(q[0]);
    let q2 = q.subrange(1, q.len() as int);
    assert forall|i: int, j: int| 0 <= i < j < y2.len() implies shortlex_lt(#[trigger] y2[i], #[trigger] y2[j]) by {
        if j == y.len() {
            assert(y2[j] == q[0]);
            assert(y2[i] == y[i]);
        } else {
            assert(y2[i] == y[i] && y2[j] == y[j]);
        }
    }
    assert forall|k: int, l: int| 0 <= k < l < q2.len() implies shortlex_lt(#[trigger] q2[k], #[trigger] q2[l]) by {
        assert(q2[k] == q[k + 1] && q2[l] == q[l + 1]);
    }
    assert forall|j: int, k: int| 0 <= j < y2.len() && 0 <= k < q2.len() implies shortlex_lt(
        #[trigger] y2[j],
        #[trigger] q2[k],
    ) by {
        assert(q2[k] == q[k + 1]);
        if j == y.len() {
            assert(y2[j] == q[0]);
        } else {
            assert(y2[j] == y[j]);
        }
    }
    assert forall|k: int| 0 <= k < q2.len() && (#[trigger] q2[k]).len() > 0 implies y2.contains(q2[k].drop_last()) by {
        assert(q2[k] == q[k + 1]);
        let j = choose|j: int| 0 <= j < y.len() && y[j] == q[k + 1].drop_last();
        assert(y2[j] == y[j]);
    }
    assert forall|k: int| 0 <= k < q.len() - 1 implies shortlex_lt(#[trigger] q2[k], q[0].push(1usize)) by {
        let r = q2[k];
        assert(r == q[k + 1]);
        assert(shortlex_lt(q[0], q[k + 1]));
        if r.len() == 0 {
            lemma_shortlex_root_first(q[0]);
            assert(r =~= Seq::<usize>::empty());
        } else {
            let j = choose|j: int| 0 <= j < y.len() && y[j] == r.drop_last();
            assert(shortlex_lt(y[j], q[0]));
            lemma_shortlex_children(r.drop_last(), q[0], r.last(), 1usize);
            assert(r.drop_last().push(r.last()) =~= r);
        }
    }
    assert forall|j: int| 0 <= j < y.len() implies shortlex_lt(#[trigger] y[j], q[0]) by {
        assert(shortlex_lt(y[j], q[0]));
    }
}

/// Putting the next child of the last yielded position at the back of a
/// breadth-first queue keeps the order.
proof fn lemma_push_child(y: Seq<Seq<usize>>, q: Seq<Seq<usize>>, p: Seq<usize>, c: usize)
    requires
        breadth_first(y, q),
        y.len() > 0,
        y.last() == p,
        forall|k: int| 0 <= k < q.len() ==> shortlex_lt(#[trigger] q[k], p.push(c)),
    ensures
        breadth_first(y, q.push(p.push(c))),
        c < usize::MAX ==> forall|k: int|
            0 <= k < q.len() + 1 ==> shortlex_lt(#[trigger] q.push(p.push(c))[k], p.push((c + 1) as usize)),
{
    let q2 = q.push(p.push(c));
    let n = p.push(c);
    if c < usize::MAX {
        lemma_lex_push_same(p, c, (c + 1) as usize);
        assert(shortlex_lt(n, p.push((c + 1) as usize)));
    }
    assert forall|k: int, l: int| 0 <= k < l < q2.len() implies shortlex_lt(#[trigger] q2[k], #[trigger] q2[l]) by {
        assert(q2[k] == q[k]);
        if l < q.len() {
            assert(q2[l] == q[l]);
        } else {
            assert(q2[l] == n);
        }
    }
    assert forall|j: int, k: int| 0 <= j < y.len() && 0 <= k < q2.len() implies shortlex_lt(
        #[trigger] y[j],
        #[trigger] q2[k],
    ) by {
        if k < q.len() {
            assert(q2[k] == q[k]);
        } else {
            assert(q2[k] == n);
            assert(shortlex_lt(p, n));
            if j < y.len() - 1 {
                assert(shortlex_lt(y[j], y[y.len() - 1]));
                lemma_shortlex_transitive(y[j], p, n);
            }
        }
    }
    assert forall|k: int| 0 <= k < q2.len() && (#[trigger] q2[k]).len() > 0 implies y.contains(q2[k].drop_last()) by {
        if k < q.len() {
            assert(q2[k] == q[k]);
        } else {
            assert(q2[k].drop_last() =~= p);
            assert(y[y.len() - 1] == p);
        }
    }
    assert forall|k: int| c < usize::MAX && 0 <= k < q.len() + 1 implies shortlex_lt(#[trigger] q2[k], p.push((c + 1) as usize)) by {
        if k < q.len() {
            assert(q2[k] == q[k]);
            lemma_shortlex_transitive(q[k], n, p.push((c + 1) as usize));
        }
    }
}

impl PositionIterator {
    /// The term whose positions are listed.
    pub closed spec fn root(&self) -> Term {
        self.root@
    }

    /// The number of pairs that the iterator has yet to yield.
    pub closed spec fn remaining(&self) -> nat {
        queue_size(self.queue@)
    }

    /// The positions yielded so far, in order.
    pub closed spec fn yielded(&self) -> Seq<Seq<usize>> {
        self.yielded@
    }

    /// Every queued pair is a subterm of the root at its position, and every
    /// position of the root has been yielded or lies below a queued position.
    pub closed spec fn wf(&self) -> bool {
        &&& forall|k: int|
            0 <= k < self.queue@.len() ==> subterm_at(self.root@, (#[trigger] self.queue@[k]).1@)
                == Some(self.queue@[k].0@)
        &&& forall|p: Seq<usize>| #[trigger]
            is_position(self.root@, p) ==> self.yielded@.contains(p) || exists|k: int|
                0 <= k < self.queue@.len() && is_prefix(#[trigger] self.queue@[k].1@, p)
        &&& breadth_first(self.yielded@, queue_positions(self.queue@))
    }

    /// The positions are yielded in breadth-first order: shorter positions
    /// first, positions of the same length from left to right.
    pub proof fn lemma_yielded_in_order(&self)
        requires
            self.wf(),
        ensures
            forall|i: int, j: int|
                0 <= i < j < self.yielded().len() ==> shortlex_lt(#[trigger] self.yielded()[i], #[trigger] self.yielded()[j]),
    {
    }

    /// Creates an iterator over all positions of `t`.
    pub fn new(t: ATerm) -> (result: PositionIterator)
        ensures
            result.wf(),
            result.root() == t@,
            result.remaining() == term_size(t@),
            result.yielded() == Seq::<Seq<usize>>::empty(),
    {
        let ghost root = t@;
        let mut queue: VecDeque<(ATerm, ExplicitPosition)> = VecDeque::new();
        queue.push_back((t, ExplicitPosition::empty_pos()));
        let result = PositionIterator { queue, root: Ghost(root), yielded: Ghost(Seq::empty()) };
        assert(result.queue@.drop_last() =~= Seq::<(ATerm, ExplicitPosition)>::empty());
        assert(result.queue@.last().0@ == root);
        assert(queue_size(result.queue@) == queue_size(result.queue@.drop_last()) + term_size(
            result.queue@.last().0@,
        ));
        assert(subterm_at(root, result.queue@[0].1@) == Some(root));
        assert forall|p: Seq<usize>| #[trigger] is_position(root, p) implies is_prefix(
            result.queue@[0].1@,
            p,
        ) by {
            assert(p.subrange(0, 0) =~= Seq::<usize>::empty());
        }
        result
    }

    /// Returns the next (subterm, position) pair, or `None` when all
    /// positions have been listed.
    pub fn next(&mut self) -> (result: Option<(ATerm, ExplicitPosition)>)
        requires
            old(self).wf(),
        ensures
            final(self).wf(),
            final(self).root() == old(self).root(),
            match result {
                Some((term, pos)) => {
                    &&& old(self).remaining() == final(self).remaining() + 1
                    &&& subterm_at(old(self).root(), pos@) == Some(term@)
                    &&& final(self).yielded() == old(self).yielded().push(pos@)
                    &&& forall|j: int|
                        0 <= j < old(self).yielded().len() ==> shortlex_lt(#[trigger] old(self).yielded()[j], pos@)
                },
                None => {
                    &&& old(self).remaining() == 0
                    &&& final(self).remaining() == 0
                    &&& final(self).yielded() == old(self).yielded()
                    &&& forall|p: Seq<usize>|
                        is_position(old(self).root(), p) ==> #[trigger] old(self).yielded().contains(p)
                },
            },
    {
        let ghost q0 = self.queue@;
        let ghost y0 = self.yielded@;
        match self.queue.pop_front() {
            None => None,
            Some((term, pos)) => {
                proof {
                    lemma_queue_size_front(q0);
                    assert(subterm_at(self.root@, pos@) == Some(term@));
                    self.yielded = Ghost(y0.push(pos@));
                    assert(queue_positions(q0)[0] == pos@);
                    lemma_after_pop(y0, queue_positions(q0));
                    assert(queue_positions(self.queue@) =~= queue_positions(q0).subrange(1, q0.len() as int));
                }
                let ghost q1 = self.queue@;
                // Put subterms in the queue
                let n = term.args.len();
                let mut i: usize = 0;
                assert(term@.args.take(0) =~= Seq::<Term>::empty());
                while i < n
                    invariant
                        self.root@ == old(self).root@,
                        i <= n,
                        n == term@.args.len(),
                        subterm_at(self.root@, pos@) == Some(term@),
                        self.queue@.len() == q1.len() + i,
                        self.queue@.subrange(0, q1.len() as int) == q1,
                        q1 == q0.subrange(1, q0.len() as int),
                        self.yielded@ == y0.push(pos@),
                        breadth_first(self.yielded@, queue_positions(self.queue@)),
                        i < n ==> forall|k: int|
                            0 <= k < self.queue@.len() ==> shortlex_lt(
                                #[trigger] queue_positions(self.queue@)[k],
                                pos@.push((i + 1) as usize),
                            ),
                        forall|k: int|
                            q1.len() <= k < self.queue@.len() ==> (#[trigger] self.queue@[k]).1@
                                == pos@.push((k - q1.len() + 1) as usize),
                        forall|k: int|
                            0 <= k < self.queue@.len() ==> subterm_at(
                                self.root@,
                                (#[trigger] self.queue@[k]).1@,
                            ) == Some(self.queue@[k].0@),
                        queue_size(self.queue@) == queue_size(q1) + args_size(
                            term@.args.take(i as int),
                        ),
                    decreases n - i,
                {
                    let mut new_position = pos.clone();
                    new_position.push(i + 1);
                    proof {
                        lemma_subterm_push(self.root@, pos@, term@, (i + 1) as usize);
                        lemma_args_size_prefix(term@.args, i as int);
                    }
                    let ghost before = self.queue@;
                    self.queue.push_back((term.args[i].copy(), new_position));
                    assert(self.queue@.drop_last() =~= before);
                    proof {
                        assert(self.yielded@.last() == pos@);
                        lemma_push_child(self.yielded@, queue_positions(before), pos@, (i + 1) as usize);
                        assert(queue_positions(self.queue@) =~= queue_positions(before).push(pos@.push((i + 1) as usize)));
                    }
                    assert(self.queue@.subrange(0, q1.len() as int) =~= before.subrange(
                        0,
                        q1.len() as int,
                    ));
                    i = i + 1;
                }
                assert(term@.args.take(n as int) =~= term@.args);
                proof {
                    let q = self.queue@;
                    let y = self.yielded@;
                    assert forall|p: Seq<usize>| #[trigger] is_position(self.root@, p) implies y.contains(
                        p,
                    ) || exists|k: int| 0 <= k < q.len() && is_prefix(#[trigger] q[k].1@, p) by {
                        if !y0.contains(p) {
                            let k0 = choose|k: int| 0 <= k < q0.len() && is_prefix(#[trigger] q0[k].1@, p);
                            if k0 > 0 {
                                assert(q1[k0 - 1] == q0[k0]);
                                assert(q.subrange(0, q1.len() as int)[k0 - 1] == q[k0 - 1]);
                                assert(q[k0 - 1] == q0[k0]);
                            } else if p =~= pos@ {
                                assert(y[y0.len() as int] == p);
                            } else {
                                let d = pos@.len() as int;
                                assert(p.len() > d);
                                let c = p[d];
                                lemma_prefix_position(self.root@, p, d + 1);
                                assert(p.take(d + 1) =~= pos@.push(c));
                                lemma_subterm_push(self.root@, pos@, term@, c);
                                let k = q1.len() + c - 1;
                                assert(q[k].1@ == pos@.push(c));
                                assert(is_prefix(q[k].1@, p));
                            }
                        } else {
                            assert(y0.contains(p));
                            let j = choose|j: int| 0 <= j < y0.len() && y0[j] == p;
                            assert(y[j] == p);
                        }
                    }
                }
                Some((term, pos))
            },
        }
    }
}

/// Extending a position by an index leads to that argument, if there is one.
pub proof fn lemma_subterm_push(t: Term, p: Seq<usize>, s: Term, i: usize)
    requires
        subterm_at(t, p) == Some(s),
    ensures
        subterm_at(t, p.push(i)) == (if 1 <= i <= s.args.len() {
            Some(s.args[i - 1])
        } else {
            None::<Term>
        }),
    decreases p.len(),
{
    let q = p.push(i);
    assert(q[0] == (if p.len() == 0 { i } else { p[0] }));
    if p.len() == 0 {
        assert(q.drop_first() =~= Seq::<usize>::empty());
        assert(t == s);
        if 1 <= i <= s.args.len() {
            assert(subterm_at(s.args[i - 1], Seq::<usize>::empty()) == Some(s.args[i - 1]));
        }
    } else {
        assert(q.drop_first() =~= p.drop_first().push(i));
        lemma_subterm_push(t.args[p[0] - 1], p.drop_first(), s, i);
    }
}

/// Following the first index of a position leads into the matching argument.
pub proof fn lemma_subterm_cons(t: Term, c: usize, q: Seq<usize>)
    requires
        1 <= c <= t.args.len(),
    ensures
        subterm_at(t, seq![c] + q) == subterm_at(t.args[c - 1], q),
{
    let p = seq![c] + q;
    assert(p[0] == c);
    assert(p.drop_first() =~= q);
}

/// After substituting `s` at position `p` of `t`, the subterm at `p` is `s`.
pub proof fn lemma_subterm_of_replace(t: Term, p: Seq<usize>, s: Term)
    requires
        is_position(t, p),
    ensures
        subterm_at(replace_at(t, p, s), p) == Some(s),
    decreases p.len(),
{
    if p.len() > 0 {
        lemma_subterm_of_replace(t.args[p[0] - 1], p.drop_first(), s);
    }
}

/// Substituting at position `p` leaves every position that is not comparable
/// with `p` as it was.
pub proof fn lemma_replace_elsewhere(t: Term, p: Seq<usize>, q: Seq<usize>, s: Term)
    requires
        is_position(t, p),
        !comparable(p, q),
    ensures
        subterm_at(replace_at(t, p, s), q) == subterm_at(t, q),
    decreases p.len(),
{
    if p.len() == 0 {
        assert(q.subrange(0, 0) =~= p);
    } else if q.len() == 0 {
        assert(p.subrange(0, 0) =~= q);
    } else if p[0] != q[0] {
    } else {
        let p1 = p.drop_first();
        let q1 = q.drop_first();
        if is_prefix(p1, q1) {
            assert(q.subrange(0, p.len() as int) =~= seq![p[0]] + q1.subrange(0, p1.len() as int));
            assert(p =~= seq![p[0]] + p1);
        }
        if is_prefix(q1, p1) {
            assert(p.subrange(0, q.len() as int) =~= seq![q[0]] + p1.subrange(0, q1.len() as int));
            assert(q =~= seq![q[0]] + q1);
        }
        lemma_replace_elsewhere(t.args[p[0] - 1], p1, q1, s);
    }
}

/// Substituting the subterm at a position by itself gives back the term.
pub proof fn lemma_replace_with_own_subterm(t: Term, p: Seq<usize>)
    requires
        is_position(t, p),
    ensures
        replace_at(t, p, subterm_at(t, p)->0) == t,
    decreases p.len(),
{
    if p.len() > 0 {
        let i = p[0] - 1;
        lemma_replace_with_own_subterm(t.args[i], p.drop_first());
        assert(replace_at(t, p, subterm_at(t, p)->0).args =~= t.args);
    }
}

/// Substituting twice at the same position keeps only the second term.
pub proof fn lemma_replace_twice(t: Term, p: Seq<usize>, s1: Term, s2: Term)
    requires
        is_position(t, p),
    ensures
        replace_at(replace_at(t, p, s1), p, s2) == replace_at(t, p, s2),
    decreases p.len(),
{
    if p.len() > 0 {
        let i = p[0] - 1;
        lemma_replace_twice(t.args[i], p.drop_first(), s1, s2);
        assert(replace_at(replace_at(t, p, s1), p, s2).args =~= replace_at(t, p, s2).args);
    }
}

} // verus!
