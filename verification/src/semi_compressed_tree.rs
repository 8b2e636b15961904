use vstd::prelude::*;

use crate::position::ExplicitPosition;
use crate::term::{get_position, is_position, subterm_at, well_sized, ATerm, PositionIterator, Term};

verus! {

/// Declares the hasher state of the `ahash` crate to the verifier.
#[verifier::external_type_specification]
#[verifier::external_body]
pub struct ExRandomState(ahash::RandomState);

/// A mapping from variables (by symbol index) to a position in the left hand
/// side of a rewrite rule where the variable occurs.
pub type VarMap = ahash::HashMap<usize, ExplicitPosition>;

/// The positions of a variable map.
pub open spec fn var_positions(m: Map<usize, ExplicitPosition>) -> Map<usize, Seq<usize>> {
    m.map_values(|p: ExplicitPosition| p@)
}

/// Creates an empty variable map through `HashMap::default`.
pub fn var_map_new() -> (result: VarMap)
    ensures
        result@ == Map::<usize, ExplicitPosition>::empty(),
{
    VarMap::default()
}

/// Calls `HashMap::insert` on a map with the `ahash` hasher: afterwards the
/// key maps to the value and every other key keeps its value.
#[verifier::external_body]
pub(crate) fn var_map_insert(m: &mut VarMap, key: usize, value: ExplicitPosition)
    ensures
        final(m)@ == old(m)@.insert(key, value),
{
    m.insert(key, value);
}

/// Calls `HashMap::get` on a map with the `ahash` hasher: the value under the
/// key, or `None` when the key is absent.
#[verifier::external_body]
pub(crate) fn var_map_get(m: &VarMap, key: usize) -> (result: Option<&ExplicitPosition>)
    ensures
        match result {
            Some(value) => m@.contains_key(key) && *value == m@[key],
            None => !m@.contains_key(key),
        },
{
    m.get(&key)
}

/// Every variable that occurs in `t` is in `dom`.
pub open spec fn variables_in(t: Term, dom: Set<usize>) -> bool {
    forall|p: Seq<usize>|
        #![trigger subterm_at(t, p)]
        subterm_at(t, p) is Some && subterm_at(t, p)->0.variable ==> dom.contains(
            subterm_at(t, p)->0.symbol,
        )
}

/// Every variable that occurs in `t` also occurs in `lhs`.
pub open spec fn variables_bound(t: Term, lhs: Term) -> bool {
    forall|p: Seq<usize>|
        #![trigger subterm_at(t, p)]
        subterm_at(t, p) is Some && subterm_at(t, p)->0.variable ==> exists|q: Seq<usize>|
            #![trigger subterm_at(lhs, q)]
            subterm_at(lhs, q) is Some && subterm_at(lhs, q)->0.variable && subterm_at(lhs, q)->0.symbol
                == subterm_at(t, p)->0.symbol
}

/// The variables of a term bound by `lhs` are in every set that holds the
/// variables of `lhs`.
pub proof fn lemma_variables_bound(t: Term, lhs: Term, dom: Set<usize>)
    requires
        variables_bound(t, lhs),
        variables_in(lhs, dom),
    ensures
        variables_in(t, dom),
{
    assert forall|p: Seq<usize>|
        #![trigger subterm_at(t, p)]
        subterm_at(t, p) is Some && subterm_at(t, p)->0.variable implies dom.contains(
        subterm_at(t, p)->0.symbol,
    ) by {
        let q = choose|q: Seq<usize>|
            #![trigger subterm_at(lhs, q)]
            subterm_at(lhs, q) is Some && subterm_at(lhs, q)->0.variable && subterm_at(lhs, q)->0.symbol
                == subterm_at(t, p)->0.symbol;
        assert(subterm_at(lhs, q) is Some);
    }
}

/// Every variable of the map is found at its position in `t`.
pub open spec fn var_map_sound(t: Term, m: Map<usize, Seq<usize>>) -> bool {
    forall|v: usize|
        #![trigger m[v]]
        m.contains_key(v) ==> subterm_at(t, m[v]) is Some && subterm_at(t, m[v])->0.variable
            && subterm_at(t, m[v])->0.symbol == v
}

/// Create a mapping of variables to their position in the given term
pub fn create_var_map(t: &ATerm) -> (result: VarMap)
    ensures
        var_map_sound(t@, var_positions(result@)),
        variables_in(t@, result@.dom()),
{
    let mut result = var_map_new();
    let mut it = PositionIterator::new(t.copy());
    loop
        invariant
            it.wf(),
            it.root() == t@,
            var_map_sound(t@, var_positions(result@)),
            forall|j: int|
                0 <= j < it.yielded().len() ==> subterm_at(t@, #[trigger] it.yielded()[j]) is Some
                    && (subterm_at(t@, it.yielded()[j])->0.variable ==> result@.contains_key(
                    subterm_at(t@, it.yielded()[j])->0.symbol,
                )),
        decreases it.remaining(),
    {
        let ghost y0 = it.yielded();
        match it.next() {
            None => {
                assert forall|p: Seq<usize>|
                    #![trigger subterm_at(t@, p)]
                    subterm_at(t@, p) is Some && subterm_at(t@, p)->0.variable implies result@.dom().contains(
                    subterm_at(t@, p)->0.symbol,
                ) by {
                    assert(is_position(t@, p));
                    assert(y0.contains(p));
                    let j = choose|j: int| 0 <= j < y0.len() && y0[j] == p;
                    assert(subterm_at(t@, y0[j]) is Some);
                }
                return result;
            },
            Some((term, position)) => {
                if term.is_variable() {
                    let ghost old_map = result@;
                    var_map_insert(&mut result, term.get_head_symbol(), position);
                    assert(var_positions(result@) =~= var_positions(old_map).insert(
                        term@.symbol,
                        it.yielded().last(),
                    ));
                }
                assert(it.yielded()[y0.len() as int] == it.yielded().last());
            },
        }
    }
}

/// The model of a semi-compressed term tree.
pub enum Sctt {
    Explicit(usize, Seq<Sctt>),
    Compressed(Term),
    Variable(Seq<usize>),
}

/// A SemiCompressedTermTree (SCTT) is a mix between a [ATerm] and a syntax tree and is used
/// to represent the rhs of rewrite rules and the lhs and rhs of conditions.
///
/// It stores as much as possible in the term pool. Due to variables it cannot be fully compressed.
/// For variables it stores the position in the lhs of a rewrite rule where the concrete term can be
/// found that will replace the variable.
///
/// # Examples
/// For the rewrite rule and(true, true) = true, the SCTT of the rhs will be of type Compressed, with
/// a pointer to the term true.
///
/// For the rewrite rule minus(x, 0) = x, the SCTT of the rhs will be of type Variable, storing position
/// 1, the position of x in the lhs.
///
/// For the rewrite rule minus(s(x), s(y)) = minus(x, y), the SCTT of the rhs will be of type
/// Explicit, which will stored the head symbol 'minus' and two child SCTTs of type Variable.
#[derive(Debug)]
pub enum SemiCompressedTermTree {
    Explicit(ExplicitNode),
    Compressed(ATerm),
    Variable(ExplicitPosition),
}

/// Stores the head symbol and a SCTT for every argument explicitly.
#[derive(Debug)]
pub struct ExplicitNode {
    pub head: usize,
    pub children: Vec<SemiCompressedTermTree>,
}

/// The term that a semi-compressed term tree stands for when its variable
/// positions are looked up in `t`.
pub open spec fn sctt_evaluate(s: Sctt, t: Term) -> Term
    decreases s,
{
    match s {
        Sctt::Explicit(head, children) => Term {
            symbol: head,
            variable: false,
            args: Seq::new(
                children.len(),
                |i: int|
                    if 0 <= i < children.len() {
                        sctt_evaluate(children[i], t)
                    } else {
                        arbitrary()
                    },
            ),
        },
        Sctt::Compressed(c) => c,
        Sctt::Variable(p) => subterm_at(t, p)->0,
    }
}

/// Every variable position of the tree is a position of `t`.
pub open spec fn sctt_positions_valid(s: Sctt, t: Term) -> bool
    decreases s,
{
    match s {
        Sctt::Explicit(_, children) => forall|i: int|
            0 <= i < children.len() ==> sctt_positions_valid(#[trigger] children[i], t),
        Sctt::Compressed(_) => true,
        Sctt::Variable(p) => is_position(t, p),
    }
}

/// The semi-compressed term tree of `t`, with variables looked up in `m`.
pub open spec fn sctt_of(t: Term, m: Map<usize, Seq<usize>>) -> Sctt
    decreases t, 1nat,
{
    if t.variable {
        Sctt::Variable(m[t.symbol])
    } else if t.args.len() == 0 {
        Sctt::Compressed(t)
    } else if forall|i: int|
        0 <= i < t.args.len() ==> (#[trigger] sctt_children(t, m)[i]) is Compressed {
        Sctt::Compressed(t)
    } else {
        Sctt::Explicit(t.symbol, sctt_children(t, m))
    }
}

/// The semi-compressed term trees of the arguments of `t`.
pub open spec fn sctt_children(t: Term, m: Map<usize, Seq<usize>>) -> Seq<Sctt>
    decreases t, 0nat,
{
    Seq::new(
        t.args.len(),
        |i: int|
            if 0 <= i < t.args.len() {
                sctt_of(t.args[i], m)
            } else {
                arbitrary()
            },
    )
}

/// The variable positions of the tree, left to right, with duplicates.
pub open spec fn var_references(s: Sctt) -> Seq<Seq<usize>>
    decreases s, 1nat,
{
    match s {
        Sctt::Explicit(_, children) => children_var_references(children),
        Sctt::Compressed(_) => Seq::empty(),
        Sctt::Variable(p) => seq![p],
    }
}

/// The variable positions of the trees in `s`, left to right.
pub open spec fn children_var_references(s: Seq<Sctt>) -> Seq<Seq<usize>>
    decreases s, 0nat,
{
    if s.len() == 0 {
        Seq::empty()
    } else {
        children_var_references(s.drop_last()) + var_references(s.last())
    }
}

/// `t` with every variable replaced by the subterm of `lhs` at the position
/// that `m` gives for it.
pub open spec fn instantiate(t: Term, m: Map<usize, Seq<usize>>, lhs: Term) -> Term
    decreases t,
{
    if t.variable {
        subterm_at(lhs, m[t.symbol])->0
    } else {
        Term {
            symbol: t.symbol,
            variable: false,
            args: Seq::new(
                t.args.len(),
                |i: int|
                    if 0 <= i < t.args.len() {
                        instantiate(t.args[i], m, lhs)
                    } else {
                        arbitrary()
                    },
            ),
        }
    }
}

/// `t` holds no variable.
pub open spec fn is_ground(t: Term) -> bool
    decreases t,
{
    !t.variable && forall|i: int| 0 <= i < t.args.len() ==> is_ground(#[trigger] t.args[i])
}

/// The variable positions of a child of an explicit node are valid when
/// those of the node are.
proof fn lemma_valid_child(s: Sctt, t: Term, j: int)
    requires
        s is Explicit,
        sctt_positions_valid(s, t),
        0 <= j < s->Explicit_1.len(),
    ensures
        sctt_positions_valid(s->Explicit_1[j], t),
{
}

impl SemiCompressedTermTree {
    /// The model of this tree.
    pub open spec fn view(&self) -> Sctt
        decreases self,
    {
        match self {
            SemiCompressedTermTree::Explicit(node) => Sctt::Explicit(
                node.head,
                Seq::new(
                    node.children@.len(),
                    |i: int|
                        if 0 <= i < node.children@.len() {
                            node.children@[i].view()
                        } else {
                            arbitrary()
                        },
                ),
            ),
            SemiCompressedTermTree::Compressed(t) => Sctt::Compressed(t@),
            SemiCompressedTermTree::Variable(p) => Sctt::Variable(p@),
        }
    }

    /// Given an [ATerm] this function instantiates the SCTT and computes a [ATerm].
    ///
    /// # Example
    /// For the SCTT belonging to the rewrite rule minus(s(x), s(y)) = minus(x, y)
    /// and the concrete lhs minus(s(0), s(0)) the evaluation will go as follows.
    /// evaluate will encounter an ExplicitNode and make two recursive calls to get the subterms.
    /// Both these recursive calls will return the term '0'.
    /// The term minus(0, 0) is then constructed.
    pub fn evaluate(&self, t: &ATerm) -> (result: ATerm)
        requires
            sctt_positions_valid(self@, t@),
        ensures
            result@ == sctt_evaluate(self@, t@),
        decreases self,
    {
        match self {
            SemiCompressedTermTree::Explicit(node) => {
                // Create an ATerm with as arguments all the evaluated semi compressed term trees.
                let mut args: Vec<ATerm> = Vec::new();
                let mut i: usize = 0;
                assert forall|j: int| 0 <= j < node.children@.len() implies sctt_positions_valid(
                    #[trigger] node.children@[j]@,
                    t@,
                ) by {
                    assert(self@ is Explicit);
                    assert(self@->Explicit_1[j] == node.children@[j]@);
                    lemma_valid_child(self@, t@, j);
                }
                while i < node.children.len()
                    invariant
                        i <= node.children.len(),
                        args@.len() == i,
                        *self == SemiCompressedTermTree::Explicit(*node),
                        forall|j: int|
                            0 <= j < node.children@.len() ==> sctt_positions_valid(
                                #[trigger] node.children@[j]@,
                                t@,
                            ),
                        forall|j: int|
                            0 <= j < i ==> (#[trigger] args@[j])@ == sctt_evaluate(
                                node.children@[j]@,
                                t@,
                            ),
                    decreases node.children.len() - i,
                {
                    assert(sctt_positions_valid(node.children@[i as int]@, t@));
                    assert((*self)->Explicit_0 == *node);
                    assert(decreases_to!(*self => (*self)->Explicit_0));
                    assert(decreases_to!(*node => node.children));
                    assert(decreases_to!(node.children => node.children[i as int]));
                    args.push(node.children[i].evaluate(t));
                    i = i + 1;
                }
                let result = ATerm { symbol: node.head, variable: false, args };
                assert(result@.args =~= sctt_evaluate(self@, t@).args) by {
                    assert forall|j: int| 0 <= j < result@.args.len() implies result@.args[j]
                        == sctt_evaluate(self@, t@).args[j] by {
                        assert(self@->Explicit_1[j] == node.children@[j]@);
                    }
                }
                result
            },
            SemiCompressedTermTree::Compressed(ct) => ct.copy(),
            SemiCompressedTermTree::Variable(p) => get_position(t, p),
        }
    }

    /// Creates a SCTT from a term. The var_map parameter should specify where the variable can be
    /// found in the lhs of the rewrite rule.
    pub fn from_term(t: &ATerm, var_map: &VarMap) -> (result: SemiCompressedTermTree)
        requires
            variables_in(t@, var_map@.dom()),
        ensures
            result@ == sctt_of(t@, var_positions(var_map@)),
        decreases t,
    {
        if t.is_variable() {
            proof {
                assert(subterm_at(t@, Seq::<usize>::empty()) == Some(t@));
            }
            match var_map_get(var_map, t.get_head_symbol()) {
                Some(p) => {
                    let r = SemiCompressedTermTree::Variable(p.clone());
                    assert(var_positions(var_map@)[t@.symbol] == p@);
                    assert(r@ == sctt_of(t@, var_positions(var_map@)));
                    r
                },
                None => {
                    // The variable is in the map by the precondition.
                    SemiCompressedTermTree::Variable(ExplicitPosition::empty_pos())
                },
            }
        } else if t.args.len() == 0 {
            let r = SemiCompressedTermTree::Compressed(t.copy());
            assert(r@ == sctt_of(t@, var_positions(var_map@)));
            r
        } else {
            let ghost m = var_positions(var_map@);
            let mut children: Vec<SemiCompressedTermTree> = Vec::new();
            let mut all_compressed = true;
            let mut i: usize = 0;
            while i < t.args.len()
                invariant
                    i <= t.args.len(),
                    children@.len() == i,
                    variables_in(t@, var_map@.dom()),
                    m == var_positions(var_map@),
                    forall|j: int|
                        0 <= j < i ==> (#[trigger] children@[j])@ == sctt_of(t@.args[j], m),
                    all_compressed == forall|j: int|
                        0 <= j < i ==> (#[trigger] children@[j])@ is Compressed,
                decreases t.args.len() - i,
            {
                proof {
                    lemma_variables_in_arg(t@, var_map@.dom(), i as int);
                }
                let child = SemiCompressedTermTree::from_term(&t.args[i], var_map);
                let ghost child_view = child@;
                all_compressed = all_compressed && child.is_compressed();
                let ghost before = children@;
                children.push(child);
                assert(children@[i as int]@ == child_view);
                assert(forall|j: int| 0 <= j < i ==> children@[j] == before[j]);
                i = i + 1;
            }
            let ghost cs = sctt_children(t@, m);
            assert(forall|j: int| 0 <= j < cs.len() ==> #[trigger] cs[j] == children@[j]@);
            if all_compressed {
                assert(forall|j: int| 0 <= j < cs.len() ==> (#[trigger] cs[j]) is Compressed);
                let r = SemiCompressedTermTree::Compressed(t.copy());
                assert(r@ == sctt_of(t@, var_positions(var_map@)));
                r
            } else {
                let ghost cv = children@;
                let result = SemiCompressedTermTree::Explicit(
                    ExplicitNode { head: t.get_head_symbol(), children },
                );
                assert(result@->Explicit_1 =~= cs) by {
                    assert forall|j: int| 0 <= j < cs.len() implies result@->Explicit_1[j]
                        == cs[j] by {
                        assert(result@->Explicit_1[j] == cv[j]@);
                    }
                }
                proof {
                    let j0 = choose|j: int| 0 <= j < cs.len() && !((#[trigger] cv[j])@ is Compressed);
                    assert(cs[j0] == cv[j0]@);
                }
                result
            }
        }
    }

    /// Used to check if a subterm is duplicated, for example in times(s(x), y) = plus(y, times(x,y))
    pub fn contains_duplicate_var_references(&self) -> (result: bool)
        ensures
            result == exists|i: int, j: int|
                0 <= i < j < var_references(self@).len() && var_references(self@)[i]
                    == var_references(self@)[j],
    {
        let references = self.get_all_var_references();
        let n = references.len();
        let mut i: usize = 0;
        while i < n
            invariant
                i <= n,
                n == references@.len(),
                references@.len() == var_references(self@).len(),
                forall|k: int| 0 <= k < n ==> (#[trigger] references@[k])@ == var_references(self@)[k],
                forall|a: int, b: int|
                    0 <= a < b < i ==> var_references(self@)[a] != var_references(self@)[b],
            decreases n - i,
        {
            let mut j: usize = 0;
            while j < i
                invariant
                    j <= i < n,
                    n == references@.len(),
                    references@.len() == var_references(self@).len(),
                    forall|k: int|
                        0 <= k < n ==> (#[trigger] references@[k])@ == var_references(self@)[k],
                    forall|a: int|
                        0 <= a < j ==> var_references(self@)[a] != var_references(self@)[i as int],
                decreases i - j,
            {
                if references[j].same(&references[i]) {
                    return true;
                }
                j = j + 1;
            }
            i = i + 1;
        }
        false
    }

    /// Get all references to all variables. The resulting sequence contains duplicates
    pub fn get_all_var_references(&self) -> (result: Vec<ExplicitPosition>)
        ensures
            result@.len() == var_references(self@).len(),
            forall|k: int|
                0 <= k < result@.len() ==> (#[trigger] result@[k])@ == var_references(self@)[k],
        decreases self,
    {
        let mut result: Vec<ExplicitPosition> = Vec::new();
        match self {
            SemiCompressedTermTree::Explicit(en) => {
                let ghost cs = self@->Explicit_1;
                let mut i: usize = 0;
                assert(cs.take(0) =~= Seq::<Sctt>::empty());
                while i < en.children.len()
                    invariant
                        i <= en.children.len(),
                        cs == self@->Explicit_1,
                        *self == SemiCompressedTermTree::Explicit(*en),
                        result@.len() == children_var_references(cs.take(i as int)).len(),
                        forall|k: int|
                            0 <= k < result@.len() ==> (#[trigger] result@[k])@
                                == children_var_references(cs.take(i as int))[k],
                    decreases en.children.len() - i,
                {
                    let refs = en.children[i].get_all_var_references();
                    assert(cs[i as int] == en.children@[i as int]@);
                    let ghost before = result@;
                    let mut k: usize = 0;
                    while k < refs.len()
                        invariant
                            k <= refs@.len(),
                            result@.len() == before.len() + k,
                            forall|a: int|
                                0 <= a < before.len() ==> (#[trigger] result@[a]) == before[a],
                            forall|a: int|
                                0 <= a < k ==> (#[trigger] result@[before.len() + a])@
                                    == refs@[a]@,
                        decreases refs@.len() - k,
                    {
                        result.push(refs[k].clone());
                        k = k + 1;
                    }
                    proof {
                        assert(cs.take(i + 1).drop_last() =~= cs.take(i as int));
                        assert(cs.take(i + 1).last() == cs[i as int]);
                        let all = children_var_references(cs.take(i + 1));
                        assert(all == children_var_references(cs.take(i as int)) + var_references(
                            cs[i as int],
                        ));
                        assert forall|a: int| 0 <= a < result@.len() implies (#[trigger] result@[a])@
                            == all[a] by {
                            if a >= before.len() {
                                assert(result@[before.len() + (a - before.len())] == result@[a]);
                            }
                        }
                    }
                    i = i + 1;
                }
                assert(cs.take(cs.len() as int) =~= cs);
            },
            SemiCompressedTermTree::Compressed(_) => {},
            SemiCompressedTermTree::Variable(ep) => {
                result.push(ep.clone());
            },
        }
        result
    }

    /// If the subterms are in normal form this boolean indicates whether the rewrite rule preserves
    /// that. For example, for the rewrite rule minus(s(x), s(y)) = minus(x, y) nf_subterms returns true.
    /// This is used in an innermost rewriting strategy.
    pub fn nf_subterms(&self) -> (result: bool)
        ensures
            result == match self@ {
                Sctt::Explicit(_, children) => forall|i: int|
                    0 <= i < children.len() ==> (#[trigger] children[i]) is Variable,
                Sctt::Compressed(_) => false,
                Sctt::Variable(_) => true,
            },
    {
        match self {
            SemiCompressedTermTree::Explicit(en) => {
                let mut result = true;
                let mut i: usize = 0;
                while i < en.children.len()
                    invariant
                        i <= en.children.len(),
                        *self == SemiCompressedTermTree::Explicit(*en),
                        result == forall|j: int|
                            0 <= j < i ==> (#[trigger] en.children@[j])@ is Variable,
                    decreases en.children.len() - i,
                {
                    result = result && en.children[i].nf_subterms_aux();
                    i = i + 1;
                }
                assert(forall|j: int|
                    0 <= j < en.children@.len() ==> self@->Explicit_1[j] == (
                    #[trigger] en.children@[j])@);
                result
            },
            SemiCompressedTermTree::Compressed(_) => false,
            SemiCompressedTermTree::Variable(_) => true,
        }
    }

    fn nf_subterms_aux(&self) -> (result: bool)
        ensures
            result == self@ is Variable,
    {
        match self {
            SemiCompressedTermTree::Explicit(_) => false,
            SemiCompressedTermTree::Compressed(_) => false,
            SemiCompressedTermTree::Variable(_) => true,
        }
    }

    /// Whether every variable position of this tree is a position of `t`, so
    /// that the tree can be evaluated on `t`.
    pub fn positions_valid(&self, t: &ATerm) -> (result: bool)
        ensures
            result == sctt_positions_valid(self@, t@),
        decreases self,
    {
        match self {
            SemiCompressedTermTree::Explicit(node) => {
                let mut i: usize = 0;
                while i < node.children.len()
                    invariant
                        i <= node.children.len(),
                        *self == SemiCompressedTermTree::Explicit(*node),
                        forall|j: int| 0 <= j < i ==> sctt_positions_valid(#[trigger] node.children@[j]@, t@),
                    decreases node.children.len() - i,
                {
                    assert((*self)->Explicit_0 == *node);
                    assert(decreases_to!(*self => (*self)->Explicit_0));
                    assert(decreases_to!(*node => node.children));
                    assert(decreases_to!(node.children => node.children[i as int]));
                    if !node.children[i].positions_valid(t) {
                        assert(self@->Explicit_1[i as int] == node.children@[i as int]@);
                        return false;
                    }
                    i = i + 1;
                }
                assert(forall|j: int|
                    0 <= j < node.children@.len() ==> self@->Explicit_1[j] == (
                    #[trigger] node.children@[j])@);
                true
            },
            SemiCompressedTermTree::Compressed(_) => true,
            SemiCompressedTermTree::Variable(p) => crate::term::is_position_exec(t, p),
        }
    }

    /// Returns true iff this tree is compressed.
    pub fn is_compressed(&self) -> (result: bool)
        ensures
            result == self@ is Compressed,
    {
        match self {
            SemiCompressedTermTree::Compressed(_) => true,
            _ => false,
        }
    }
}

/// The variables of an argument are variables of the term.
pub proof fn lemma_variables_in_arg(t: Term, dom: Set<usize>, i: int)
    requires
        variables_in(t, dom),
        0 <= i < t.args.len(),
        i < usize::MAX,
    ensures
        variables_in(t.args[i], dom),
{
    assert forall|q: Seq<usize>|
        #![trigger subterm_at(t.args[i], q)]
        subterm_at(t.args[i], q) is Some && subterm_at(t.args[i], q)->0.variable implies dom.contains(
        subterm_at(t.args[i], q)->0.symbol,
    ) by {
        crate::term::lemma_subterm_cons(t, (i + 1) as usize, q);
        assert(subterm_at(t, seq![(i + 1) as usize] + q) == subterm_at(t.args[i], q));
    }
}

/// A compressed tree stands for the term it was made from, and that term
/// holds no variable.
pub proof fn lemma_compressed_is_ground(t: Term, m: Map<usize, Seq<usize>>)
    requires
        sctt_of(t, m) is Compressed,
    ensures
        sctt_of(t, m)->Compressed_0 == t,
        is_ground(t),
    decreases t,
{
    if t.args.len() > 0 {
        assert forall|i: int| 0 <= i < t.args.len() implies is_ground(#[trigger] t.args[i]) by {
            assert(sctt_children(t, m)[i] is Compressed);
            lemma_compressed_is_ground(t.args[i], m);
        }
    }
}

/// Instantiating a term without variables gives the term itself.
pub proof fn lemma_instantiate_ground(t: Term, m: Map<usize, Seq<usize>>, lhs: Term)
    requires
        is_ground(t),
    ensures
        instantiate(t, m, lhs) == t,
    decreases t,
{
    assert forall|i: int| 0 <= i < t.args.len() implies instantiate(t, m, lhs).args[i]
        == t.args[i] by {
        lemma_instantiate_ground(t.args[i], m, lhs);
    }
    assert(instantiate(t, m, lhs).args =~= t.args);
}

/// Evaluating the semi-compressed term tree of `r` on `lhs` gives `r` with
/// every variable replaced by the subterm of `lhs` at the variable's position.
pub proof fn lemma_evaluate_sctt_of(r: Term, m: Map<usize, Seq<usize>>, lhs: Term)
    ensures
        sctt_evaluate(sctt_of(r, m), lhs) == instantiate(r, m, lhs),
    decreases r,
{
    if r.variable {
    } else if sctt_of(r, m) is Compressed {
        lemma_compressed_is_ground(r, m);
        lemma_instantiate_ground(r, m, lhs);
    } else {
        let cs = sctt_children(r, m);
        assert forall|i: int| 0 <= i < r.args.len() implies sctt_evaluate(sctt_of(r, m), lhs).args[i]
            == instantiate(r, m, lhs).args[i] by {
            assert(cs[i] == sctt_of(r.args[i], m));
            lemma_evaluate_sctt_of(r.args[i], m, lhs);
        }
        assert(sctt_evaluate(sctt_of(r, m), lhs).args =~= instantiate(r, m, lhs).args);
    }
}

/// When every variable of `r` has a position of `lhs` in `m`, every variable
/// position of the semi-compressed term tree of `r` is a position of `lhs`.
pub proof fn lemma_sctt_of_positions_valid(r: Term, m: Map<usize, Seq<usize>>, lhs: Term)
    requires
        well_sized(r),
        variables_in(r, m.dom()),
        forall|v: usize| #[trigger] m.contains_key(v) ==> is_position(lhs, m[v]),
    ensures
        sctt_positions_valid(sctt_of(r, m), lhs),
    decreases r,
{
    assert(subterm_at(r, Seq::<usize>::empty()) == Some(r));
    if !r.variable && !(sctt_of(r, m) is Compressed) {
        let cs = sctt_children(r, m);
        assert forall|i: int| 0 <= i < cs.len() implies sctt_positions_valid(#[trigger] cs[i], lhs) by {
            lemma_variables_in_arg(r, m.dom(), i);
            lemma_sctt_of_positions_valid(r.args[i], m, lhs);
        }
    }
}

} // verus!
