use vstd::prelude::*;

use crate::data::{
    data_application, data_arguments, data_function_symbol, get_data_arguments,
    get_data_function_symbol, is_data_application, is_data_application_exec,
    is_data_function_symbol, is_data_function_symbol_exec, is_data_variable, is_data_variable_exec,
    DATA_APPLICATION,
};
use crate::rewrite_specification::Rule;
use crate::semi_compressed_tree::{create_var_map, lemma_variables_bound, variables_bound};
use crate::position::{shortlex_lt, ExplicitPosition};
use crate::semi_compressed_tree::{var_map_get, var_map_sound, var_positions, variables_in, VarMap};
use crate::term::{get_position, is_position, subterm_at, term_size, terms_view, ATerm, PositionIterator, Term};

verus! {

/// The model of a configuration.
pub enum ConfigModel {
    Rewrite(usize),
    Construct(usize, usize, usize),
    Term(Term, usize),
    Return,
}

/// An instruction of the innermost rewrite stack.
#[derive(Debug)]
pub enum Config {
    /// Rewrite the top of the stack and put result at the given index.
    Rewrite(usize),
    /// Constructs function symbol (by operation id) with given arity at the given index.
    Construct(usize, usize, usize),
    /// A concrete term to be placed at the current position in the stack.
    Term(ATerm, usize),
    /// Yields the given index as returned term.
    Return(),
}

impl Config {
    /// The model of this configuration.
    pub open spec fn view(&self) -> ConfigModel {
        match self {
            Config::Rewrite(i) => ConfigModel::Rewrite(*i),
            Config::Construct(f, a, i) => ConfigModel::Construct(*f, *a, *i),
            Config::Term(t, i) => ConfigModel::Term(t@, *i),
            Config::Return() => ConfigModel::Return,
        }
    }

    /// Returns a copy of this configuration.
    pub fn copy(&self) -> (result: Config)
        ensures
            result@ == self@,
    {
        match self {
            Config::Rewrite(i) => Config::Rewrite(*i),
            Config::Construct(f, a, i) => Config::Construct(*f, *a, *i),
            Config::Term(t, i) => Config::Term(t.copy(), *i),
            Config::Return() => Config::Return(),
        }
    }

    /// Whether both configurations are the same.
    pub fn same(&self, other: &Config) -> (result: bool)
        ensures
            result == (self@ == other@),
    {
        match (self, other) {
            (Config::Rewrite(i), Config::Rewrite(j)) => *i == *j,
            (Config::Construct(f, a, i), Config::Construct(g, b, j)) => *f == *g && *a == *b && *i == *j,
            (Config::Term(t, i), Config::Term(s, j)) => *i == *j && t.equals(s),
            (Config::Return(), Config::Return()) => true,
            _ => false,
        }
    }
}

impl Clone for Config {
    fn clone(&self) -> (result: Config)
        ensures
            result@ == self@,
    {
        self.copy()
    }
}

/// The models of a sequence of configurations.
pub open spec fn configs_view(s: Seq<Config>) -> Seq<ConfigModel> {
    s.map_values(|c: Config| c@)
}

/// The models of the variable entries of a term stack.
pub open spec fn stack_variables_view(s: Seq<(ExplicitPosition, usize)>) -> Seq<(Seq<usize>, usize)> {
    s.map_values(|e: (ExplicitPosition, usize)| (e.0@, e.1))
}

/// The model of a term stack: its configurations, its variables (position
/// in the left hand side and stack index) and its size.
pub struct TermStackModel {
    pub configs: Seq<ConfigModel>,
    pub variables: Seq<(Seq<usize>, usize)>,
    pub stack_size: nat,
}

/// The position lies at the function symbol of an application.
pub open spec fn is_head_position(p: Seq<usize>) -> bool {
    p.len() > 0 && p.last() == 1
}

/// The term stack of `t` after visiting the positions `ps` in order: a
/// function symbol position is skipped, a variable gets the next stack index
/// and its position in the left hand side (from `m`), a function symbol or
/// application gets the next stack index and a configuration that
/// constructs it; other terms are skipped.
pub open spec fn term_stack_of(t: Term, ps: Seq<Seq<usize>>, m: Map<usize, Seq<usize>>) -> TermStackModel
    decreases ps.len(),
{
    if ps.len() == 0 {
        TermStackModel { configs: Seq::empty(), variables: Seq::empty(), stack_size: 0 }
    } else {
        let rest = term_stack_of(t, ps.drop_last(), m);
        let p = ps.last();
        let s = subterm_at(t, p)->0;
        if is_head_position(p) {
            rest
        } else if is_data_variable(s) {
            TermStackModel {
                configs: rest.configs,
                variables: rest.variables.push((m[s.symbol], rest.stack_size as usize)),
                stack_size: rest.stack_size + 1,
            }
        } else if is_data_function_symbol(s) || is_data_application(s) {
            TermStackModel {
                configs: rest.configs.push(
                    ConfigModel::Construct(
                        data_function_symbol(s).symbol,
                        data_arguments(s).len() as usize,
                        rest.stack_size as usize,
                    ),
                ),
                variables: rest.variables,
                stack_size: rest.stack_size + 1,
            }
        } else {
            rest
        }
    }
}

/// `ps` lists every position of `t` exactly once, in breadth-first order:
/// shorter positions first, and positions of the same length from left to
/// right.
pub open spec fn lists_positions(t: Term, ps: Seq<Seq<usize>>) -> bool {
    &&& ps.len() == term_size(t)
    &&& forall|i: int, j: int| 0 <= i < j < ps.len() ==> shortlex_lt(#[trigger] ps[i], #[trigger] ps[j])
    &&& forall|j: int| 0 <= j < ps.len() ==> is_position(t, #[trigger] ps[j])
    &&& forall|p: Seq<usize>| is_position(t, p) ==> #[trigger] ps.contains(p)
}

/// A stack used to represent a term with free variables that can be constructed
/// efficiently.
///
/// It stores as much as possible in the term pool. Due to variables it cannot
/// be fully compressed. For variables it stores the position in the lhs of a
/// rewrite rule where the concrete term can be found that will replace the
/// variable.
#[derive(Debug)]
pub struct TermStack {
    /// The innermost rewrite stack for the right hand side and the positions that must be added to the stack.
    pub innermost_stack: Vec<Config>,
    pub variables: Vec<(ExplicitPosition, usize)>,
    pub stack_size: usize,
}

impl TermStack {
    /// The model of this term stack.
    pub open spec fn view(&self) -> TermStackModel {
        TermStackModel {
            configs: configs_view(self.innermost_stack@),
            variables: stack_variables_view(self.variables@),
            stack_size: self.stack_size as nat,
        }
    }

    /// Computes the stack for the term: the positions of the term are visited
    /// in breadth-first order, see [term_stack_of].
    pub fn from_term(term: &ATerm, var_map: &VarMap) -> (result: TermStack)
        requires
            variables_in(term@, var_map@.dom()),
            term_size(term@) <= usize::MAX,
        ensures
            exists|ps: Seq<Seq<usize>>|
                lists_positions(term@, ps) && result@ == term_stack_of(
                    term@,
                    ps,
                    var_positions(var_map@),
                ),
    {
        let ghost m = var_positions(var_map@);
        let ghost t = term@;
        let mut innermost_stack: Vec<Config> = Vec::new();
        let mut variables: Vec<(ExplicitPosition, usize)> = Vec::new();
        let mut stack_size: usize = 0;
        let mut it = PositionIterator::new(term.copy());
        assert(configs_view(innermost_stack@) =~= Seq::<ConfigModel>::empty());
        assert(stack_variables_view(variables@) =~= Seq::<(Seq<usize>, usize)>::empty());
        loop
            invariant
                it.wf(),
                it.root() == t,
                it.remaining() + it.yielded().len() == term_size(t),
                forall|j: int| 0 <= j < it.yielded().len() ==> is_position(t, #[trigger] it.yielded()[j]),
                variables_in(t, var_map@.dom()),
                term_size(t) <= usize::MAX,
                m == var_positions(var_map@),
                stack_size <= it.yielded().len(),
                (TermStackModel {
                    configs: configs_view(innermost_stack@),
                    variables: stack_variables_view(variables@),
                    stack_size: stack_size as nat,
                }) == term_stack_of(t, it.yielded(), m),
            ensures
                it.remaining() == 0,
                it.yielded().len() == term_size(t),
                forall|j: int| 0 <= j < it.yielded().len() ==> is_position(t, #[trigger] it.yielded()[j]),
                forall|p: Seq<usize>| is_position(t, p) ==> #[trigger] it.yielded().contains(p),
                (TermStackModel {
                    configs: configs_view(innermost_stack@),
                    variables: stack_variables_view(variables@),
                    stack_size: stack_size as nat,
                }) == term_stack_of(t, it.yielded(), m),
            decreases it.remaining(),
        {
            let ghost y0 = it.yielded();
            let ghost before_configs = configs_view(innermost_stack@);
            let ghost before_vars = stack_variables_view(variables@);
            match it.next() {
                None => {
                    break ;
                },
                Some((sub, position)) => {
                    let ghost y = it.yielded();
                    assert(y.drop_last() =~= y0);
                    assert(y.last() == position@);
                    assert(subterm_at(t, position@) == Some(sub@));
                    assert forall|j: int| 0 <= j < y.len() implies is_position(t, #[trigger] y[j]) by {
                        if j < y0.len() {
                            assert(y[j] == y0[j]);
                        }
                    }
                    let n = position.len();
                    if n > 0 && position.index(n - 1) == 1 {
                        // Skip the function symbol.
                    } else if is_data_variable_exec(&sub) {
                        assert(var_map@.dom().contains(sub@.symbol));
                        match var_map_get(var_map, sub.get_head_symbol()) {
                            Some(p) => {
                                variables.push((p.clone(), stack_size));
                                assert(stack_variables_view(variables@) =~= before_vars.push(
                                    (m[sub@.symbol], stack_size),
                                ));
                            },
                            None => {
                                assert(false);
                            },
                        }
                        stack_size = stack_size + 1;
                    } else if is_data_function_symbol_exec(&sub) || is_data_application_exec(&sub) {
                        let symbol = get_data_function_symbol(&sub).get_head_symbol();
                        let arguments = get_data_arguments(&sub);
                        let arity = arguments.len();
                        assert(arity == arguments@.len()) by {
                            broadcast use vstd::slice::group_slice_axioms;
                        }
                        assert(terms_view(arguments@).len() == arity);
                        innermost_stack.push(Config::Construct(symbol, arity, stack_size));
                        assert(configs_view(innermost_stack@) =~= before_configs.push(
                            ConfigModel::Construct(symbol, arity, stack_size),
                        ));
                        stack_size = stack_size + 1;
                    } else {
                        // Skip intermediate terms that are no data expression.
                    }
                },
            }
        }
        let result = TermStack { innermost_stack, variables, stack_size };
        assert(result@ == term_stack_of(t, it.yielded(), m));
        proof {
            it.lemma_yielded_in_order();
        }
        assert(lists_positions(t, it.yielded()));
        result
    }

    /// Used to check if a subterm is duplicated, for example "times(s(x), y) =
    /// plus(y, times(x,y))" is duplicating: two variables of the stack are
    /// taken from the same position.
    pub fn contains_duplicate_var_references(&self) -> (result: bool)
        ensures
            result == exists|i: int, j: int|
                0 <= i < j < self@.variables.len() && self@.variables[i].0 == self@.variables[j].0,
    {
        let ghost vs = self@.variables;
        let n = self.variables.len();
        let mut i: usize = 0;
        while i < n
            invariant
                i <= n,
                n == vs.len(),
                vs == self@.variables,
                forall|a: int, b: int| 0 <= a < b < vs.len() && a < i ==> vs[a].0 != vs[b].0,
            decreases n - i,
        {
            let mut j: usize = i + 1;
            while j < n
                invariant
                    i < j <= n,
                    n == vs.len(),
                    vs == self@.variables,
                    forall|b: int| i < b < j ==> vs[i as int].0 != #[trigger] vs[b].0,
                decreases n - j,
            {
                assert(vs[i as int].0 == self.variables@[i as int].0@);
                assert(vs[j as int].0 == self.variables@[j as int].0@);
                if self.variables[i].0.same(&self.variables[j].0) {
                    return true;
                }
                j = j + 1;
            }
            i = i + 1;
        }
        false
    }
}

impl Clone for TermStack {
    fn clone(&self) -> (result: TermStack)
        ensures
            result@ == self@,
    {
        let mut innermost_stack: Vec<Config> = Vec::new();
        let mut i: usize = 0;
        while i < self.innermost_stack.len()
            invariant
                i <= self.innermost_stack@.len(),
                innermost_stack@.len() == i,
                forall|j: int| 0 <= j < i ==> (#[trigger] innermost_stack@[j])@ == self.innermost_stack@[j]@,
            decreases self.innermost_stack@.len() - i,
        {
            innermost_stack.push(self.innermost_stack[i].copy());
            i = i + 1;
        }
        let mut variables: Vec<(ExplicitPosition, usize)> = Vec::new();
        let mut k: usize = 0;
        while k < self.variables.len()
            invariant
                k <= self.variables@.len(),
                variables@.len() == k,
                forall|j: int|
                    0 <= j < k ==> (#[trigger] variables@[j]).0@ == self.variables@[j].0@ && variables@[j].1
                        == self.variables@[j].1,
            decreases self.variables@.len() - k,
        {
            let (p, index) = &self.variables[k];
            variables.push((p.clone(), *index));
            k = k + 1;
        }
        let result = TermStack { innermost_stack, variables, stack_size: self.stack_size };
        assert(configs_view(result.innermost_stack@) =~= configs_view(self.innermost_stack@));
        assert(stack_variables_view(result.variables@) =~= stack_variables_view(self.variables@));
        result
    }
}

/// The default term: the default function symbol, which stands in a slot of
/// the stack that is not filled yet.
pub open spec fn default_term() -> Term {
    Term { symbol: DATA_APPLICATION, variable: false, args: Seq::empty() }
}

/// The term built from the function symbol `f` and the arguments: the symbol
/// itself without arguments, its application otherwise.
pub open spec fn build_term(f: usize, args: Seq<Term>) -> Term {
    if args.len() == 0 {
        Term { symbol: f, variable: false, args: Seq::empty() }
    } else {
        Term {
            symbol: DATA_APPLICATION,
            variable: false,
            args: seq![Term { symbol: f, variable: false, args: Seq::empty() }] + args,
        }
    }
}

/// One step of the stack machine: a construction takes the last `arity`
/// terms as arguments, removes them and puts the built term at the index; a
/// term is put at its index. `None` where the configuration cannot be run.
pub open spec fn run_config(c: ConfigModel, ts: Seq<Term>) -> Option<Seq<Term>> {
    match c {
        ConfigModel::Construct(f, arity, index) => if arity <= ts.len() && index < ts.len() - arity {
            Some(ts.take(ts.len() - arity).update(index as int, build_term(f, ts.skip(ts.len() - arity))))
        } else {
            None
        },
        ConfigModel::Term(t, index) => if index < ts.len() {
            Some(ts.update(index as int, t))
        } else {
            None
        },
        _ => None,
    }
}

/// Runs the configurations from the last one to the first one.
pub open spec fn run_configs(cs: Seq<ConfigModel>, ts: Seq<Term>) -> Option<Seq<Term>>
    decreases cs.len(),
{
    if cs.len() == 0 {
        Some(ts)
    } else {
        match run_config(cs.last(), ts) {
            Some(next) => run_configs(cs.drop_last(), next),
            None => None,
        }
    }
}

/// The configurations of the term stack placed on a stack whose top is at
/// `top`: the first one puts its result at `result_index`, the others at
/// their offset from the top.
pub open spec fn placed_configs(cs: Seq<ConfigModel>, top: nat, result_index: usize) -> Seq<ConfigModel> {
    Seq::new(
        cs.len(),
        |i: int|
            match cs[i] {
                ConfigModel::Construct(f, arity, offset) => ConfigModel::Construct(
                    f,
                    arity,
                    if i == 0 {
                        result_index
                    } else {
                        (top + offset - 1) as usize
                    },
                ),
                other => other,
            },
    )
}

/// The terms with the subterms of `t` at the positions of the variables put
/// at their indices above `top`, one variable after the other.
pub open spec fn placed_variables(ts: Seq<Term>, vars: Seq<(Seq<usize>, usize)>, top: nat, t: Term) -> Seq<Term>
    decreases vars.len(),
{
    if vars.len() == 0 {
        ts
    } else {
        placed_variables(ts, vars.drop_last(), top, t).update(
            top + vars.last().1 - 1,
            subterm_at(t, vars.last().0)->0,
        )
    }
}

/// The terms of the stack after the term stack is placed on it for the term
/// `t`: `stack_size - 1` default terms are added, and the subterms of `t` at
/// the positions of the variables are put at their indices (at the result
/// index when the term stack is a single variable).
pub open spec fn placed_terms(ts: Seq<Term>, stack: TermStackModel, t: Term, result_index: usize) -> Seq<Term> {
    let grown = ts + Seq::new((stack.stack_size - 1) as nat, |i: int| default_term());
    if stack.stack_size == 1 && stack.variables.len() == 1 {
        grown.update(result_index as int, subterm_at(t, stack.variables[0].0)->0)
    } else {
        placed_variables(grown, stack.variables, ts.len(), t)
    }
}

/// This stack is used to avoid recursion and also to keep track of terms in
/// normal forms by explicitly representing the rewrites of a right hand
/// side.
#[derive(Debug)]
pub struct InnermostStack {
    pub configs: Vec<Config>,
    pub terms: Vec<ATerm>,
}

impl InnermostStack {
    /// Indicate that the given symbol with arity can be constructed at the given index.
    pub fn add_result(configs: &mut Vec<Config>, symbol: usize, arity: usize, index: usize)
        ensures
            configs_view(final(configs)@) == configs_view(old(configs)@).push(
                ConfigModel::Construct(symbol, arity, index),
            ),
    {
        let ghost before = configs_view(configs@);
        configs.push(Config::Construct(symbol, arity, index));
        assert(configs_view(configs@) =~= before.push(ConfigModel::Construct(symbol, arity, index)));
    }

    /// Indicate that the term must be rewritten and its result must be placed at the given index.
    pub fn add_rewrite(configs: &mut Vec<Config>, terms: &mut Vec<ATerm>, term: ATerm, index: usize)
        ensures
            configs_view(final(configs)@) == configs_view(old(configs)@).push(ConfigModel::Rewrite(index)),
            terms_view(final(terms)@) == terms_view(old(terms)@).push(term@),
    {
        let ghost before = configs_view(configs@);
        let ghost before_terms = terms_view(terms@);
        configs.push(Config::Rewrite(index));
        terms.push(term);
        assert(configs_view(configs@) =~= before.push(ConfigModel::Rewrite(index)));
        assert(terms_view(terms@) =~= before_terms.push(term@));
    }

    /// Updates the InnermostStack to integrate the rhs_stack instructions.
    pub fn integrate(
        configs: &mut Vec<Config>,
        terms: &mut Vec<ATerm>,
        rhs_stack: &TermStack,
        term: &ATerm,
        result_index: usize,
    )
        requires
            rhs_stack.stack_size >= 1,
            result_index < old(terms)@.len(),
            old(terms)@.len() + rhs_stack.stack_size <= usize::MAX,
            forall|i: int| 0 <= i < rhs_stack.innermost_stack@.len() ==> (#[trigger] rhs_stack.innermost_stack@[i]) is Construct || rhs_stack.innermost_stack@[i] is Term,
            forall|i: int|
                0 <= i < rhs_stack.innermost_stack@.len() && (#[trigger] rhs_stack.innermost_stack@[i]) is Construct
                    ==> rhs_stack.innermost_stack@[i]->Construct_2 < rhs_stack.stack_size,
            forall|v: int|
                0 <= v < rhs_stack.variables@.len() ==> is_position(term@, (#[trigger] rhs_stack.variables@[v]).0@)
                    && 1 <= rhs_stack.variables@[v].1 < rhs_stack.stack_size,
            rhs_stack.stack_size != 1 || rhs_stack.variables@.len() <= 1,
        ensures
            configs_view(final(configs)@) == configs_view(old(configs)@) + placed_configs(
                configs_view(rhs_stack.innermost_stack@),
                old(terms)@.len(),
                result_index,
            ),
            terms_view(final(terms)@) == placed_terms(terms_view(old(terms)@), rhs_stack@, term@, result_index),
    {
        let ghost cs = configs_view(rhs_stack.innermost_stack@);
        let ghost before_configs = configs_view(configs@);
        let ghost before_terms = terms_view(terms@);
        let top_of_stack = terms.len();
        let mut i: usize = 0;
        while i < rhs_stack.stack_size - 1
            invariant
                i <= rhs_stack.stack_size - 1,
                terms@.len() == top_of_stack + i,
                top_of_stack == before_terms.len(),
                terms_view(terms@) == before_terms + Seq::new(i as nat, |k: int| default_term()),
            decreases rhs_stack.stack_size - 1 - i,
        {
            let ghost prev = terms_view(terms@);
            terms.push(ATerm::constant(DATA_APPLICATION));
            assert(terms_view(terms@) =~= prev.push(default_term()));
            assert(terms_view(terms@) =~= before_terms + Seq::new((i + 1) as nat, |k: int| default_term()));
            i = i + 1;
        }
        let mut first = true;
        let mut c: usize = 0;
        while c < rhs_stack.innermost_stack.len()
            invariant
                c <= cs.len(),
                cs == configs_view(rhs_stack.innermost_stack@),
                first == (c == 0),
                top_of_stack == before_terms.len(),
                top_of_stack >= 1,
                top_of_stack + rhs_stack.stack_size <= usize::MAX,
                forall|i: int| 0 <= i < rhs_stack.innermost_stack@.len() ==> (#[trigger] rhs_stack.innermost_stack@[i]) is Construct || rhs_stack.innermost_stack@[i] is Term,
                forall|i: int|
                    0 <= i < rhs_stack.innermost_stack@.len() && (#[trigger] rhs_stack.innermost_stack@[i]) is Construct
                        ==> rhs_stack.innermost_stack@[i]->Construct_2 < rhs_stack.stack_size,
                configs_view(configs@) == before_configs + placed_configs(cs, top_of_stack as nat, result_index).take(c as int),
            decreases cs.len() - c,
        {
            let ghost prev = configs_view(configs@);
            let ghost placed = placed_configs(cs, top_of_stack as nat, result_index);
            assert(cs[c as int] == rhs_stack.innermost_stack@[c as int]@);
            match &rhs_stack.innermost_stack[c] {
                Config::Construct(symbol, arity, offset) => {
                    if first {
                        // The first result must be placed at the given result index.
                        InnermostStack::add_result(configs, *symbol, *arity, result_index);
                    } else {
                        // Otherwise, we put it on the end of the stack.
                        InnermostStack::add_result(configs, *symbol, *arity, top_of_stack + *offset - 1);
                    }
                },
                Config::Term(t, index) => {
                    configs.push(Config::Term(t.copy(), *index));
                    assert(configs_view(configs@) =~= prev.push(ConfigModel::Term(t@, *index)));
                },
                _ => {
                    assert(false);
                },
            }
            assert(placed.take(c + 1) =~= placed.take(c as int).push(placed[c as int]));
            assert(configs_view(configs@) =~= before_configs + placed.take(c + 1));
            first = false;
            c = c + 1;
        }
        assert(placed_configs(cs, top_of_stack as nat, result_index).take(cs.len() as int) =~= placed_configs(
            cs,
            top_of_stack as nat,
            result_index,
        ));
        let ghost grown = terms_view(terms@);
        assert(grown == before_terms + Seq::new((rhs_stack.stack_size - 1) as nat, |k: int| default_term()));
        assert(placed_variables(grown, stack_variables_view(rhs_stack.variables@).take(0), top_of_stack as nat, term@) == grown);
        if rhs_stack.stack_size == 1 && rhs_stack.variables.len() == 1 {
            // This is a special case where we place the result on the correct position immediately.
            // The right hand side is only a variable
            let t = get_position(term, &rhs_stack.variables[0].0);
            let ghost prev = terms_view(terms@);
            terms.set(result_index, t);
            assert(terms_view(terms@) =~= prev.update(result_index as int, t@));
            assert(stack_variables_view(rhs_stack.variables@)[0] == (rhs_stack.variables@[0].0@, rhs_stack.variables@[0].1));
        } else {
            let ghost vars = stack_variables_view(rhs_stack.variables@);
            let mut v: usize = 0;
            while v < rhs_stack.variables.len()
                invariant
                    v <= rhs_stack.variables@.len(),
                    vars == stack_variables_view(rhs_stack.variables@),
                    top_of_stack == before_terms.len(),
                    top_of_stack >= 1,
                    top_of_stack + rhs_stack.stack_size <= usize::MAX,
                    terms@.len() == grown.len(),
                    grown.len() == top_of_stack + rhs_stack.stack_size - 1,
                    forall|w: int|
                        0 <= w < rhs_stack.variables@.len() ==> is_position(term@, (#[trigger] rhs_stack.variables@[w]).0@)
                            && 1 <= rhs_stack.variables@[w].1 < rhs_stack.stack_size,
                    terms_view(terms@) == placed_variables(grown, vars.take(v as int), top_of_stack as nat, term@),
                decreases rhs_stack.variables@.len() - v,
            {
                // Add the positions to the stack.
                let (position, index) = (&rhs_stack.variables[v].0, rhs_stack.variables[v].1);
                assert(vars[v as int] == (position@, index));
                let ghost prev = terms_view(terms@);
                let t = get_position(term, position);
                terms.set(top_of_stack + index - 1, t);
                proof {
                    assert(vars.take(v + 1).drop_last() =~= vars.take(v as int));
                    assert(vars.take(v + 1).last() == vars[v as int]);
                    assert(terms_view(terms@) =~= prev.update(top_of_stack + index - 1, t@));
                }
                v = v + 1;
            }
            assert(vars.take(vars.len() as int) =~= vars);
        }
    }
}

/// A builder that holds the stack on which term stacks are evaluated.
#[derive(Debug)]
pub struct TermStackBuilder {
    stack: InnermostStack,
}

impl TermStackBuilder {
    /// No configuration waits on the stack of a builder: every evaluation
    /// runs all of them.
    #[verifier::type_invariant]
    spec fn no_pending_configs(self) -> bool {
        self.stack.configs@.len() == 0
    }

    /// The stack holds nothing.
    pub closed spec fn is_empty(&self) -> bool {
        self.stack.configs@.len() == 0 && self.stack.terms@.len() == 0
    }

    /// Creates a builder with an empty stack.
    pub fn new() -> (result: Self)
        ensures
            result.is_empty(),
    {
        TermStackBuilder { stack: InnermostStack { configs: Vec::new(), terms: Vec::new() } }
    }
}

/// The term stack can be evaluated on `t`: its configurations construct
/// terms and put terms on the stack only, at indices that exist, its
/// variables are at positions of `t`, and running its configurations on the
/// placed terms succeeds with at least one term.
pub open spec fn evaluable(stack: TermStack, t: Term) -> bool {
    let cs = configs_view(stack.innermost_stack@);
    &&& stack.stack_size >= 1
    &&& 1 + stack.stack_size <= usize::MAX
    &&& forall|i: int|
        0 <= i < stack.innermost_stack@.len() ==> (#[trigger] stack.innermost_stack@[i]) is Construct
            || stack.innermost_stack@[i] is Term
    &&& forall|i: int|
        0 <= i < stack.innermost_stack@.len() && (#[trigger] stack.innermost_stack@[i]) is Construct
            ==> stack.innermost_stack@[i]->Construct_2 < stack.stack_size
    &&& forall|v: int|
        0 <= v < stack.variables@.len() ==> is_position(t, (#[trigger] stack.variables@[v]).0@) && 1
            <= stack.variables@[v].1 < stack.stack_size
    &&& stack.stack_size != 1 || stack.variables@.len() <= 1
    &&& run_configs(placed_configs(cs, 1, 0), placed_terms(seq![default_term()], stack@, t, 0)) is Some
    &&& run_configs(placed_configs(cs, 1, 0), placed_terms(seq![default_term()], stack@, t, 0))->0.len() >= 1
}

/// The term that the stack machine yields for the term stack on `t`: the
/// last term after running the placed configurations on the placed terms.
pub open spec fn evaluation(stack: TermStack, t: Term) -> Term {
    let cs = configs_view(stack.innermost_stack@);
    run_configs(placed_configs(cs, 1, 0), placed_terms(seq![default_term()], stack@, t, 0))->0.last()
}

impl TermStack {
    /// Construct a new right-hand stack for a given equation/rewrite rule.
    pub fn new(rule: &Rule) -> (result: TermStack)
        requires
            variables_bound(rule.rhs@, rule.lhs@),
            term_size(rule.rhs@) <= usize::MAX,
        ensures
            exists|m: Map<usize, Seq<usize>>, ps: Seq<Seq<usize>>|
                var_map_sound(rule.lhs@, m) && variables_in(rule.lhs@, m.dom()) && lists_positions(
                    rule.rhs@,
                    ps,
                ) && result@ == term_stack_of(rule.rhs@, ps, m),
    {
        let var_map = create_var_map(&rule.lhs);
        proof {
            lemma_variables_bound(rule.rhs@, rule.lhs@, var_map@.dom());
            assert(var_positions(var_map@).dom() == var_map@.dom());
        }
        TermStack::from_term(&rule.rhs, &var_map)
    }

    /// Evaluates the term stack for the given term, see [TermStack::evaluate_with].
    pub fn evaluate(&self, term: &ATerm) -> (result: ATerm)
        requires
            evaluable(*self, term@),
        ensures
            result@ == evaluation(*self, term@),
    {
        let mut builder = TermStackBuilder::new();
        self.evaluate_with(term, &mut builder)
    }

    /// Evaluate the rhs stack for the given term and returns the result.
    pub fn evaluate_with(&self, term: &ATerm, builder: &mut TermStackBuilder) -> (result: ATerm)
        requires
            evaluable(*self, term@),
        ensures
            result@ == evaluation(*self, term@),
    {
        let ghost cs = configs_view(self.innermost_stack@);
        proof {
            use_type_invariant(&*builder);
        }
        // Work on the stack of the builder, leaving it empty meanwhile.
        let mut stack = InnermostStack { configs: Vec::new(), terms: Vec::new() };
        std::mem::swap(&mut stack, &mut builder.stack);
        stack.terms.clear();
        stack.terms.push(ATerm::constant(DATA_APPLICATION));
        assert(terms_view(stack.terms@) =~= seq![default_term()]);
        assert(configs_view(stack.configs@) =~= Seq::<ConfigModel>::empty());
        InnermostStack::integrate(&mut stack.configs, &mut stack.terms, self, term, 0);
        assert(configs_view(stack.configs@) =~= placed_configs(cs, 1, 0));
        let ghost total = run_configs(placed_configs(cs, 1, 0), placed_terms(seq![default_term()], self@, term@, 0));
        while stack.configs.len() > 0
            invariant
                run_configs(configs_view(stack.configs@), terms_view(stack.terms@)) == total,
                total is Some,
                total->0.len() >= 1,
            decreases stack.configs@.len(),
        {
            let ghost cv = configs_view(stack.configs@);
            let ghost tv = terms_view(stack.terms@);
            let config = stack.configs.pop().unwrap();
            assert(cv.last() == config@);
            assert(configs_view(stack.configs@) =~= cv.drop_last());
            match config {
                Config::Construct(symbol, arity, index) => {
                    // Take the last arity arguments.
                    let length = stack.terms.len();
                    let mut arguments: Vec<ATerm> = Vec::new();
                    let mut k: usize = length - arity;
                    while k < length
                        invariant
                            length == stack.terms@.len(),
                            arity <= length,
                            length - arity <= k <= length,
                            tv == terms_view(stack.terms@),
                            terms_view(arguments@) == tv.subrange(length - arity, k as int),
                        decreases length - k,
                    {
                        let ghost before = terms_view(arguments@);
                        arguments.push(stack.terms[k].copy());
                        assert(terms_view(arguments@) =~= before.push(tv[k as int]));
                        assert(tv.subrange(length - arity, k + 1) =~= tv.subrange(length - arity, k as int).push(
                            tv[k as int],
                        ));
                        k = k + 1;
                    }
                    assert(tv.subrange(length - arity, length as int) =~= tv.skip(length - arity));
                    let t = if arity == 0 {
                        ATerm::constant(symbol)
                    } else {
                        data_application(symbol, arguments)
                    };
                    assert(t@ == build_term(symbol, tv.skip(length - arity)));
                    // Add the term on the stack.
                    stack.terms.truncate(length - arity);
                    stack.terms.set(index, t);
                    assert(terms_view(stack.terms@) =~= tv.take(length - arity).update(
                        index as int,
                        build_term(symbol, tv.skip(length - arity)),
                    ));
                },
                Config::Term(t, index) => {
                    stack.terms.set(index, t);
                    assert(terms_view(stack.terms@) =~= tv.update(index as int, config@->Term_0));
                },
                _ => {
                    assert(false);
                },
            }
        }
        let r = stack.terms.pop().unwrap();
        builder.stack = stack;
        r
    }
}

} // verus!
