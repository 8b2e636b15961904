use vstd::prelude::*;

use crate::term::{subterm_at, terms_view, ATerm, Term};

verus! {

/// The head symbol of every data application. Its first argument is the
/// applied function symbol, the other arguments are the data arguments. The
/// operation id 0 is the default function symbol, which never occurs in a
/// rewrite rule.
pub const DATA_APPLICATION: usize = 0;

/// A data variable: a variable without arguments.
pub open spec fn is_data_variable(t: Term) -> bool {
    t.variable && t.args.len() == 0
}

/// A data function symbol: a constant that is not a variable, identified by
/// its operation id.
pub open spec fn is_data_function_symbol(t: Term) -> bool {
    !t.variable && t.args.len() == 0
}

/// A data application `f(t_1, ..., t_n)`, stored as the term
/// `DATA_APPLICATION(f, t_1, ..., t_n)`.
pub open spec fn is_data_application(t: Term) -> bool {
    !t.variable && t.symbol == DATA_APPLICATION && t.args.len() > 0
}

/// The data function symbol of a term: the head of an application, otherwise
/// the term itself.
pub open spec fn data_function_symbol(t: Term) -> Term {
    if is_data_application(t) {
        t.args[0]
    } else {
        t
    }
}

/// The data arguments of a term: those of an application, otherwise none.
pub open spec fn data_arguments(t: Term) -> Seq<Term> {
    if is_data_application(t) {
        t.args.drop_first()
    } else {
        Seq::empty()
    }
}

/// A first-order data expression: every subterm is a variable, a function
/// symbol or the application of a function symbol (so no higher-order
/// application and no other construct), and no function symbol is the
/// default one.
pub open spec fn is_supported(t: Term) -> bool
    decreases t,
{
    if t.args.len() == 0 {
        t.variable || t.symbol != DATA_APPLICATION
    } else {
        &&& is_data_application(t)
        &&& is_data_function_symbol(t.args[0])
        &&& t.args[0].symbol != DATA_APPLICATION
        &&& forall|i: int| 1 <= i < t.args.len() ==> is_supported(#[trigger] t.args[i])
    }
}

/// The function symbol with operation id `f` occurs in `t` with `n` data
/// arguments.
pub open spec fn symbol_occurs(t: Term, f: usize, n: nat) -> bool
    decreases t,
{
    if t.args.len() == 0 {
        !t.variable && t.symbol == f && n == 0
    } else {
        ||| (t.args[0].symbol == f && n == t.args.len() - 1)
        ||| exists|i: int| 1 <= i < t.args.len() && symbol_occurs(#[trigger] t.args[i], f, n)
    }
}

/// Creates the data variable with the given index.
pub fn data_variable(index: usize) -> (result: ATerm)
    ensures
        result@ == (Term { symbol: index, variable: true, args: Seq::empty() }),
        is_data_variable(result@),
{
    ATerm::new_variable(index)
}

/// Creates the data function symbol with the given operation id.
pub fn data_function(operation_id: usize) -> (result: ATerm)
    ensures
        result@ == (Term { symbol: operation_id, variable: false, args: Seq::empty() }),
        is_data_function_symbol(result@),
{
    ATerm::constant(operation_id)
}

/// Creates the data application of the function symbol with the given
/// operation id to the arguments; without arguments this is the function
/// symbol itself.
pub fn data_application(operation_id: usize, arguments: Vec<ATerm>) -> (result: ATerm)
    ensures
        arguments@.len() == 0 ==> result@ == (Term {
            symbol: operation_id,
            variable: false,
            args: Seq::empty(),
        }),
        arguments@.len() > 0 ==> is_data_application(result@),
        arguments@.len() > 0 ==> data_function_symbol(result@) == (Term {
            symbol: operation_id,
            variable: false,
            args: Seq::empty(),
        }),
        arguments@.len() > 0 ==> data_arguments(result@) == terms_view(arguments@),
        arguments@.len() > 0 ==> result@ == (Term {
            symbol: DATA_APPLICATION,
            variable: false,
            args: seq![Term { symbol: operation_id, variable: false, args: Seq::empty() }] + terms_view(
                arguments@,
            ),
        }),
{
    if arguments.len() == 0 {
        return ATerm::constant(operation_id);
    }
    let mut args: Vec<ATerm> = Vec::new();
    args.push(ATerm::constant(operation_id));
    let mut i: usize = 0;
    while i < arguments.len()
        invariant
            i <= arguments@.len(),
            args@.len() == i + 1,
            args@[0]@ == (Term { symbol: operation_id, variable: false, args: Seq::empty() }),
            forall|j: int| 0 <= j < i ==> (#[trigger] args@[j + 1])@ == arguments@[j]@,
        decreases arguments@.len() - i,
    {
        args.push(arguments[i].copy());
        i = i + 1;
    }
    let result = ATerm::new(DATA_APPLICATION, args);
    assert(data_arguments(result@) =~= terms_view(arguments@));
    assert(result@.args =~= seq![Term { symbol: operation_id, variable: false, args: Seq::empty() }] + terms_view(
        arguments@,
    ));
    result
}

/// Whether the term is a data variable.
pub fn is_data_variable_exec(t: &ATerm) -> (result: bool)
    ensures
        result == is_data_variable(t@),
{
    t.is_variable() && t.arity() == 0
}

/// Whether the term is a data function symbol.
pub fn is_data_function_symbol_exec(t: &ATerm) -> (result: bool)
    ensures
        result == is_data_function_symbol(t@),
{
    !t.is_variable() && t.arity() == 0
}

/// Whether the term is a data application.
pub fn is_data_application_exec(t: &ATerm) -> (result: bool)
    ensures
        result == is_data_application(t@),
{
    !t.is_variable() && t.get_head_symbol() == DATA_APPLICATION && t.arity() > 0
}

/// Returns the data function symbol of the given term
pub fn get_data_function_symbol(term: &ATerm) -> (result: &ATerm)
    ensures
        result@ == data_function_symbol(term@),
{
    // If this is an application it is the first argument, otherwise it's the term itself
    if is_data_application_exec(term) {
        term.arg(0)
    } else {
        term
    }
}

/// Returns the data arguments of the term
pub fn get_data_arguments(term: &ATerm) -> (result: &[ATerm])
    ensures
        terms_view(result@) == data_arguments(term@),
{
    if is_data_application_exec(term) {
        let r = vstd::slice::slice_subrange(term.args.as_slice(), 1, term.args.len());
        assert(terms_view(r@) =~= data_arguments(term@));
        r
    } else {
        let r = vstd::slice::slice_subrange(term.args.as_slice(), 0, 0);
        assert(terms_view(r@) =~= Seq::<Term>::empty());
        r
    }
}

/// Returns false iff this is a higher order term, of the shape t(t_0, ..., t_n), or an unknown term.
pub fn is_supported_term(t: &ATerm) -> (result: bool)
    ensures
        result == is_supported(t@),
    decreases t,
{
    if t.arity() == 0 {
        return t.is_variable() || t.get_head_symbol() != DATA_APPLICATION;
    }
    if !is_data_application_exec(t) || !is_data_function_symbol_exec(t.arg(0)) || t.arg(0).get_head_symbol()
        == DATA_APPLICATION {
        return false;
    }
    let mut i: usize = 1;
    while i < t.arity()
        invariant
            1 <= i <= t@.args.len(),
            forall|j: int| 1 <= j < i ==> is_supported(#[trigger] t@.args[j]),
        decreases t@.args.len() - i,
    {
        assert(decreases_to!(t => t.args));
        assert(decreases_to!(t.args => t.args@[i as int]));
        if !is_supported_term(&t.args[i]) {
            assert(!is_supported(t@.args[i as int]));
            return false;
        }
        i = i + 1;
    }
    true
}

/// A set of variables, identified by their symbol index.
pub type VariableSet = ahash::HashSet<usize>;

/// Calls `HashSet::contains` on a set with the `ahash` hasher: whether the
/// value is in the set.
#[verifier::external_body]
pub(crate) fn variable_set_contains(s: &VariableSet, value: usize) -> (result: bool)
    ensures
        result == s@.contains(value),
{
    s.contains(&value)
}

/// The untyped data expression of a term: a symbol in `variables` becomes a
/// data variable, another constant a data function symbol, and a function
/// symbol applied to arguments a data application.
pub open spec fn data_expression_of(t: Term, variables: Set<usize>) -> Term
    decreases t,
{
    if variables.contains(t.symbol) {
        Term { symbol: t.symbol, variable: true, args: Seq::empty() }
    } else if t.args.len() == 0 {
        Term { symbol: t.symbol, variable: false, args: Seq::empty() }
    } else {
        Term {
            symbol: DATA_APPLICATION,
            variable: false,
            args: seq![Term { symbol: t.symbol, variable: false, args: Seq::empty() }] + Seq::new(
                t.args.len(),
                |i: int|
                    if 0 <= i < t.args.len() {
                        data_expression_of(t.args[i], variables)
                    } else {
                        arbitrary()
                    },
            ),
        }
    }
}

/// The data expression of a function symbol `f` applied to arguments is an
/// application of `f` to the data expressions of the arguments, in the same
/// order; a symbol in `variables` becomes a data variable and another
/// constant a data function symbol.
pub proof fn lemma_data_expression_arguments(t: Term, variables: Set<usize>)
    ensures
        variables.contains(t.symbol) ==> is_data_variable(data_expression_of(t, variables))
            && data_expression_of(t, variables).symbol == t.symbol,
        !variables.contains(t.symbol) && t.args.len() == 0 ==> is_data_function_symbol(data_expression_of(t, variables))
            && data_expression_of(t, variables).symbol == t.symbol,
        !variables.contains(t.symbol) && t.args.len() > 0 ==> {
            let d = data_expression_of(t, variables);
            &&& is_data_application(d)
            &&& data_function_symbol(d) == (Term { symbol: t.symbol, variable: false, args: Seq::empty() })
            &&& data_arguments(d).len() == t.args.len()
            &&& forall|i: int| 0 <= i < t.args.len() ==> #[trigger] data_arguments(d)[i] == data_expression_of(t.args[i], variables)
        },
{
    if !variables.contains(t.symbol) && t.args.len() > 0 {
        let d = data_expression_of(t, variables);
        assert forall|i: int| 0 <= i < t.args.len() implies #[trigger] data_arguments(d)[i] == data_expression_of(
            t.args[i],
            variables,
        ) by {
            assert(data_arguments(d)[i] == d.args[i + 1]);
        }
    }
}

/// Converts an [ATerm] to an untyped data expression.
pub fn to_data_expression(t: &ATerm, variables: &VariableSet) -> (result: ATerm)
    ensures
        result@ == data_expression_of(t@, variables@),
    decreases t,
{
    if variable_set_contains(variables, t.symbol) {
        // Convert a constant variable, for example 'x', into an untyped variable.
        return data_variable(t.symbol);
    }
    if t.args.len() == 0 {
        return data_function(t.symbol);
    }
    // This is a function symbol applied to a number of arguments (higher order terms not allowed)
    let mut args: Vec<ATerm> = Vec::new();
    let mut i: usize = 0;
    while i < t.args.len()
        invariant
            i <= t.args@.len(),
            args@.len() == i,
            forall|j: int| 0 <= j < i ==> (#[trigger] args@[j])@ == data_expression_of(t@.args[j], variables@),
        decreases t.args@.len() - i,
    {
        assert(decreases_to!(t => t.args));
        assert(decreases_to!(t.args => t.args@[i as int]));
        args.push(to_data_expression(&t.args[i], variables));
        i = i + 1;
    }
    let result = data_application(t.symbol, args);
    assert(result@.args =~= data_expression_of(t@, variables@).args);
    result
}

/// Calls `HashSet::insert` on a set with the `ahash` hasher: afterwards the
/// set also holds the value.
#[verifier::external_body]
pub(crate) fn variable_set_insert(s: &mut VariableSet, value: usize)
    ensures
        final(s)@ == old(s)@.insert(value),
{
    s.insert(value);
}

/// The symbols of the data variables that occur in `t`.
pub open spec fn data_variables(t: Term) -> Set<usize> {
    Set::new(
        |v: usize|
            exists|p: Seq<usize>|
                #![trigger subterm_at(t, p)]
                subterm_at(t, p) is Some && is_data_variable(subterm_at(t, p)->0) && subterm_at(t, p)->0.symbol == v,
    )
}

/// Finds all data variables in the term and adds them to the set.
pub fn find_variables(t: &ATerm, variables: &mut VariableSet)
    ensures
        final(variables)@ == old(variables)@.union(data_variables(t@)),
    decreases t,
{
    let ghost start = variables@;
    if is_data_variable_exec(t) {
        variable_set_insert(variables, t.symbol);
        assert(subterm_at(t@, Seq::<usize>::empty()) == Some(t@));
    }
    let ghost own = variables@;
    let mut i: usize = 0;
    while i < t.args.len()
        invariant
            i <= t.args@.len(),
            own == (if is_data_variable(t@) { start.insert(t@.symbol) } else { start }),
            variables@ == own.union(
                Set::new(
                    |v: usize|
                        exists|j: int|
                            #![trigger t@.args[j]]
                            0 <= j < i && data_variables(t@.args[j]).contains(v),
                ),
            ),
        decreases t.args@.len() - i,
    {
        assert(decreases_to!(t => t.args));
        assert(decreases_to!(t.args => t.args@[i as int]));
        let ghost before = variables@;
        find_variables(&t.args[i], variables);
        assert(variables@ =~= own.union(
            Set::new(
                |v: usize|
                    exists|j: int|
                        #![trigger t@.args[j]]
                        0 <= j < i + 1 && data_variables(t@.args[j]).contains(v),
            ),
        )) by {
            assert forall|v: usize| variables@.contains(v) implies own.contains(v) || exists|j: int|
                #![trigger t@.args[j]]
                0 <= j < i + 1 && data_variables(t@.args[j]).contains(v) by {
                if !before.contains(v) && !own.contains(v) {
                    assert(data_variables(t@.args[i as int]).contains(v));
                }
            }
        }
        i = i + 1;
    }
    assert(variables@ =~= start.union(data_variables(t@))) by {
        assert forall|v: usize| data_variables(t@).contains(v) implies variables@.contains(v) by {
            let p = choose|p: Seq<usize>|
                #![trigger subterm_at(t@, p)]
                subterm_at(t@, p) is Some && is_data_variable(subterm_at(t@, p)->0) && subterm_at(t@, p)->0.symbol
                    == v;
            if p.len() > 0 {
                let c = p[0];
                let q = p.drop_first();
                assert(p =~= seq![c] + q);
                crate::term::lemma_subterm_cons(t@, c, q);
                assert(subterm_at(t@.args[c - 1], q) == subterm_at(t@, p));
                assert(data_variables(t@.args[c - 1]).contains(v));
                assert(t@.args[(c - 1) as int] == t@.args[c - 1]);
            }
        }
        assert forall|v: usize| variables@.contains(v) && !start.contains(v) implies data_variables(t@).contains(v) by {
            if !(is_data_variable(t@) && v == t@.symbol) {
                let j = choose|j: int| #![trigger t@.args[j]] 0 <= j < t@.args.len() && data_variables(t@.args[j]).contains(v);
                let q = choose|q: Seq<usize>|
                    #![trigger subterm_at(t@.args[j], q)]
                    subterm_at(t@.args[j], q) is Some && is_data_variable(subterm_at(t@.args[j], q)->0) && subterm_at(
                        t@.args[j],
                        q,
                    )->0.symbol == v;
                crate::term::lemma_subterm_cons(t@, (j + 1) as usize, q);
                assert(subterm_at(t@, seq![(j + 1) as usize] + q) == subterm_at(t@.args[j], q));
            } else {
                assert(subterm_at(t@, Seq::<usize>::empty()) == Some(t@));
            }
        }
    }
}

} // verus!
