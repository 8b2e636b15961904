use sabre::{
    data_application, data_function, data_variable, ATerm, Condition, ConfigurationStack, ExplicitPosition,
    RewriteEngine, RewriteSpecification, RewritingStatistics, Rule, SabreRewriter,
};

const F: usize = 1;
const A: usize = 2;
const B: usize = 3;
const G: usize = 4;
const C: usize = 5;
const ZERO: usize = 6;
const S: usize = 7;
const PLUS: usize = 8;
const X: usize = 1;
const Y: usize = 2;

fn appl(f: usize, args: Vec<ATerm>) -> ATerm {
    data_application(f, args)
}

fn rule(lhs: ATerm, rhs: ATerm) -> Rule {
    Rule { conditions: vec![], lhs, rhs }
}

fn rewriter(rules: Vec<Rule>) -> SabreRewriter {
    SabreRewriter::new(&RewriteSpecification { rewrite_rules: rules, constructors: vec![] })
}

#[test]
fn sabre_without_rules_gives_the_term_back() {
    let mut sabre = rewriter(vec![]);
    let term = appl(F, vec![appl(G, vec![data_function(A)]), data_function(B)]);
    assert!(sabre.rewrite(term.copy()).unwrap().equals(&term));
}

#[test]
fn sabre_rewrites_below_a_function_symbol() {
    // f(a) -> b rewrites f(f(a)) to f(b).
    let mut sabre = rewriter(vec![rule(appl(F, vec![data_function(A)]), data_function(B))]);
    let term = appl(F, vec![appl(F, vec![data_function(A)])]);
    assert!(sabre.rewrite(term).unwrap().equals(&appl(F, vec![data_function(B)])));

    // Below a symbol that occurs in no rule the arguments are rewritten too.
    let below = appl(G, vec![appl(F, vec![data_function(A)])]);
    assert!(sabre.rewrite(below).unwrap().equals(&appl(G, vec![data_function(B)])));

    let stuck = appl(F, vec![data_function(B)]);
    assert!(sabre.rewrite(stuck.copy()).unwrap().equals(&stuck));
}

#[test]
fn sabre_rule_with_a_variable() {
    // f(x) -> x rewrites f(f(g(a))) to g(a).
    let mut sabre = rewriter(vec![rule(appl(F, vec![data_variable(X)]), data_variable(X))]);
    let term = appl(F, vec![appl(F, vec![appl(G, vec![data_function(A)])])]);
    assert!(sabre.rewrite(term).unwrap().equals(&appl(G, vec![data_function(A)])));
}

#[test]
fn sabre_addition_of_naturals() {
    // plus(0, y) -> y and plus(s(x), y) -> s(plus(x, y)).
    let mut sabre = rewriter(vec![
        rule(appl(PLUS, vec![data_function(ZERO), data_variable(Y)]), data_variable(Y)),
        rule(
            appl(PLUS, vec![appl(S, vec![data_variable(X)]), data_variable(Y)]),
            appl(S, vec![appl(PLUS, vec![data_variable(X), data_variable(Y)])]),
        ),
    ]);
    let two = appl(S, vec![appl(S, vec![data_function(ZERO)])]);
    let one = appl(S, vec![data_function(ZERO)]);
    let three = appl(S, vec![appl(S, vec![appl(S, vec![data_function(ZERO)])])]);
    let result = sabre.rewrite(appl(PLUS, vec![two, one])).unwrap();
    assert!(result.equals(&three));
    assert!(sabre.rewrite(result.copy()).unwrap().equals(&result));
}

#[test]
fn sabre_non_linear_rule() {
    // f(x, x) -> a.
    let mut sabre = rewriter(vec![rule(appl(F, vec![data_variable(X), data_variable(X)]), data_function(A))]);
    let same = appl(F, vec![data_function(B), data_function(B)]);
    assert!(sabre.rewrite(same).unwrap().equals(&data_function(A)));
    let different = appl(F, vec![data_function(B), data_function(C)]);
    assert!(sabre.rewrite(different.copy()).unwrap().equals(&different));
}

#[test]
fn sabre_conditional_rule() {
    // g(x) -> b if x == a, and g(x) -> c if x != a.
    let equal = Rule {
        conditions: vec![Condition { lhs: data_variable(X), rhs: data_function(A), equality: true }],
        lhs: appl(G, vec![data_variable(X)]),
        rhs: data_function(B),
    };
    let different = Rule {
        conditions: vec![Condition { lhs: data_variable(X), rhs: data_function(A), equality: false }],
        lhs: appl(G, vec![data_variable(X)]),
        rhs: data_function(C),
    };
    let mut sabre = rewriter(vec![equal, different]);
    assert!(sabre.rewrite(appl(G, vec![data_function(A)])).unwrap().equals(&data_function(B)));
    assert!(sabre.rewrite(appl(G, vec![data_function(B)])).unwrap().equals(&data_function(C)));
}

#[test]
fn configuration_stack_grow_and_jump_back() {
    let term = appl(F, vec![data_function(A), appl(G, vec![data_function(B)])]);
    let destinations = vec![(ExplicitPosition::new(&[2]), 1usize), (ExplicitPosition::new(&[3]), 2usize)];
    let mut cs = ConfigurationStack::new(0, term.copy());
    assert_eq!(cs.get_unexplored_leaf(), Some(0));
    assert_eq!(cs.get_prev_with_side_info(), None);

    cs.grow(0, destinations.as_slice());
    assert_eq!(cs.stack.len(), 2);
    assert_eq!(cs.stack[1].state, 1);
    assert!(cs.terms[1].equals(&data_function(A)));
    assert_eq!(cs.get_unexplored_leaf(), Some(1));
    // The remaining destination is kept as a side branch of the root.
    assert_eq!(cs.get_prev_with_side_info(), Some(0));

    cs.jump_back(0);
    assert_eq!(cs.stack.len(), 1);
    assert_eq!(cs.get_unexplored_leaf(), Some(0));
    assert!(cs.compute_final_term().equals(&term));
}

#[test]
fn sabre_larger_budget_gives_the_same_normal_form() {
    // f(x) -> x: with a budget that suffices, a larger one gives the same result.
    let sabre = rewriter(vec![rule(appl(F, vec![data_variable(X)]), data_variable(X))]);
    let term = appl(F, vec![appl(F, vec![data_function(A)])]);
    let mut stats = RewritingStatistics::default();
    let small = SabreRewriter::stack_based_normalise_aux(&sabre.automaton, &term, &mut stats, 50).unwrap();
    let large = SabreRewriter::stack_based_normalise_aux(&sabre.automaton, &term, &mut stats, 51).unwrap();
    assert!(small.equals(&data_function(A)));
    assert!(large.equals(&small));
    // Without budget nothing is found.
    assert!(SabreRewriter::stack_based_normalise_aux(&sabre.automaton, &term, &mut stats, 0).is_none());
}

#[test]
fn sabre_rewrites_the_argument_of_an_unknown_symbol() {
    // f(x) -> x rewrites g(f(a)) to g(a), where g and a occur in no rule.
    let mut sabre = rewriter(vec![rule(appl(F, vec![data_variable(X)]), data_variable(X))]);
    let term = appl(G, vec![appl(F, vec![data_function(A)])]);
    assert!(sabre.rewrite(term).unwrap().equals(&appl(G, vec![data_function(A)])));
}

#[test]
fn sabre_counts_its_rewrite_steps() {
    // h(a) -> b and g(b) -> c rewrite g(h(a)) to c in two steps.
    const H: usize = 9;
    let sabre = rewriter(vec![
        rule(appl(H, vec![data_function(A)]), data_function(B)),
        rule(appl(G, vec![data_function(B)]), data_function(C)),
    ]);
    let term = appl(G, vec![appl(H, vec![data_function(A)])]);
    let mut stats = RewritingStatistics::default();
    let result = SabreRewriter::stack_based_normalise_aux(&sabre.automaton, &term, &mut stats, 100).unwrap();
    assert!(result.equals(&data_function(C)));
    assert_eq!(stats.rewrite_steps, 2);
    assert!(stats.symbol_comparisons > 0);
}
