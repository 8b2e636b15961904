use rand::Rng;
use sabre::{
    data_application, data_function, data_variable, to_data_expression, ATerm, Condition, InnermostRewriter,
    RewriteEngine, RewriteSpecification, RewritingStatistics, Rule, VariableSet,
};

const F: usize = 1;
const A: usize = 2;
const B: usize = 3;
const G: usize = 4;
const C: usize = 5;
const ZERO: usize = 6;
const S: usize = 7;
const PLUS: usize = 8;
const X: usize = 1;
const Y: usize = 2;

fn appl(f: usize, args: Vec<ATerm>) -> ATerm {
    data_application(f, args)
}

fn rule(lhs: ATerm, rhs: ATerm) -> Rule {
    Rule { conditions: vec![], lhs, rhs }
}

fn rewriter(rules: Vec<Rule>) -> InnermostRewriter {
    InnermostRewriter::new(&RewriteSpecification { rewrite_rules: rules, constructors: vec![] })
}

/// A random term over `f` with two arguments and the constants `a` and `b`.
fn random_term(rng: &mut impl Rng, depth: usize) -> ATerm {
    if depth == 0 || rng.gen_bool(0.3) {
        if rng.gen_bool(0.5) {
            data_function(A)
        } else {
            data_function(B)
        }
    } else {
        appl(F, vec![random_term(rng, depth - 1), random_term(rng, depth - 1)])
    }
}

#[test]
fn test_innermost_simple() {
    let mut inner = rewriter(vec![]);
    let mut rng = rand::thread_rng();
    let term = random_term(&mut rng, 5);

    let result = inner.rewrite(term.copy());
    assert!(result.is_some());
    assert!(result.unwrap().equals(&term), "Should be in normal form for no rewrite rules");
}

#[test]
fn innermost_rewrites_below_a_function_symbol() {
    // f(a) -> b rewrites g(f(a)) to g(b).
    let mut inner = rewriter(vec![rule(appl(F, vec![data_function(A)]), data_function(B))]);
    let term = appl(G, vec![appl(F, vec![data_function(A)])]);
    let expected = appl(G, vec![data_function(B)]);
    assert!(inner.rewrite(term).unwrap().equals(&expected));

    // f(b) has no match.
    let stuck = appl(F, vec![data_function(B)]);
    assert!(inner.rewrite(stuck.copy()).unwrap().equals(&stuck));
}

#[test]
fn innermost_rewrites_the_arguments_first() {
    // a -> b and f(b) -> c: the argument of f(a) is rewritten first.
    let mut inner = rewriter(vec![
        rule(data_function(A), data_function(B)),
        rule(appl(F, vec![data_function(B)]), data_function(C)),
    ]);
    let term = appl(F, vec![data_function(A)]);
    assert!(inner.rewrite(term).unwrap().equals(&data_function(C)));
}

#[test]
fn innermost_rule_with_a_variable() {
    // f(x) -> x rewrites f(f(g(a))) to g(a).
    let mut inner = rewriter(vec![rule(appl(F, vec![data_variable(X)]), data_variable(X))]);
    let term = appl(F, vec![appl(F, vec![appl(G, vec![data_function(A)])])]);
    assert!(inner.rewrite(term).unwrap().equals(&appl(G, vec![data_function(A)])));
}

#[test]
fn innermost_addition_of_naturals() {
    // plus(0, y) -> y and plus(s(x), y) -> s(plus(x, y)).
    let mut inner = rewriter(vec![
        rule(appl(PLUS, vec![data_function(ZERO), data_variable(Y)]), data_variable(Y)),
        rule(
            appl(PLUS, vec![appl(S, vec![data_variable(X)]), data_variable(Y)]),
            appl(S, vec![appl(PLUS, vec![data_variable(X), data_variable(Y)])]),
        ),
    ]);
    let two = appl(S, vec![appl(S, vec![data_function(ZERO)])]);
    let one = appl(S, vec![data_function(ZERO)]);
    let three = appl(S, vec![appl(S, vec![appl(S, vec![data_function(ZERO)])])]);
    let result = inner.rewrite(appl(PLUS, vec![two, one])).unwrap();
    assert!(result.equals(&three));

    // Rewriting a normal form gives it back.
    assert!(inner.rewrite(result.copy()).unwrap().equals(&result));
}

#[test]
fn innermost_non_linear_rule() {
    // f(x, x) -> a.
    let mut inner = rewriter(vec![rule(appl(F, vec![data_variable(X), data_variable(X)]), data_function(A))]);
    let same = appl(F, vec![data_function(B), data_function(B)]);
    assert!(inner.rewrite(same).unwrap().equals(&data_function(A)));
    let different = appl(F, vec![data_function(B), data_function(C)]);
    assert!(inner.rewrite(different.copy()).unwrap().equals(&different));
}

#[test]
fn innermost_conditional_rule() {
    // g(x) -> b if x == a, and g(x) -> c if x != a.
    let equal = Rule {
        conditions: vec![Condition { lhs: data_variable(X), rhs: data_function(A), equality: true }],
        lhs: appl(G, vec![data_variable(X)]),
        rhs: data_function(B),
    };
    let different = Rule {
        conditions: vec![Condition { lhs: data_variable(X), rhs: data_function(A), equality: false }],
        lhs: appl(G, vec![data_variable(X)]),
        rhs: data_function(C),
    };
    let mut inner = rewriter(vec![equal, different]);
    assert!(inner.rewrite(appl(G, vec![data_function(A)])).unwrap().equals(&data_function(B)));
    assert!(inner.rewrite(appl(G, vec![data_function(B)])).unwrap().equals(&data_function(C)));
}

#[test]
fn test_to_data_expression() {
    // s(s(a)) with a as a variable.
    let t = ATerm::new(S, vec![ATerm::new(S, vec![ATerm::constant(A)])]);
    let mut variables: VariableSet = VariableSet::default();
    variables.insert(A);

    let expression = to_data_expression(&t, &variables);
    let expected = appl(S, vec![appl(S, vec![data_variable(A)])]);
    assert!(expression.equals(&expected));

    // Without variables the constant becomes a function symbol.
    let expression = to_data_expression(&t, &VariableSet::default());
    let expected = appl(S, vec![appl(S, vec![data_function(A)])]);
    assert!(expression.equals(&expected));
}

#[test]
fn innermost_counts_its_rewrite_steps() {
    // h(a) -> b and g(b) -> c rewrite g(h(a)) to c in two steps.
    const H: usize = 9;
    let innermost = rewriter(vec![
        rule(appl(H, vec![data_function(A)]), data_function(B)),
        rule(appl(G, vec![data_function(B)]), data_function(C)),
    ]);
    let term = appl(G, vec![appl(H, vec![data_function(A)])]);
    let mut stats = RewritingStatistics::default();
    let result = InnermostRewriter::rewrite_aux(&innermost.apma, &term, &mut stats, 100).unwrap();
    assert!(result.equals(&data_function(C)));
    assert_eq!(stats.rewrite_steps, 2);
    assert!(stats.recursions > 0);
}
