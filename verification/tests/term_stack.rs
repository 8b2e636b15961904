use sabre::{
    create_var_map, data_application, data_function, data_variable,
    var_map_new, ATerm, Config, ExplicitPosition, Rule, TermStack, TermStackBuilder,
};

const FACT: usize = 1;
const S: usize = 2;
const TIMES: usize = 3;
const A: usize = 4;
const F: usize = 5;
const N: usize = 1;
const X: usize = 2;

fn appl(f: usize, args: Vec<ATerm>) -> ATerm {
    data_application(f, args)
}

#[test]
fn test_rhs_stack() {
    let rhs_stack = TermStack::new(&Rule {
        conditions: vec![],
        lhs: appl(FACT, vec![appl(S, vec![data_variable(N)])]),
        rhs: appl(TIMES, vec![appl(S, vec![data_variable(N)]), appl(FACT, vec![data_variable(N)])]),
    });
    let expected = vec![Config::Construct(TIMES, 2, 0), Config::Construct(S, 1, 1), Config::Construct(FACT, 1, 2)];

    // Check if the resulting construction succeeded.
    assert_eq!(rhs_stack.innermost_stack.len(), expected.len(), "The resulting config stack is not as expected");
    for (c, e) in rhs_stack.innermost_stack.iter().zip(expected.iter()) {
        assert!(c.same(e), "The resulting config stack is not as expected");
    }

    assert_eq!(rhs_stack.stack_size, 5, "The stack size does not match");

    // Test the evaluation
    let lhs_expression = appl(FACT, vec![appl(S, vec![data_function(A)])]);
    let rhs_expression = appl(TIMES, vec![appl(S, vec![data_function(A)]), appl(FACT, vec![data_function(A)])]);

    assert!(
        rhs_stack.evaluate(&lhs_expression).equals(&rhs_expression),
        "The rhs stack does not evaluate to the expected term"
    );
}

#[test]
fn test_rhs_stack_variable() {
    let rhs = TermStack::new(&Rule {
        conditions: vec![],
        lhs: appl(F, vec![data_variable(X)]),
        rhs: data_variable(X),
    });

    // Check if the resulting construction succeeded.
    assert!(rhs.innermost_stack.is_empty(), "The resulting config stack is not as expected");

    assert_eq!(rhs.stack_size, 1, "The stack size does not match");

    // The single variable evaluates to the argument.
    let lhs = appl(F, vec![data_function(A)]);
    assert!(rhs.evaluate(&lhs).equals(&data_function(A)));
}

#[test]
fn term_stack_test_create_varmap() {
    let t = appl(F, vec![data_variable(X), data_variable(X)]);
    let map = create_var_map(&t);
    assert!(map.get(&X).is_some());
}

#[test]
fn test_is_duplicating() {
    let t_rhs = appl(F, vec![data_variable(X), data_variable(X)]);

    // Make a variable map with only x@1.
    let mut map = var_map_new();
    map.insert(X, ExplicitPosition::new(&[1]));

    let sctt = TermStack::from_term(&t_rhs, &map);
    assert!(sctt.contains_duplicate_var_references(), "This sctt is duplicating");
}

#[test]
fn term_stack_of_linear_rule() {
    // f(x, a) with x@2 refers to the variable once.
    let t_rhs = appl(F, vec![data_variable(X), data_function(A)]);
    let mut map = var_map_new();
    map.insert(X, ExplicitPosition::new(&[2]));
    let stack = TermStack::from_term(&t_rhs, &map);
    assert!(!stack.contains_duplicate_var_references());
    // f at 0, x at 1, a at 2.
    assert_eq!(stack.stack_size, 3);
    assert_eq!(stack.variables.len(), 1);
    assert_eq!(stack.variables[0].1, 1);
    assert_eq!(stack.innermost_stack.len(), 2);
    assert!(stack.innermost_stack[0].same(&Config::Construct(F, 2, 0)));
    assert!(stack.innermost_stack[1].same(&Config::Construct(A, 0, 2)));

    // Evaluated on s(times, fact) the variable at position 2 becomes times.
    let lhs = appl(S, vec![data_function(TIMES), data_function(FACT)]);
    let expected = appl(F, vec![data_function(TIMES), data_function(A)]);
    assert!(stack.evaluate(&lhs).equals(&expected));
}

#[test]
fn term_stack_clone_keeps_the_stack() {
    let rhs_stack = TermStack::new(&Rule {
        conditions: vec![],
        lhs: appl(FACT, vec![appl(S, vec![data_variable(N)])]),
        rhs: appl(TIMES, vec![appl(S, vec![data_variable(N)]), appl(FACT, vec![data_variable(N)])]),
    });
    let copy = rhs_stack.clone();
    assert_eq!(copy.stack_size, rhs_stack.stack_size);
    assert_eq!(copy.innermost_stack.len(), rhs_stack.innermost_stack.len());
    for (c, e) in copy.innermost_stack.iter().zip(rhs_stack.innermost_stack.iter()) {
        assert!(c.same(e));
    }
    assert_eq!(copy.variables.len(), rhs_stack.variables.len());
    for (c, e) in copy.variables.iter().zip(rhs_stack.variables.iter()) {
        assert!(c.0.same(&e.0) && c.1 == e.1);
    }
    let lhs_expression = appl(FACT, vec![appl(S, vec![data_function(A)])]);
    assert!(copy.evaluate(&lhs_expression).equals(&rhs_stack.evaluate(&lhs_expression)));
}

#[test]
fn term_stack_builder_is_scratch_space() {
    let rhs_stack = TermStack::new(&Rule {
        conditions: vec![],
        lhs: appl(FACT, vec![appl(S, vec![data_variable(N)])]),
        rhs: appl(TIMES, vec![appl(S, vec![data_variable(N)]), appl(FACT, vec![data_variable(N)])]),
    });
    let first = appl(FACT, vec![appl(S, vec![data_function(A)])]);
    let second = appl(FACT, vec![appl(S, vec![appl(F, vec![data_function(A)])])]);
    let mut builder = TermStackBuilder::new();
    let r1 = rhs_stack.evaluate_with(&first, &mut builder);
    // The builder was used before; its earlier contents do not show.
    let r2 = rhs_stack.evaluate_with(&second, &mut builder);
    assert!(r1.equals(&rhs_stack.evaluate(&first)));
    assert!(r2.equals(&rhs_stack.evaluate(&second)));
    assert!(!r1.equals(&r2));
}
