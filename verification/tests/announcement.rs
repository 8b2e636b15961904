use sabre::{
    check_equivalence_classes, data_application, data_function, data_variable, derive_equivalence_classes,
    ATerm, Config, EnhancedMatchAnnouncement, ExplicitPosition, MatchAnnouncement, Rule,
};

// Operation ids of the function symbols and indices of the variables.
const F: usize = 1;
const H: usize = 2;
const A: usize = 3;
const B: usize = 4;
const RESULT: usize = 5;
const FACT: usize = 6;
const S: usize = 7;
const TIMES: usize = 8;
const X: usize = 1;
const N: usize = 2;

fn appl(f: usize, args: Vec<ATerm>) -> ATerm {
    data_application(f, args)
}

fn rule(lhs: ATerm, rhs: ATerm) -> Rule {
    Rule { conditions: vec![], lhs, rhs }
}

fn same_config(a: &Config, b: &Config) -> bool {
    a.same(b)
}

#[test]
fn test_derive_equivalence_classes() {
    // f(x, h(x)) -> result
    let announcement = MatchAnnouncement {
        rule: rule(
            appl(F, vec![data_variable(X), appl(H, vec![data_variable(X)])]),
            data_function(RESULT),
        ),
        position: ExplicitPosition::empty_pos(),
        symbols_seen: 0,
    };

    let eq = derive_equivalence_classes(&announcement);

    assert_eq!(eq.len(), 1, "The resulting config stack is not as expected");
    assert!(eq[0].variable.equals(&data_variable(X)), "The resulting config stack is not as expected");
    assert_eq!(eq[0].positions.len(), 2, "The resulting config stack is not as expected");
    assert!(eq[0].positions[0].same(&ExplicitPosition::new(&[2])), "The resulting config stack is not as expected");
    assert!(eq[0].positions[1].same(&ExplicitPosition::new(&[3, 2])), "The resulting config stack is not as expected");

    // Check the equivalence class for an example: f(a(b), h(a(b)))
    let ab = appl(A, vec![data_function(B)]);
    let expression = appl(F, vec![ab.copy(), appl(H, vec![ab.copy()])]);

    assert!(
        check_equivalence_classes(&expression, &eq),
        "The equivalence classes are not checked correctly, equivalences: {:?} and term {:?}",
        &eq,
        &expression
    );
}

#[test]
fn equivalence_classes_reject_different_subterms() {
    let announcement = MatchAnnouncement {
        rule: rule(
            appl(F, vec![data_variable(X), appl(H, vec![data_variable(X)])]),
            data_function(RESULT),
        ),
        position: ExplicitPosition::empty_pos(),
        symbols_seen: 0,
    };
    let eq = derive_equivalence_classes(&announcement);
    // f(a(b), h(b)) has different subterms at the positions of x.
    let expression = appl(F, vec![appl(A, vec![data_function(B)]), appl(H, vec![data_function(B)])]);
    assert!(!check_equivalence_classes(&expression, &eq));

    // A linear pattern has no equivalence classes.
    let linear = MatchAnnouncement {
        rule: rule(appl(F, vec![data_variable(X), data_variable(N)]), data_function(RESULT)),
        position: ExplicitPosition::empty_pos(),
        symbols_seen: 0,
    };
    assert!(derive_equivalence_classes(&linear).is_empty());
}

#[test]
fn test_enhanced_match_announcement() {
    // fact(s(N)) -> times(s(N), fact(N))
    let announcement = MatchAnnouncement {
        rule: rule(
            appl(FACT, vec![appl(S, vec![data_variable(N)])]),
            appl(TIMES, vec![appl(S, vec![data_variable(N)]), appl(FACT, vec![data_variable(N)])]),
        ),
        position: ExplicitPosition::empty_pos(),
        symbols_seen: 0,
    };

    let ema = EnhancedMatchAnnouncement::new(announcement);

    // Check if the resulting construction succeeded.
    let expected = vec![Config::Construct(TIMES, 2, 0), Config::Construct(S, 1, 1), Config::Construct(FACT, 1, 2)];
    assert_eq!(ema.innermost_stack.len(), expected.len(), "The resulting config stack is not as expected");
    for (c, e) in ema.innermost_stack.iter().zip(expected.iter()) {
        assert!(same_config(c, e), "The resulting config stack is not as expected");
    }

    assert_eq!(ema.stack_size, 5, "The stack size does not match");
}

#[test]
fn test_enhanced_match_announcement_variable() {
    // f(x) -> x
    let announcement = MatchAnnouncement {
        rule: rule(appl(F, vec![data_variable(X)]), data_variable(X)),
        position: ExplicitPosition::empty_pos(),
        symbols_seen: 0,
    };

    let ema = EnhancedMatchAnnouncement::new(announcement);

    // Check if the resulting construction succeeded.
    assert!(ema.innermost_stack.is_empty(), "The resulting config stack is not as expected");

    assert_eq!(ema.stack_size, 1, "The stack size does not match");
}

#[test]
fn enhanced_match_announcement_details() {
    // times(s(x), y) -> plus(y, times(x, y)) duplicates y.
    const PLUS: usize = 9;
    const Y: usize = 3;
    let announcement = MatchAnnouncement {
        rule: rule(
            appl(TIMES, vec![appl(S, vec![data_variable(X)]), data_variable(Y)]),
            appl(PLUS, vec![data_variable(Y), appl(TIMES, vec![data_variable(X), data_variable(Y)])]),
        ),
        position: ExplicitPosition::new(&[2]),
        symbols_seen: 3,
    };
    let ema = EnhancedMatchAnnouncement::new(announcement);
    assert!(ema.is_duplicating);
    assert!(ema.equivalence_classes.is_empty());
    assert!(ema.conditions.is_empty());
    assert!(ema.announcement.position.same(&ExplicitPosition::new(&[2])));
    assert_eq!(ema.announcement.symbols_seen, 3);
    // plus(y, times(x, y)): the plus and times applications and three variables.
    assert_eq!(ema.stack_size, 5);
    assert_eq!(ema.innermost_stack.len(), 2);
    assert_eq!(ema.variables.len(), 3);
    // y is at position 3 of the left hand side, x at 2.2.
    assert!(ema.variables[0].0.same(&ExplicitPosition::new(&[3])));
    assert_eq!(ema.variables[0].1, 1);
}
