use sabre::{get_position, substitute, ATerm, ExplicitPosition};

const S: usize = 1;
const A: usize = 2;
const ZERO: usize = 3;

#[test]
fn test_substitute() {
    let t = ATerm::new(S, vec![ATerm::new(S, vec![ATerm::constant(A)])]);
    let t0 = ATerm::constant(ZERO);

    // substitute the a for 0 in the term s(s(a))
    let result = substitute(&t, t0.copy(), &vec![1, 1]);

    // Check that indeed the new term as a 0 at position 1.1.
    assert!(t0.equals(&get_position(&result, &ExplicitPosition::new(&vec![1, 1]))));
}

#[test]
fn substitute_keeps_the_rest_of_the_term() {
    let t = ATerm::new(S, vec![ATerm::new(S, vec![ATerm::constant(A)])]);
    let result = substitute(&t, ATerm::constant(ZERO), &[1, 1]);
    let expected = ATerm::new(S, vec![ATerm::new(S, vec![ATerm::constant(ZERO)])]);
    assert!(result.equals(&expected));

    // Substituting at the root replaces the whole term.
    let root = substitute(&t, ATerm::constant(ZERO), &[]);
    assert!(root.equals(&ATerm::constant(ZERO)));

    // Substituting a subterm by itself gives the same term back.
    let same = substitute(&t, get_position(&t, &ExplicitPosition::new(&[1])), &[1]);
    assert!(same.equals(&t));
}
