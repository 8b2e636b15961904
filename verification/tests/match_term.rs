use rand::{rngs::StdRng, Rng, SeedableRng};
use sabre::{
    data_application, data_function, get_data_arguments, get_data_function_symbol, ATerm, ExplicitPosition,
    MatchTerm, MatchTermInner, PositionIterator,
};

const F: usize = 1;
const A: usize = 2;
const B: usize = 3;

/// A random term over `f` with two arguments and the constants `a` and `b`.
fn random_term(rng: &mut StdRng, depth: usize) -> ATerm {
    if depth == 0 || rng.gen_bool(0.3) {
        if rng.gen_bool(0.5) {
            data_function(A)
        } else {
            data_function(B)
        }
    } else {
        data_application(F, vec![random_term(rng, depth - 1), random_term(rng, depth - 1)])
    }
}

#[test]
fn test_match_term() {
    let seed: u64 = rand::thread_rng().gen();
    println!("seed: {}", seed);
    let mut rng = StdRng::seed_from_u64(seed);

    for _ in 0..100 {
        let t = random_term(&mut rng, 10);

        let args: Vec<ATerm> = get_data_arguments(&t).iter().map(|a| a.copy()).collect();
        let mut args2: Vec<ATerm> = Vec::new();
        let match_term = MatchTerm::new(get_data_function_symbol(&t).copy(), &args, &mut args2);

        // Check that the match term is equal to the term from which it was constructed
        println!("Testing {:?}", t);
        assert_eq!(match_term.get_position(&ExplicitPosition::empty_pos()), MatchTermInner::Term(t.copy()));
        assert_eq!(MatchTermInner::Term(t.copy()), match_term.get_position(&ExplicitPosition::empty_pos()));

        let mut iter = PositionIterator::new(t.copy());
        while let Some((subterm, position)) = iter.next() {
            println!("Position {:?}", position.to_vec());
            assert_eq!(match_term.get_position(&position), MatchTermInner::Term(subterm.copy()));
            assert_eq!(MatchTermInner::Term(subterm.copy()), match_term.get_position(&position));
        }

        assert!(match_term.to_term().equals(&t), "The to_term function should return the original");
    }
}

#[test]
fn match_term_symbols_without_construction() {
    // f(f(a, b), b)
    let t = data_application(F, vec![data_application(F, vec![data_function(A), data_function(B)]), data_function(B)]);
    let args: Vec<ATerm> = get_data_arguments(&t).iter().map(|a| a.copy()).collect();
    let mut buffer: Vec<ATerm> = vec![data_function(A)];
    let match_term = MatchTerm::new(data_function(F), &args, &mut buffer);
    assert_eq!(match_term.arguments.len(), 2);
    assert!(match_term.data_function_symbol(&ExplicitPosition::empty_pos()).equals(&data_function(F)));
    assert!(match_term.data_function_symbol(&ExplicitPosition::new(&[2])).equals(&data_function(F)));
    assert!(match_term.data_function_symbol(&ExplicitPosition::new(&[2, 2])).equals(&data_function(A)));
    assert!(match_term.data_function_symbol(&ExplicitPosition::new(&[3])).equals(&data_function(B)));
    assert_ne!(match_term.get_position(&ExplicitPosition::new(&[3])), MatchTermInner::Term(data_function(A)));
}
