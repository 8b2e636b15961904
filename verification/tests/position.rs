use sabre::{get_position, ATerm, ExplicitPosition, PositionIterator};

// Symbols of the plain terms in these tests.
const F: usize = 1;
const G: usize = 2;
const A: usize = 3;
const B: usize = 4;

/// The term f(g(a),b).
fn fgab() -> ATerm {
    ATerm::new(F, vec![ATerm::new(G, vec![ATerm::constant(A)]), ATerm::constant(B)])
}

#[test]
fn test_get_position() {
    let t = fgab();
    let expected = ATerm::constant(A);

    assert!(get_position(&t, &ExplicitPosition::new(&[1, 1])).equals(&expected));
}

#[test]
fn test_position_iterator() {
    let t = fgab();

    let mut it = PositionIterator::new(t.copy());
    let mut count = 0;
    while let Some((term, pos)) = it.next() {
        assert!(
            get_position(&t, &pos).equals(&term),
            "The resulting (subterm, position) pair doesn't match the get_position implementation"
        );
        count += 1;
    }

    assert_eq!(count, 4, "The number of subterms doesn't match the expected value");
}

#[test]
fn position_iterator_is_breadth_first() {
    let t = fgab();
    let mut it = PositionIterator::new(t);
    let mut positions = Vec::new();
    while let Some((_, pos)) = it.next() {
        positions.push(pos.to_vec());
    }
    assert_eq!(positions, vec![vec![], vec![1], vec![2], vec![1, 1]]);
}

#[test]
fn position_order_and_comparison() {
    let p = ExplicitPosition::new(&[2, 2, 3]);
    let q = ExplicitPosition::new(&[2]);
    let r = ExplicitPosition::new(&[1]);
    assert!(q.less_than(&p));
    assert!(!p.less_than(&q));
    assert!(r.less_than(&q));
    assert!(!p.less_than(&p));
    assert!(p.same(&ExplicitPosition::new(&[2, 2, 3])));
    assert!(!p.same(&q));
    assert_eq!(p.skip(1).to_vec(), vec![2, 3]);
    assert_eq!(p.take(2).to_vec(), vec![2, 2]);
    assert!(ExplicitPosition::empty_pos().is_empty());
    assert_eq!(p.len(), 3);
    let mut s = q.clone();
    s.push(5);
    assert_eq!(s.to_vec(), vec![2, 5]);
}
