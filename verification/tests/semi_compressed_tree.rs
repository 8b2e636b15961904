use sabre::{
    create_var_map, var_map_new, ATerm, ExplicitNode, ExplicitPosition,
    SemiCompressedTermTree,
};

const F: usize = 1;
const G: usize = 2;
const A: usize = 3;
const B: usize = 4;
const X: usize = 5;

/// Whether two trees are the same.
fn same_tree(a: &SemiCompressedTermTree, b: &SemiCompressedTermTree) -> bool {
    match (a, b) {
        (SemiCompressedTermTree::Explicit(n), SemiCompressedTermTree::Explicit(m)) => {
            n.head == m.head
                && n.children.len() == m.children.len()
                && n.children.iter().zip(m.children.iter()).all(|(c, d)| same_tree(c, d))
        }
        (SemiCompressedTermTree::Compressed(s), SemiCompressedTermTree::Compressed(t)) => s.equals(t),
        (SemiCompressedTermTree::Variable(p), SemiCompressedTermTree::Variable(q)) => p.same(q),
        _ => false,
    }
}

fn faa() -> ATerm {
    ATerm::new(F, vec![ATerm::constant(A), ATerm::constant(A)])
}

#[test]
fn semi_compressed_tree_test_constant() {
    let t = ATerm::constant(A);
    let map = var_map_new();
    let sctt = SemiCompressedTermTree::from_term(&t, &map);
    assert!(same_tree(&sctt, &SemiCompressedTermTree::Compressed(t)));
}

#[test]
fn semi_compressed_tree_test_compressible() {
    let t = faa();
    let map = var_map_new();
    let sctt = SemiCompressedTermTree::from_term(&t, &map);
    assert!(same_tree(&sctt, &SemiCompressedTermTree::Compressed(t)));
}

#[test]
fn test_not_compressible() {
    let t = ATerm::new(F, vec![ATerm::new_variable(X), ATerm::new_variable(X)]);
    let mut map = var_map_new();
    map.insert(X, ExplicitPosition::new(&[2]));

    let sctt = SemiCompressedTermTree::from_term(&t, &map);

    let en = SemiCompressedTermTree::Explicit(ExplicitNode {
        head: F,
        children: vec![
            SemiCompressedTermTree::Variable(ExplicitPosition::new(&[2])), // Note that both point to the second occurence of x.
            SemiCompressedTermTree::Variable(ExplicitPosition::new(&[2])),
        ],
    });
    assert!(same_tree(&sctt, &en));
}

#[test]
fn test_partly_compressible() {
    let t = ATerm::new(F, vec![faa(), ATerm::new_variable(X)]);
    let compressible = faa();

    // Make a variable map with only x@2.
    let mut map = var_map_new();
    map.insert(X, ExplicitPosition::new(&[2]));

    let sctt = SemiCompressedTermTree::from_term(&t, &map);
    let en = SemiCompressedTermTree::Explicit(ExplicitNode {
        head: F,
        children: vec![
            SemiCompressedTermTree::Compressed(compressible),
            SemiCompressedTermTree::Variable(ExplicitPosition::new(&[2])),
        ],
    });
    assert!(same_tree(&sctt, &en));
}

#[test]
fn semi_compressed_tree_test_evaluation() {
    let t_rhs = ATerm::new(F, vec![faa(), ATerm::new_variable(X)]);
    let t_lhs = ATerm::new(G, vec![ATerm::constant(B)]);

    // Make a variable map with only x@1.
    let mut map = var_map_new();
    map.insert(X, ExplicitPosition::new(&[1]));

    let sctt = SemiCompressedTermTree::from_term(&t_rhs, &map);

    let t_expected = ATerm::new(F, vec![faa(), ATerm::constant(B)]);
    assert!(sctt.evaluate(&t_lhs).equals(&t_expected));
}

#[test]
fn semi_compressed_tree_test_create_varmap() {
    let t = ATerm::new(F, vec![ATerm::new_variable(X), ATerm::new_variable(X)]);
    let map = create_var_map(&t);
    assert!(map.get(&X).is_some());
}

#[test]
fn rewriting_utilities_test_constant() {
    let t = ATerm::constant(A);
    let map = var_map_new();
    let sctt = SemiCompressedTermTree::from_term(&t, &map);
    assert!(same_tree(&sctt, &SemiCompressedTermTree::Compressed(t)));
}

#[test]
fn rewriting_utilities_test_compressible() {
    let t = faa();
    let map = var_map_new();
    let sctt = SemiCompressedTermTree::from_term(&t, &map);
    assert!(same_tree(&sctt, &SemiCompressedTermTree::Compressed(t)));
}

#[test]
fn not_compressible() {
    let t = ATerm::new(F, vec![ATerm::new_variable(X), ATerm::new_variable(X)]);
    let mut map = var_map_new();
    let var_pos = ExplicitPosition::new(&[1]);
    map.insert(X, var_pos.clone());
    let sctt = SemiCompressedTermTree::from_term(&t, &map);
    let en = SemiCompressedTermTree::Explicit(ExplicitNode {
        head: F,
        children: vec![
            SemiCompressedTermTree::Variable(var_pos.clone()),
            SemiCompressedTermTree::Variable(var_pos.clone()),
        ],
    });
    assert!(same_tree(&sctt, &en));
}

#[test]
fn partly_compressible() {
    let t = ATerm::new(F, vec![faa(), ATerm::new_variable(X)]);
    let compressible = faa();
    let mut map = var_map_new();
    let var_pos = ExplicitPosition::new(&[1]);
    map.insert(X, var_pos.clone());
    let sctt = SemiCompressedTermTree::from_term(&t, &map);
    let en = SemiCompressedTermTree::Explicit(ExplicitNode {
        head: F,
        children: vec![
            SemiCompressedTermTree::Compressed(compressible),
            SemiCompressedTermTree::Variable(var_pos.clone()),
        ],
    });
    assert!(same_tree(&sctt, &en));
}

#[test]
fn rewriting_utilities_test_evaluation() {
    let t_rhs = ATerm::new(F, vec![faa(), ATerm::new_variable(X)]);
    let t_lhs = ATerm::new(G, vec![ATerm::constant(B)]);
    let mut map = var_map_new();
    map.insert(X, ExplicitPosition::new(&[1]));
    let sctt = SemiCompressedTermTree::from_term(&t_rhs, &map);
    let t_expected = ATerm::new(F, vec![faa(), ATerm::constant(B)]);
    assert!(sctt.evaluate(&t_lhs).equals(&t_expected));
}

#[test]
fn duplicate_variable_references() {
    let t = ATerm::new(F, vec![ATerm::new_variable(X), ATerm::new_variable(X)]);
    let map = create_var_map(&t);
    let sctt = SemiCompressedTermTree::from_term(&t, &map);
    assert!(sctt.contains_duplicate_var_references());
    assert_eq!(sctt.get_all_var_references().len(), 2);
    assert!(!sctt.is_compressed());

    let single = ATerm::new(G, vec![ATerm::new_variable(X)]);
    let map = create_var_map(&single);
    let sctt = SemiCompressedTermTree::from_term(&single, &map);
    assert!(!sctt.contains_duplicate_var_references());
    // Evaluating the tree of the left hand side on itself gives it back.
    assert!(sctt.evaluate(&single).equals(&single));
}
