use sabre::{
    data_application, data_function, data_variable, find_variables, get_data_arguments, get_data_function_symbol,
    is_supported_term, EquivalenceClass, ExplicitPosition, VariableSet,
};

const F: usize = 1;
const A: usize = 2;
const G: usize = 4;
const X: usize = 1;
const Y: usize = 2;

#[test]
fn find_variables_collects_every_variable() {
    // f(x, g(y), x)
    let t = data_application(
        F,
        vec![data_variable(X), data_application(G, vec![data_variable(Y)]), data_variable(X)],
    );
    let mut variables = VariableSet::default();
    variables.insert(7);
    find_variables(&t, &mut variables);
    let mut found: Vec<usize> = variables.iter().copied().collect();
    found.sort();
    assert_eq!(found, vec![X, Y, 7]);

    let mut none = VariableSet::default();
    find_variables(&data_application(F, vec![data_function(A)]), &mut none);
    assert!(none.is_empty());
}

#[test]
fn data_function_symbol_and_arguments() {
    let t = data_application(F, vec![data_function(A), data_variable(X)]);
    assert!(get_data_function_symbol(&t).equals(&data_function(F)));
    assert_eq!(get_data_arguments(&t).len(), 2);
    assert!(get_data_arguments(&t)[1].equals(&data_variable(X)));
    assert!(is_supported_term(&t));

    // A constant is its own function symbol and has no arguments.
    let a = data_function(A);
    assert!(get_data_function_symbol(&a).equals(&a));
    assert_eq!(get_data_arguments(&a).len(), 0);
}

/// The class of x in f(x, x): positions 2 and 3.
fn class_of_x() -> EquivalenceClass {
    EquivalenceClass {
        variable: data_variable(X),
        positions: vec![ExplicitPosition::new(&[2]), ExplicitPosition::new(&[3])],
    }
}

/// A class of y with a single position.
fn single_y() -> EquivalenceClass {
    EquivalenceClass { variable: data_variable(Y), positions: vec![ExplicitPosition::new(&[2])] }
}

#[test]
fn equivalences_hold_on_equal_subterms() {
    let same = data_application(F, vec![data_function(A), data_function(A)]);
    let different = data_application(F, vec![data_function(A), data_function(G)]);
    assert!(EquivalenceClass::equivalences_hold(&same, &vec![class_of_x(), single_y()]));
    assert!(!EquivalenceClass::equivalences_hold(&different, &vec![class_of_x()]));
    // A class with a single position always holds.
    assert!(EquivalenceClass::equivalences_hold(&different, &vec![single_y()]));
}
