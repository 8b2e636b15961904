use rand::Rng;
use sabre::ProtectionSet;

#[test]
fn test_protection_set() {
    let mut protection_set = ProtectionSet::<usize>::new();

    // Protect a number of LDDs and record their indices.
    let mut indices: Vec<usize> = Vec::new();
    let mut rng = rand::thread_rng();

    for _ in 0..5000 {
        indices.push(protection_set.protect(rng.gen_range(0..1000)));
    }

    // Unprotect a number of LDDs.
    for index in 0..250 {
        protection_set.unprotect(indices[index]);
        indices.remove(index);
    }

    for index in indices {
        assert!(
            protection_set.is_protected(index),
            "All indices that are not unprotected should occur in the protection set"
        );
    }

    let mut it = protection_set.iter();
    while let Some(root) = it.next() {
        assert!(*root <= 5000, "Root must be valid");
    }
}

#[test]
fn protection_set_reuses_freed_slots() {
    let mut set = ProtectionSet::<u32>::new();
    assert_eq!(set.number_of_insertions(), 0);
    let a = set.protect(10);
    let b = set.protect(20);
    let c = set.protect(30);
    assert_eq!((a, b, c), (0, 1, 2));
    assert_eq!(set.number_of_insertions(), 3);

    // A freed slot is handed out again by the next protect.
    set.unprotect(b);
    assert!(!set.is_protected(b));
    assert!(set.is_protected(a) && set.is_protected(c));
    let d = set.protect(40);
    assert_eq!(d, b);
    assert_eq!(set.maximum_size(), 3);

    // Freed slots are reused last freed first.
    set.unprotect(a);
    set.unprotect(c);
    assert_eq!(set.protect(50), c);
    assert_eq!(set.protect(60), a);

    let mut values = Vec::new();
    let mut it = set.iter();
    while let Some(v) = it.next() {
        values.push(*v);
    }
    assert_eq!(values, vec![60, 40, 50]);
}

#[test]
fn protection_set_peak_and_iteration() {
    let mut set = ProtectionSet::<usize>::new();
    assert_eq!(set.maximum_size(), 0);
    let i0 = set.protect(10);
    let i1 = set.protect(20);
    assert_eq!((i0, i1), (0, 1));
    set.unprotect(i0);
    assert_eq!(set.maximum_size(), 2);
    {
        let mut it = set.iter();
        assert_eq!(it.next(), Some(&20));
        assert_eq!(it.next(), None);
    }
    assert_eq!(set.protect(30), 0);
    assert_eq!(set.number_of_insertions(), 3);
    assert_eq!(set.maximum_size(), 2);
}

#[test]
fn protection_set_maximum_size_is_the_peak() {
    let mut set = ProtectionSet::<usize>::new();
    let a = set.protect(1);
    let b = set.protect(2);
    let _c = set.protect(3);
    set.unprotect(a);
    set.unprotect(b);
    // One object is protected now, three were at the same time before.
    set.protect(4);
    assert_eq!(set.maximum_size(), 3);
    set.protect(5);
    set.protect(6);
    assert_eq!(set.maximum_size(), 4);
}
