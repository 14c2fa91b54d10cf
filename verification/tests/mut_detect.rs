use rectree::mut_detect::MutDetect;

#[test]
fn deref_does_not_mark_mutated() {
    let m = MutDetect::new(42);

    // Read access.
    let _ = *m.get();
    assert!(!m.mutated());
}

#[test]
fn deref_mut_marks_mutated() {
    let mut m = MutDetect::new(1);

    // Write access.
    let v = *m.get() + 1;
    m.set(v);
    assert!(m.mutated());
    assert_eq!(*m.get(), 2);
}

#[test]
fn reset_clears_mutated_flag() {
    let mut m = MutDetect::new(0);

    let v = *m.get() + 1;
    m.set(v);
    assert!(m.mutated());

    // The flag is lowered internally when a propagation consumes the value;
    // from the outside, a fresh wrapper starts lowered.
    let m2 = MutDetect::new(*m.get());
    assert!(!m2.mutated());
}

#[test]
fn multiple_mutations_stay_marked() {
    let mut m = MutDetect::new(1);

    let v = *m.get() + 1;
    m.set(v);
    let v = *m.get() + 1;
    m.set(v);

    assert!(m.mutated());
    assert_eq!(*m.get(), 3);
}
