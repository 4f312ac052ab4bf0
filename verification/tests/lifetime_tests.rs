use std::cmp::Ordering;

use regalloc_ga::lifetime::{VarLifetime, VarLifetimeError};

#[test]
fn var_lt_new_test() {
    let var_lt = VarLifetime::new(0, 1, 5);

    assert!(matches!(
        var_lt,
        Ok(VarLifetime {
            id: 0,
            t_def: 1,
            t_use: 5
        })
    ));

    let var_lt = VarLifetime::new(0, 5, 1);

    assert!(matches!(var_lt, Err(_)));
}

#[test]
fn var_lt_overlap_test() {
    /* Overlap cases */
    let var_lt_a = VarLifetime::new(1, 3, 12).unwrap();
    let var_lt_b = VarLifetime::new(2, 3, 12).unwrap();

    assert!(var_lt_a.overlap(&var_lt_b));
    assert!(var_lt_b.overlap(&var_lt_a));

    let var_lt_a = VarLifetime::new(1, 3, 12).unwrap();
    let var_lt_b = VarLifetime::new(2, 6, 17).unwrap();

    assert!(var_lt_a.overlap(&var_lt_b));
    assert!(var_lt_b.overlap(&var_lt_a));

    let var_lt_a = VarLifetime::new(1, 8, 10).unwrap();
    let var_lt_b = VarLifetime::new(2, 8, 15).unwrap();

    assert!(var_lt_a.overlap(&var_lt_b));
    assert!(var_lt_b.overlap(&var_lt_a));

    let var_lt_a = VarLifetime::new(1, 10, 15).unwrap();
    let var_lt_b = VarLifetime::new(2, 8, 15).unwrap();

    assert!(var_lt_a.overlap(&var_lt_b));
    assert!(var_lt_b.overlap(&var_lt_a));

    let var_lt_a = VarLifetime::new(1, 0, 0).unwrap();
    let var_lt_b = VarLifetime::new(2, 0, 3).unwrap();

    assert!(var_lt_a.overlap(&var_lt_b));
    assert!(var_lt_b.overlap(&var_lt_a));

    /* Non-overlap cases */
    let var_lt_a = VarLifetime::new(1, 6, 9).unwrap();
    let var_lt_b = VarLifetime::new(2, 10, 12).unwrap();

    assert!(!var_lt_a.overlap(&var_lt_b));
    assert!(!var_lt_b.overlap(&var_lt_a));

    let var_lt_a = VarLifetime::new(1, 6, 9).unwrap();
    let var_lt_b = VarLifetime::new(2, 20, 25).unwrap();

    assert!(!var_lt_a.overlap(&var_lt_b));
    assert!(!var_lt_b.overlap(&var_lt_a));
}

#[test]
fn var_lt_cmp_test() {
    let var_lt_a = VarLifetime::new(1, 3, 15).unwrap();
    let var_lt_b = VarLifetime::new(2, 3, 15).unwrap();

    assert!(var_lt_a == var_lt_b);

    assert!(matches!(
        var_lt_a.partial_cmp(&var_lt_b),
        Some(Ordering::Equal)
    ));

    let var_lt_a = VarLifetime::new(1, 6, 9).unwrap();
    let var_lt_b = VarLifetime::new(2, 20, 25).unwrap();

    assert!(matches!(
        var_lt_a.partial_cmp(&var_lt_b),
        Some(Ordering::Less)
    ));

    assert!(matches!(
        var_lt_b.partial_cmp(&var_lt_a),
        Some(Ordering::Greater)
    ));

    assert!(var_lt_a <= var_lt_b);
    assert!(var_lt_a < var_lt_b);

    let var_lt_a = VarLifetime::new(1, 3, 15).unwrap();
    let var_lt_b = VarLifetime::new(2, 14, 16).unwrap();

    assert!(matches!(var_lt_a.partial_cmp(&var_lt_b), None));
}

#[test]
fn var_lt_new_rejects_use_before_def() {
    // The constructor fails exactly when the definition tick lies after
    // the use tick; the offending lifetime travels with the error.
    assert!(VarLifetime::new(7, 4, 4).is_ok());
    assert!(VarLifetime::new(7, 0, 65535).is_ok());

    let err = VarLifetime::new(7, 10, 9);
    match err {
        Err(VarLifetimeError::UseBeforeDef(lt)) => {
            assert_eq!(lt.id, 7);
            assert_eq!(lt.t_def, 10);
            assert_eq!(lt.t_use, 9);
        }
        _ => panic!("expected a use-before-def error"),
    }
}

#[test]
fn overlap_is_symmetric_on_samples() {
    // Overlap never depends on argument order.
    let ticks = [(0u16, 0u16), (0, 3), (2, 5), (3, 3), (4, 9), (9, 12)];
    for (i, &(d1, u1)) in ticks.iter().enumerate() {
        for &(d2, u2) in ticks.iter() {
            let a = VarLifetime::new(i as u16, d1, u1).unwrap();
            let b = VarLifetime::new(100 + i as u16, d2, u2).unwrap();
            assert_eq!(a.overlap(&b), b.overlap(&a));
        }
    }
}
