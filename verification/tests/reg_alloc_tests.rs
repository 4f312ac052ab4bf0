use regalloc_ga::lifetime::VarLifetime;
use regalloc_ga::reg_alloc::{RegAlloc, RegAllocError};

#[test]
fn reg_alloc_paints_each_row_from_the_binding() {
    let vars_lt = vec![
        VarLifetime::new(0, 0, 2).unwrap(),
        VarLifetime::new(1, 1, 3).unwrap(),
        VarLifetime::new(2, 3, 5).unwrap(),
    ];
    // Variables 0 and 2 share register 7; variable 1 sits alone on 8.
    let binding = vec![(0u16, 7u16), (1, 8), (2, 7)];

    let rows = RegAlloc::new(&binding, &vars_lt, 6).unwrap();
    assert_eq!(rows.len(), 2);

    // Registers come back in order of first appearance.
    assert_eq!(rows[0].id, 7);
    assert_eq!(rows[1].id, 8);

    assert_eq!(
        rows[0].cycle_cells,
        vec![Some(0), Some(0), Some(0), Some(2), Some(2), Some(2)]
    );
    assert_eq!(
        rows[1].cycle_cells,
        vec![None, Some(1), Some(1), Some(1), None, None]
    );
}

#[test]
fn reg_alloc_later_bindings_overwrite_shared_cycles() {
    // Two overlapping lifetimes forced onto one register: the later
    // binding entry wins the shared cycles.
    let vars_lt = vec![
        VarLifetime::new(0, 0, 3).unwrap(),
        VarLifetime::new(1, 2, 4).unwrap(),
    ];
    let binding = vec![(0u16, 0u16), (1, 0)];

    let rows = RegAlloc::new(&binding, &vars_lt, 5).unwrap();
    assert_eq!(rows.len(), 1);
    assert_eq!(
        rows[0].cycle_cells,
        vec![Some(0), Some(0), Some(1), Some(1), Some(1)]
    );
}

#[test]
fn reg_alloc_reports_lifetimes_past_the_horizon() {
    let vars_lt = vec![
        VarLifetime::new(0, 0, 2).unwrap(),
        VarLifetime::new(1, 1, 3).unwrap(),
    ];
    let binding = vec![(0u16, 0u16), (1, 1)];

    // Horizon 4 accepts both lifetimes; horizon 3 rejects variable 1.
    assert!(RegAlloc::new(&binding, &vars_lt, 4).is_ok());

    let err = RegAlloc::new(&binding, &vars_lt, 3);
    match err {
        Err(RegAllocError::ExceedsHorizon { id, horizon, t_use }) => {
            assert_eq!(id, 1);
            assert_eq!(horizon, 3);
            assert_eq!(t_use, 3);
        }
        _ => panic!("expected a horizon error"),
    }
}

#[test]
fn reg_alloc_on_empty_binding_is_empty() {
    let vars_lt = vec![VarLifetime::new(0, 0, 2).unwrap()];
    let binding: Vec<(u16, u16)> = Vec::new();
    let rows = RegAlloc::new(&binding, &vars_lt, 3).unwrap();
    assert!(rows.is_empty());
}
