use loadviz::cpuload::{CpuLoad, LOAD_SCALE};
use loadviz::physics::{
    compute_step, update_currently_displayed_loads, FALL_FULL_SCALE_MS, RISE_FULL_SCALE_MS,
};

#[test]
fn test_compute_step() {
    let dt = RISE_FULL_SCALE_MS / 2;
    assert_eq!(
        compute_step(dt, 0, LOAD_SCALE),
        (LOAD_SCALE / 2) as i64
    );
    assert_eq!(
        compute_step(dt, 0, LOAD_SCALE / 10),
        (LOAD_SCALE / 10) as i64
    );

    let dt = FALL_FULL_SCALE_MS / 2;
    assert_eq!(
        compute_step(dt, LOAD_SCALE, 0),
        -((LOAD_SCALE / 2) as i64)
    );
    assert_eq!(
        compute_step(dt, LOAD_SCALE, 7 * LOAD_SCALE / 10),
        -((3 * LOAD_SCALE / 10) as i64)
    );
}

/// The step never overshoots the goal in either direction.
#[test]
fn test_compute_step_clamps_at_goal() {
    // A huge dt still only closes the remaining gap.
    assert_eq!(compute_step(1_000_000, 1000, 2000), 1000);
    assert_eq!(compute_step(1_000_000, 2000, 1000), -1000);
    // Already at the goal: no movement.
    assert_eq!(compute_step(1_000_000, 1500, 1500), 0);
}

#[test]
fn test_clashing_loads() {
    let mut current = vec![CpuLoad {
        user_scaled: 0,
        system_scaled: LOAD_SCALE,
    }];
    let target = vec![CpuLoad {
        user_scaled: LOAD_SCALE,
        system_scaled: 0,
    }];

    // Move numbers so we get all the way up.
    update_currently_displayed_loads(&mut current, &target, RISE_FULL_SCALE_MS);

    assert_eq!(
        current[0],
        CpuLoad {
            // We should have gotten all the way up...
            user_scaled: LOAD_SCALE,
            // ... and also all the way down.
            system_scaled: 0,
        }
    );
}

/// Easing toward clashing targets never pushes a pair past a total of 1.0
/// at any intermediate frame.
#[test]
fn test_clashing_loads_never_exceed_full() {
    let mut current = vec![CpuLoad {
        user_scaled: 0,
        system_scaled: LOAD_SCALE,
    }];
    let target = vec![CpuLoad {
        user_scaled: LOAD_SCALE,
        system_scaled: 0,
    }];
    for _frame in 0..50 {
        update_currently_displayed_loads(&mut current, &target, 100);
        assert!(current[0].user_scaled + current[0].system_scaled <= LOAD_SCALE);
    }
}

/// A core-count change snaps the displayed vector to the target without
/// easing.
#[test]
fn test_core_count_change_snaps() {
    let mut current = vec![CpuLoad {
        user_scaled: 100,
        system_scaled: 100,
    }];
    let target = vec![
        CpuLoad {
            user_scaled: 40000,
            system_scaled: 10000,
        },
        CpuLoad {
            user_scaled: 0,
            system_scaled: 0,
        },
    ];
    update_currently_displayed_loads(&mut current, &target, 1);
    assert_eq!(current, target);
}
