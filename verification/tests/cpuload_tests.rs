use loadviz::cpuload::{diff, sort_loads, CpuLoad, LoadCounters, LOAD_SCALE};

/// Test that diff() can handle one counter wrapping around to zero.
#[test]
fn test_diff_wrap() {
    let older = vec![LoadCounters {
        user: u64::MAX,
        system: u64::MAX,
        idle: u64::MAX,
    }];
    let newer = vec![LoadCounters {
        user: 0,   // 1 up since last
        system: 1, // 2 up since last
        idle: 2,   // 3 up since last
    }];
    let result = diff(&older, &newer);
    assert_eq!(1, result.len());
    // 1 / (1 + 2 + 3) and 2 / (1 + 2 + 3), as fractions of LOAD_SCALE.
    assert_eq!(LOAD_SCALE / 6, result[0].user_scaled);
    assert_eq!(2 * (LOAD_SCALE / 6), result[0].system_scaled);
}

/// A wrapped counter yields the same delta as a plain increment of the
/// same size.
#[test]
fn test_diff_wrap_matches_plain_increment() {
    let wrapped = diff(
        &vec![LoadCounters {
            user: u64::MAX - 4,
            system: 0,
            idle: 0,
        }],
        &vec![LoadCounters {
            user: 5, // 10 up, wrapping past the maximum
            system: 20,
            idle: 10,
        }],
    );
    let plain = diff(
        &vec![LoadCounters {
            user: 100,
            system: 0,
            idle: 0,
        }],
        &vec![LoadCounters {
            user: 110, // 10 up, no wrap
            system: 20,
            idle: 10,
        }],
    );
    assert_eq!(wrapped, plain);
    assert_eq!(wrapped[0].user_scaled, 10 * LOAD_SCALE / 40);
}

/// Exact normalization: user and system shares of the total delta.
#[test]
fn test_diff_exact_fractions() {
    let older = vec![LoadCounters {
        user: 1000,
        system: 2000,
        idle: 3000,
    }];
    let newer = vec![LoadCounters {
        user: 1000 + 30,
        system: 2000 + 10,
        idle: 3000 + 60,
    }];
    let result = diff(&older, &newer);
    assert_eq!(1, result.len());
    assert_eq!(30 * LOAD_SCALE / 100, result[0].user_scaled);
    assert_eq!(10 * LOAD_SCALE / 100, result[0].system_scaled);
}

/// Diffing snapshots with differing core counts returns the newer count of
/// zero-loaded entries, not an error and not the older count.
#[test]
fn test_diff_core_count_mismatch() {
    let older = vec![
        LoadCounters {
            user: 1,
            system: 2,
            idle: 3,
        };
        2
    ];
    let newer = vec![
        LoadCounters {
            user: 4,
            system: 5,
            idle: 6,
        };
        3
    ];
    let result = diff(&older, &newer);
    assert_eq!(3, result.len());
    for load in result {
        assert_eq!(0, load.user_scaled);
        assert_eq!(0, load.system_scaled);
    }
}

/// An interval with zero total ticks yields a zero load, not a division
/// by zero.
#[test]
fn test_diff_zero_total() {
    let snapshot = vec![LoadCounters {
        user: 7,
        system: 8,
        idle: 9,
    }];
    let result = diff(&snapshot, &snapshot.clone());
    assert_eq!(1, result.len());
    assert_eq!(0, result[0].user_scaled);
    assert_eq!(0, result[0].system_scaled);
}

/// Sorting ranks cores ascending by total load and keeps every element.
#[test]
fn test_sort_loads_by_total() {
    let loads = vec![
        CpuLoad {
            user_scaled: 30000,
            system_scaled: 0,
        },
        CpuLoad {
            user_scaled: 0,
            system_scaled: 10000,
        },
        CpuLoad {
            user_scaled: 10000,
            system_scaled: 10000,
        },
    ];
    let sorted = sort_loads(&loads);
    assert_eq!(
        sorted,
        vec![
            CpuLoad {
                user_scaled: 0,
                system_scaled: 10000,
            },
            CpuLoad {
                user_scaled: 10000,
                system_scaled: 10000,
            },
            CpuLoad {
                user_scaled: 30000,
                system_scaled: 0,
            },
        ]
    );
}
