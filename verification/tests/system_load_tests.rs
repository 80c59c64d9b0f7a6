use loadviz::cpuload::LoadCounters;
use loadviz::system_load::get_load_counters;

/// A typical counter text: the aggregate line and unrelated lines are
/// skipped, per-core lines yield user+nice, system and idle.
#[test]
fn test_get_load_counters() {
    let text = b"cpu  10 20 30 40 50\n\
                 cpu0 1 2 3 4 5\n\
                 cpu1 100 0 50 25 7 8 9\n\
                 intr 5 5 5\n"
        .to_vec();
    let counters = get_load_counters(&text);
    assert_eq!(
        counters,
        vec![
            LoadCounters {
                user: 3, // user 1 + nice 2
                system: 3,
                idle: 4,
            },
            LoadCounters {
                user: 100,
                system: 50,
                idle: 25,
            },
        ]
    );
}

/// The last line counts even without a trailing newline, and extra spaces
/// between fields are harmless.
#[test]
fn test_get_load_counters_last_line_and_spacing() {
    let text = b"cpu7  9  8  7  6".to_vec();
    let counters = get_load_counters(&text);
    assert_eq!(
        counters,
        vec![LoadCounters {
            user: 17,
            system: 7,
            idle: 6,
        }]
    );
}

/// Parsed values wrap at the counter width, like the counters themselves.
#[test]
fn test_get_load_counters_wraps_at_counter_width() {
    // 2^64 wraps to 0; 2^64 + 5 wraps to 5.
    let text = b"cpu0 18446744073709551616 0 18446744073709551621 3\n".to_vec();
    let counters = get_load_counters(&text);
    assert_eq!(
        counters,
        vec![LoadCounters {
            user: 0,
            system: 5,
            idle: 3,
        }]
    );
}

/// Lines that are not well-formed per-core lines contribute nothing: too
/// few fields, a non-numeric field, or a label without a core number.
#[test]
fn test_get_load_counters_skips_malformed_lines() {
    let text = b"cpu0 1 2 3\n\
                 cpu1 1 2 x 4\n\
                 cpufreq 1 2 3 4\n\
                 cpu 1 2 3 4\n"
        .to_vec();
    let counters = get_load_counters(&text);
    assert_eq!(counters, Vec::<LoadCounters>::new());
}

/// Empty text: no cores.
#[test]
fn test_get_load_counters_empty() {
    assert_eq!(get_load_counters(&Vec::new()), Vec::<LoadCounters>::new());
}
