use loadviz::cpuload::{CpuLoad, LOAD_SCALE};
use loadviz::renderer::flame::flame_noise_row_limit;
use loadviz::renderer::{
    get_load, interpolate, mirror_sort, pixel_to_fraction, NoisePlanes, Renderer, Rgb,
};

fn zero_planes(width: usize, height: usize) -> NoisePlanes {
    NoisePlanes {
        distortion_x: vec![0; width * height],
        distortion_y: vec![0; width * height],
        temperature: vec![0; width * height],
        cloud: vec![0; width * height],
    }
}

#[test]
fn test_interpolate() {
    let black = Rgb {
        r: 0x00,
        g: 0x00,
        b: 0x00,
    };
    let white = Rgb {
        r: 0xff,
        g: 0xff,
        b: 0xff,
    };

    assert_eq!(black, interpolate(0, black, white));
    assert_eq!(white, interpolate(LOAD_SCALE as i64, black, white));
}

/// Test rendering an empty list of loads. The point is just that we
/// shouldn't crash, and that the buffer stays untouched.
#[test]
fn test_render_nothing() {
    let width = 10;
    let height = 10;
    let mut pixels = vec![0; width * height * 3];
    let renderer: Renderer = Default::default();

    renderer.render_image(
        &Vec::new(),
        width,
        height,
        &zero_planes(width, height),
        &mut pixels,
    );
    assert_eq!(pixels, vec![0; width * height * 3]);
}

#[test]
fn test_mirror_sort_empty() {
    assert_eq!(0, mirror_sort(&Vec::new()).len());
}

#[test]
fn test_mirror_sort_same() {
    let load = CpuLoad {
        user_scaled: LOAD_SCALE / 10,
        system_scaled: 2 * (LOAD_SCALE / 10),
    };
    let mirror_sorted = mirror_sort(&vec![
        // This one is identical to...
        load, // ...this one.
        load,
    ]);

    assert_eq!(mirror_sorted, vec![load, load, load, load]);
}

/// Mirror-sorting ranks ascending and appends the reverse: a palindrome of
/// twice the input length, tallest in the middle.
#[test]
fn test_mirror_sort_orders_and_mirrors() {
    let a = CpuLoad {
        user_scaled: 30000,
        system_scaled: 0,
    };
    let b = CpuLoad {
        user_scaled: 10000,
        system_scaled: 0,
    };
    let c = CpuLoad {
        user_scaled: 20000,
        system_scaled: 0,
    };
    let mirrored = mirror_sort(&vec![a, b, c]);
    assert_eq!(mirrored, vec![b, c, a, a, c, b]);
    assert_eq!(mirrored.len(), 6);
}

/// Verify that with two loads:
/// 0.00-0.25 gives you load #1
/// 0.25-0.75 gives you points between load #1 and load #2
/// 0.75-1.00 gives you load #2
#[test]
fn test_get_load_2() {
    let example_loads = vec![
        CpuLoad {
            user_scaled: 0,
            system_scaled: 0,
        },
        CpuLoad {
            user_scaled: LOAD_SCALE,
            system_scaled: 8 * (LOAD_SCALE / 10),
        },
    ];
    assert_eq!(
        get_load(&example_loads, 0),
        CpuLoad {
            user_scaled: 0,
            system_scaled: 0,
        }
    );
    assert_eq!(
        get_load(&example_loads, (LOAD_SCALE / 4) as i64),
        CpuLoad {
            user_scaled: 0,
            system_scaled: 0,
        }
    );
    assert_eq!(
        get_load(&example_loads, (LOAD_SCALE / 2) as i64),
        CpuLoad {
            user_scaled: LOAD_SCALE / 2,
            system_scaled: 4 * (LOAD_SCALE / 10),
        }
    );
    assert_eq!(
        get_load(&example_loads, (3 * LOAD_SCALE / 4) as i64),
        CpuLoad {
            user_scaled: LOAD_SCALE,
            system_scaled: 8 * (LOAD_SCALE / 10),
        }
    );
    assert_eq!(
        get_load(&example_loads, LOAD_SCALE as i64),
        CpuLoad {
            user_scaled: LOAD_SCALE,
            system_scaled: 8 * (LOAD_SCALE / 10),
        }
    );
}

/// Verify that with two loads, sampling by pixel column over a 101-pixel
/// row behaves like sampling by fraction:
/// pixels 0-25 give you load #1,
/// pixels 25-75 give you points between load #1 and load #2,
/// pixels 75-100 give you load #2.
#[test]
fn test_get_load() {
    let example_loads = vec![
        CpuLoad {
            user_scaled: 0,
            system_scaled: 0,
        },
        CpuLoad {
            user_scaled: LOAD_SCALE,
            system_scaled: 8 * (LOAD_SCALE / 10),
        },
    ];

    let width: u64 = 101;
    let at_pixel = |pixel_x: u64| {
        let x_fraction = (pixel_x * LOAD_SCALE / (width - 1)) as i64;
        get_load(&example_loads, x_fraction)
    };
    assert_eq!(
        at_pixel(0),
        CpuLoad {
            user_scaled: 0,
            system_scaled: 0,
        }
    );
    assert_eq!(
        at_pixel(25),
        CpuLoad {
            user_scaled: 0,
            system_scaled: 0,
        }
    );
    assert_eq!(
        at_pixel(50),
        CpuLoad {
            user_scaled: LOAD_SCALE / 2,
            system_scaled: 4 * (LOAD_SCALE / 10),
        }
    );
    assert_eq!(
        at_pixel(75),
        CpuLoad {
            user_scaled: LOAD_SCALE,
            system_scaled: 8 * (LOAD_SCALE / 10),
        }
    );
    assert_eq!(
        at_pixel(100),
        CpuLoad {
            user_scaled: LOAD_SCALE,
            system_scaled: 8 * (LOAD_SCALE / 10),
        }
    );
}

#[test]
fn test_pixel_to_fraction() {
    // Fractions should be evenly spaced.
    assert_eq!((LOAD_SCALE / 4) as i128, pixel_to_fraction(0, 2));
    assert_eq!(
        (LOAD_SCALE / 2) as i128,
        pixel_to_fraction(LOAD_SCALE as i128, 2)
    );
    assert_eq!(
        (3 * LOAD_SCALE / 4) as i128,
        pixel_to_fraction(2 * LOAD_SCALE as i128, 2)
    );
}

#[test]
fn test_no_load_no_cloud() {
    let viz_loads = vec![CpuLoad {
        user_scaled: 0,
        system_scaled: 0,
    }];
    let renderer: Renderer = Default::default();
    let pixel = renderer.get_cloud_pixel(&viz_loads, 0, 0, 0, 1, 1);
    assert_eq!(pixel, None);
}

#[test]
fn test_flame_reaches_the_top() {
    let viz_loads = vec![CpuLoad {
        user_scaled: LOAD_SCALE,
        system_scaled: 0,
    }];
    let renderer: Renderer = Default::default();
    let height = 100;
    let pixel = renderer.get_flame_pixel(&viz_loads, 0, 0, 0, 0, height - 1, 1, height);
    assert!(pixel.is_some());
}

/// No noise can push a flame above the proved row limit, while flames do
/// exist below it.
#[test]
fn test_flame_noise_row_limit() {
    let loads = vec![CpuLoad {
        user_scaled: LOAD_SCALE / 4,
        system_scaled: 0,
    }];
    // A quarter load on a 100-pixel-tall square image: 25 pixels of flame
    // plus 10 pixels of distortion radius.
    let limit = flame_noise_row_limit(&loads, 100, 100);
    assert_eq!(limit, 36);

    let viz = mirror_sort(&loads);
    let renderer: Renderer = Default::default();
    let s = LOAD_SCALE as i64;
    for y_from_bottom in [36, 50, 99] {
        for noise in [-s, 0, s] {
            assert_eq!(
                renderer.get_flame_pixel(&viz, noise, noise, noise, 50, y_from_bottom, 100, 100),
                None
            );
        }
    }
    assert!(renderer
        .get_flame_pixel(&viz, 0, 0, 0, 50, 10, 100, 100)
        .is_some());
}

/// A distortion noise value actually moves the sampled column: with a hard
/// left/right load split, pushing the sample left paints a flame pixel that
/// an undistorted sample would leave empty.
#[test]
fn test_distortion_noise_moves_the_flame_edge() {
    let renderer: Renderer = Default::default();
    let busy = CpuLoad {
        user_scaled: LOAD_SCALE,
        system_scaled: 0,
    };
    let idle = CpuLoad {
        user_scaled: 0,
        system_scaled: 0,
    };
    // Mirrored layout of a busy and an idle core: idle columns at both
    // edges, busy columns in the middle.
    let viz_loads = vec![idle, busy, busy, idle];
    let width = 40;
    let height = 40;
    let x = 8; // An idle column, near the busy middle.
    let y_from_bottom = 20;
    let undistorted = renderer.get_flame_pixel(&viz_loads, 0, 0, 0, x, y_from_bottom, width, height);
    assert_eq!(undistorted, None);
    // Push the sampled column toward the image center.
    let distorted = renderer.get_flame_pixel(
        &viz_loads,
        LOAD_SCALE as i64,
        0,
        0,
        x,
        y_from_bottom,
        width,
        height,
    );
    assert!(distorted.is_some());
}
