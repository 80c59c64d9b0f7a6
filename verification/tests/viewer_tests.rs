use loadviz::cpuload::{CpuLoad, LoadCounters, LOAD_SCALE};
use loadviz::renderer::{NoisePlanes, Renderer};
use loadviz::LoadViz;

fn zero_planes(width: usize, height: usize) -> NoisePlanes {
    NoisePlanes {
        distortion_x: vec![0; width * height],
        distortion_y: vec![0; width * height],
        temperature: vec![0; width * height],
        cloud: vec![0; width * height],
    }
}

/// End-to-end: rendering one half-user half-system load into a 10x10
/// buffer overwrites every pixel with a definite color; with zero noise the
/// top rows are cloud (opaque gray at the very top) and the bottom row is
/// hot flame.
#[test]
fn test_render_end_to_end_scenario() {
    let loads = vec![CpuLoad {
        user_scaled: LOAD_SCALE / 2,
        system_scaled: LOAD_SCALE / 2,
    }];
    let width = 10;
    let height = 10;
    let sentinel = 0xAA;
    let mut pixels = vec![sentinel; 3 * width * height];
    let renderer: Renderer = Default::default();
    renderer.render_image(&loads, width, height, &zero_planes(width, height), &mut pixels);

    // Every pixel was painted: the sentinel pattern is gone.
    for p in 0..width * height {
        let rgb = (pixels[3 * p], pixels[3 * p + 1], pixels[3 * p + 2]);
        assert_ne!(rgb, (sentinel, sentinel, sentinel));
    }
    // Top-left pixel: opaque cloud interior, a mid gray.
    assert_eq!((pixels[0], pixels[1], pixels[2]), (195, 195, 195));
    // Bottom-left pixel: flame, fully hot at the flame's base.
    let bottom = 3 * (9 * width);
    assert_eq!(
        (pixels[bottom], pixels[bottom + 1], pixels[bottom + 2]),
        (255, 91, 30)
    );
}

/// Rendering an empty load list twice never modifies the buffer.
#[test]
fn test_render_empty_is_idempotent() {
    let width = 6;
    let height = 4;
    let mut pixels = vec![7; 3 * width * height];
    let renderer: Renderer = Default::default();
    renderer.render_image(
        &Vec::new(),
        width,
        height,
        &zero_planes(width, height),
        &mut pixels,
    );
    renderer.render_image(
        &Vec::new(),
        width,
        height,
        &zero_planes(width, height),
        &mut pixels,
    );
    assert_eq!(pixels, vec![7; 3 * width * height]);
}

/// The viewer composes sampling, easing and rendering: a fresh sample
/// rendered right after a core-count change paints the same frame as the
/// renderer does for that load.
#[test]
fn test_viewer_frame_flow() {
    let boot = vec![LoadCounters {
        user: 100,
        system: 100,
        idle: 100,
    }];
    let mut viz = LoadViz::new(boot, 0);

    // Within the measurement interval nothing is due; past it, it is.
    assert!(!viz.needs_refresh(1500));
    assert!(viz.needs_refresh(2500));

    // Half the new ticks were user ticks, half were system ticks.
    viz.refresh(
        vec![LoadCounters {
            user: 350,
            system: 350,
            idle: 100,
        }],
        2500,
    );

    viz.get_image(10, 10, 2500, &zero_planes(10, 10));
    assert_eq!(viz.pixels.len(), 300);
    // Same scene as the end-to-end renderer scenario: cloud on top,
    // flame below.
    assert_eq!((viz.pixels[0], viz.pixels[1], viz.pixels[2]), (195, 195, 195));
    let bottom = 3 * (9 * 10);
    assert_eq!(
        (
            viz.pixels[bottom],
            viz.pixels[bottom + 1],
            viz.pixels[bottom + 2]
        ),
        (255, 91, 30)
    );
}

/// With no cores at all the viewer reallocates on resize but paints
/// nothing, and a repeated call leaves the buffer exactly as it was.
#[test]
fn test_viewer_empty_loads_leaves_buffer() {
    let mut viz = LoadViz::new(Vec::new(), 0);
    viz.get_image(2, 2, 100, &zero_planes(2, 2));
    assert_eq!(viz.pixels, vec![0; 12]);
    viz.get_image(2, 2, 200, &zero_planes(2, 2));
    assert_eq!(viz.pixels, vec![0; 12]);
    assert_eq!(viz.width, 2);
    assert_eq!(viz.height, 2);
}
