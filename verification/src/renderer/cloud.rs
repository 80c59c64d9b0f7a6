//! Cloud rendering: system load drawn as clouds hanging from the top of the
//! image. Noise varies the brightness, and near the cloud's lower edge the
//! color fades toward the sky, darker noise fading faster than bright.

use vstd::prelude::*;

verus! {

use vstd::arithmetic::div_mod::{
    lemma_div_is_ordered, lemma_div_of0, lemma_multiply_divide_le, lemma_multiply_divide_lt,
};
use vstd::arithmetic::mul::{
    lemma_mul_inequality, lemma_mul_nonnegative, lemma_mul_strict_inequality,
    lemma_mul_upper_bound,
};
use crate::cpuload::{CpuLoad, LOAD_SCALE};
use crate::renderer::{
    bg_color, bg_color_spec, get_load, interpolate, spec_get_load, spec_interpolate, Renderer,
    Rgb,
};

/// The dark, shadowed cloud color.
pub open spec fn cloud_dark_spec() -> Rgb {
    Rgb { r: 0x88, g: 0x88, b: 0x88 }
}

pub fn cloud_dark() -> (c: Rgb)
    ensures
        c == cloud_dark_spec(),
{
    Rgb { r: 0x88, g: 0x88, b: 0x88 }
}

/// The bright, sunlit cloud color.
pub open spec fn cloud_bright_spec() -> Rgb {
    Rgb { r: 0xff, g: 0xff, b: 0xff }
}

pub fn cloud_bright() -> (c: Rgb)
    ensures
        c == cloud_bright_spec(),
{
    Rgb { r: 0xff, g: 0xff, b: 0xff }
}

/// How much of the cloud fades towards transparent, as a fraction of the
/// height of the whole image (not of the cloud). Lower values make the
/// cloud edge sharper.
pub const CLOUD_TRANSPARENT_SCALED: u64 = 2 * LOAD_SCALE / 5;

/// The cloud color at one pixel, or `None` where the pixel is below the
/// cloud. `n_cloud` is a brightness noise value in
/// `[-LOAD_SCALE, LOAD_SCALE]`. A zero system load yields no cloud at all.
pub open spec fn spec_cloud_pixel(
    viz: Seq<CpuLoad>,
    n_cloud: int,
    x: int,
    y_top: int,
    width: int,
    height: int,
) -> Option<Rgb> {
    let s = LOAD_SCALE as int;
    let xf = if width > 1 {
        x * s / (width - 1)
    } else {
        0
    };
    let load = spec_get_load(viz, xf);
    let cloud_height = load.system_scaled * height;
    if y_top * s >= cloud_height {
        None
    } else {
        let brightness = (n_cloud + s) / 2;
        let color = spec_interpolate(brightness, cloud_dark_spec(), cloud_bright_spec());
        let transparent = CLOUD_TRANSPARENT_SCALED * height;
        let opaque = cloud_height - transparent;
        if y_top * s < opaque {
            // Cloud interior.
            Some(color)
        } else {
            // Closer to the edge of the cloud: fade toward the sky, and
            // fade the dark parts faster, since near the edge the sun is
            // not blocked by thick cloud.
            let alpha = (y_top * s - opaque) * s / transparent;
            let faded = spec_interpolate(alpha * (s - brightness) / s, color, bg_color_spec());
            Some(spec_interpolate(alpha, faded, bg_color_spec()))
        }
    }
}

impl Renderer {
    /// The cloud pixel at `(pixel_x, pixel_y_from_top)`, if any.
    pub fn get_cloud_pixel(
        &self,
        viz_loads: &Vec<CpuLoad>,
        n_cloud: i64,
        pixel_x: usize,
        pixel_y_from_top: usize,
        width: usize,
        height: usize,
    ) -> (c: Option<Rgb>)
        requires
            viz_loads@.len() > 0,
            forall|i: int| 0 <= i < viz_loads@.len() ==> (#[trigger] viz_loads@[i]).wf(),
            pixel_x < width,
            pixel_y_from_top < height,
            -(LOAD_SCALE as i64) <= n_cloud <= LOAD_SCALE as i64,
        ensures
            c == spec_cloud_pixel(
                viz_loads@,
                n_cloud as int,
                pixel_x as int,
                pixel_y_from_top as int,
                width as int,
                height as int,
            ),
    {
        let xf: i64 = if width > 1 {
            proof {
                lemma_mul_upper_bound(pixel_x as int, u64::MAX as int, LOAD_SCALE as int,
                    LOAD_SCALE as int);
                lemma_mul_nonnegative(pixel_x as int, LOAD_SCALE as int);
                lemma_mul_inequality(pixel_x as int, width as int - 1, LOAD_SCALE as int);
                lemma_multiply_divide_le(
                    pixel_x as int * LOAD_SCALE as int,
                    width as int - 1,
                    LOAD_SCALE as int,
                );
                lemma_div_of0(width as int - 1);
                lemma_div_is_ordered(0, pixel_x as int * LOAD_SCALE as int, width as int - 1);
            }
            ((pixel_x as u128 * LOAD_SCALE as u128) / (width as u128 - 1)) as i64
        } else {
            0
        };
        let cpu_load = get_load(viz_loads, xf);
        proof {
            lemma_mul_upper_bound(
                pixel_y_from_top as int,
                u64::MAX as int,
                LOAD_SCALE as int,
                LOAD_SCALE as int,
            );
            lemma_mul_upper_bound(cpu_load.system_scaled as int, LOAD_SCALE as int, height as int,
                u64::MAX as int);
            lemma_mul_nonnegative(cpu_load.system_scaled as int, height as int);
            lemma_mul_upper_bound(
                CLOUD_TRANSPARENT_SCALED as int,
                CLOUD_TRANSPARENT_SCALED as int,
                height as int,
                u64::MAX as int,
            );
            lemma_mul_nonnegative(CLOUD_TRANSPARENT_SCALED as int, height as int);
        }
        let y_s: u128 = pixel_y_from_top as u128 * LOAD_SCALE as u128;
        let cloud_height: u128 = cpu_load.system_scaled as u128 * height as u128;
        if y_s >= cloud_height {
            return None;
        }
        let brightness: u64 = ((n_cloud + LOAD_SCALE as i64) as u64) / 2;
        let color = interpolate(brightness as i64, cloud_dark(), cloud_bright());
        let transparent: u128 = CLOUD_TRANSPARENT_SCALED as u128 * height as u128;
        proof {
            if height as int >= 1 {
                lemma_mul_inequality(1, height as int, CLOUD_TRANSPARENT_SCALED as int);
            }
        }
        if cloud_height > transparent && y_s < cloud_height - transparent {
            return Some(color);
        }
        // The fade band: 0 at the opaque boundary, approaching 1 at the
        // cloud's lower edge.
        let num: u128 = y_s + transparent - cloud_height;
        proof {
            lemma_mul_strict_inequality(num as int, transparent as int, LOAD_SCALE as int);
            lemma_mul_nonnegative(num as int, LOAD_SCALE as int);
            lemma_multiply_divide_lt(
                num as int * LOAD_SCALE as int,
                transparent as int,
                LOAD_SCALE as int,
            );
            lemma_div_of0(transparent as int);
            lemma_div_is_ordered(0, num as int * LOAD_SCALE as int, transparent as int);
        }
        let alpha: u64 = ((num * LOAD_SCALE as u128) / transparent) as u64;
        proof {
            lemma_mul_upper_bound(alpha as int, LOAD_SCALE as int, LOAD_SCALE as int - brightness
                as int, LOAD_SCALE as int);
            lemma_mul_nonnegative(alpha as int, LOAD_SCALE as int - brightness as int);
            lemma_multiply_divide_le(
                alpha as int * (LOAD_SCALE as int - brightness as int),
                LOAD_SCALE as int,
                LOAD_SCALE as int,
            );
            lemma_div_of0(LOAD_SCALE as int);
            lemma_div_is_ordered(
                0,
                alpha as int * (LOAD_SCALE as int - brightness as int),
                LOAD_SCALE as int,
            );
        }
        let fade_factor: u64 = (alpha as u128 * (LOAD_SCALE - brightness) as u128
            / LOAD_SCALE as u128) as u64;
        let faded = interpolate(fade_factor as i64, color, bg_color());
        Some(interpolate(alpha as i64, faded, bg_color()))
    }
}

} // verus!
