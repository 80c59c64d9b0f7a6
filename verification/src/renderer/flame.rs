//! Flame rendering: user load drawn as fire rising from the bottom. Noise
//! distorts the flame's edge and interior, and a cooling factor fades the
//! flame toward its tip before the temperature is mapped through a
//! blackbody-style gradient.

use vstd::prelude::*;

verus! {

use vstd::arithmetic::div_mod::{
    lemma_div_is_ordered, lemma_div_of0, lemma_multiply_divide_le,
};
use vstd::arithmetic::mul::{lemma_mul_inequality, lemma_mul_upper_bound};
use crate::cpuload::{CpuLoad, LOAD_SCALE};
use crate::renderer::{
    bg_color, bg_color_spec, clamp_int, div_trunc, get_load, highest_user_load, interpolate,
    lemma_mul_abs_bound, lemma_tdiv_in_range, pixel_to_fraction, spec_get_load, spec_interpolate,
    spec_max_user, spec_pixel_to_fraction, tdiv, Renderer, Rgb,
};

/// Blackbody color of the hottest parts of the flame (about 3000K).
pub open spec fn flame_warmer_spec() -> Rgb {
    Rgb { r: 0xff, g: 0xb4, b: 0x6b }
}

pub fn flame_warmer() -> (c: Rgb)
    ensures
        c == flame_warmer_spec(),
{
    Rgb { r: 0xff, g: 0xb4, b: 0x6b }
}

/// Blackbody color of the coolest visible embers (about 1000K).
pub open spec fn flame_cooler_spec() -> Rgb {
    Rgb { r: 0xff, g: 0x38, b: 0x00 }
}

pub fn flame_cooler() -> (c: Rgb)
    ensures
        c == flame_cooler_spec(),
{
    Rgb { r: 0xff, g: 0x38, b: 0x00 }
}

/// What fraction of the inside of the fire fades towards transparent.
pub const FLAME_TRANSPARENT_SCALED: u64 = 3 * LOAD_SCALE / 10;

/// Height (as a fraction of the image) of the fixed cooling layer used near
/// the tips of short flames.
pub const BOTTOM_COOLING_SCALED: u64 = LOAD_SCALE / 5;

/// How far (in pixels, scaled by `LOAD_SCALE`) noise may displace a sampled
/// coordinate: a tenth of the smaller image dimension.
pub open spec fn spec_distortion_radius(width: int, height: int) -> int {
    (if width <= height {
        width
    } else {
        height
    }) * LOAD_SCALE / 10
}

pub fn distortion_radius(width: usize, height: usize) -> (r: u128)
    ensures
        r == spec_distortion_radius(width as int, height as int),
        r <= u64::MAX as u128 * LOAD_SCALE as u128,
{
    let m: usize = if width <= height {
        width
    } else {
        height
    };
    proof {
        lemma_mul_upper_bound(m as int, u64::MAX as int, LOAD_SCALE as int, LOAD_SCALE as int);
        vstd::arithmetic::mul::lemma_mul_nonnegative(m as int, LOAD_SCALE as int);
        lemma_multiply_divide_le(
            m as int * LOAD_SCALE as int,
            10,
            u64::MAX as int * LOAD_SCALE as int,
        );
        lemma_mul_inequality(10, u64::MAX as int, LOAD_SCALE as int);
        lemma_div_of0(10);
        lemma_div_is_ordered(0, m as int * LOAD_SCALE as int, 10);
    }
    m as u128 * LOAD_SCALE as u128 / 10
}

/// The cooling factor fading the flame toward its tip. In the bulk of the
/// flame it falls with the fraction of the flame's own height; within the
/// bottom cooling layer near the tip of a short flame it falls with the
/// remaining distance to the tip instead.
pub open spec fn spec_cooling(yf: int, user: int) -> int {
    let s = LOAD_SCALE as int;
    if yf > BOTTOM_COOLING_SCALED {
        s - (yf * s / user) * 7 / 10
    } else {
        s - clamp_int(BOTTOM_COOLING_SCALED - (user - yf), 0, s) * s
            / (BOTTOM_COOLING_SCALED as int)
    }
}

fn cooling_factor(yf: i64, user: u64) -> (c: u64)
    requires
        user <= LOAD_SCALE,
        yf <= user as i64,
        -(LOAD_SCALE as i64) <= yf,
    ensures
        c == spec_cooling(yf as int, user as int),
        c <= LOAD_SCALE,
{
    if yf > BOTTOM_COOLING_SCALED as i64 {
        proof {
            lemma_mul_inequality(yf as int, user as int, LOAD_SCALE as int);
            lemma_multiply_divide_le(
                yf as int * LOAD_SCALE as int,
                user as int,
                LOAD_SCALE as int,
            );
            vstd::arithmetic::mul::lemma_mul_nonnegative(yf as int, LOAD_SCALE as int);
            lemma_div_of0(user as int);
            lemma_div_is_ordered(0, yf as int * LOAD_SCALE as int, user as int);
        }
        let frac_h: u64 = (yf as u64 as u128 * LOAD_SCALE as u128 / user as u128) as u64;
        proof {
            lemma_multiply_divide_le(frac_h as int * 7, 10, 7 * LOAD_SCALE as int / 10);
            lemma_div_of0(10);
            lemma_div_is_ordered(0, frac_h as int * 7, 10);
        }
        LOAD_SCALE - frac_h * 7 / 10
    } else {
        let dist: i64 = user as i64 - yf;
        let tt: i64 = BOTTOM_COOLING_SCALED as i64 - dist;
        let cc: u64 = if tt < 0 {
            0
        } else if tt > LOAD_SCALE as i64 {
            LOAD_SCALE
        } else {
            tt as u64
        };
        proof {
            lemma_mul_inequality(cc as int, BOTTOM_COOLING_SCALED as int, LOAD_SCALE as int);
            lemma_multiply_divide_le(
                cc as int * LOAD_SCALE as int,
                BOTTOM_COOLING_SCALED as int,
                LOAD_SCALE as int,
            );
            vstd::arithmetic::mul::lemma_mul_nonnegative(cc as int, LOAD_SCALE as int);
            lemma_div_of0(BOTTOM_COOLING_SCALED as int);
            lemma_div_is_ordered(0, cc as int * LOAD_SCALE as int, BOTTOM_COOLING_SCALED as int);
        }
        let scaled: u64 = (cc as u128 * LOAD_SCALE as u128 / BOTTOM_COOLING_SCALED as u128) as u64;
        LOAD_SCALE - scaled
    }
}

/// Two-stage blackbody-style gradient: below the transparency threshold the
/// color fades from the background into cool embers; above it, from cool
/// embers to the hot core.
pub open spec fn spec_color_by_temperature(temp: int) -> Rgb {
    let s = LOAD_SCALE as int;
    if temp < FLAME_TRANSPARENT_SCALED {
        spec_interpolate(
            temp * s / (FLAME_TRANSPARENT_SCALED as int),
            bg_color_spec(),
            flame_cooler_spec(),
        )
    } else {
        spec_interpolate(
            (temp - FLAME_TRANSPARENT_SCALED) * s / (s - FLAME_TRANSPARENT_SCALED as int),
            flame_cooler_spec(),
            flame_warmer_spec(),
        )
    }
}

pub fn get_color_by_temperature(temp: u64) -> (c: Rgb)
    requires
        temp <= LOAD_SCALE,
    ensures
        c == spec_color_by_temperature(temp as int),
{
    if temp < FLAME_TRANSPARENT_SCALED {
        proof {
            lemma_multiply_divide_le(
                temp as int * LOAD_SCALE as int,
                FLAME_TRANSPARENT_SCALED as int,
                LOAD_SCALE as int,
            );
            lemma_mul_inequality(temp as int, FLAME_TRANSPARENT_SCALED as int, LOAD_SCALE as int);
            vstd::arithmetic::mul::lemma_mul_nonnegative(temp as int, LOAD_SCALE as int);
            lemma_div_of0(FLAME_TRANSPARENT_SCALED as int);
            lemma_div_is_ordered(0, temp as int * LOAD_SCALE as int, FLAME_TRANSPARENT_SCALED
                as int);
        }
        interpolate((temp * LOAD_SCALE / FLAME_TRANSPARENT_SCALED) as i64, bg_color(),
            flame_cooler())
    } else {
        proof {
            lemma_mul_inequality(
                temp as int - FLAME_TRANSPARENT_SCALED as int,
                LOAD_SCALE as int - FLAME_TRANSPARENT_SCALED as int,
                LOAD_SCALE as int,
            );
            lemma_multiply_divide_le(
                (temp - FLAME_TRANSPARENT_SCALED) as int * LOAD_SCALE as int,
                LOAD_SCALE as int - FLAME_TRANSPARENT_SCALED as int,
                LOAD_SCALE as int,
            );
            vstd::arithmetic::mul::lemma_mul_nonnegative(
                (temp - FLAME_TRANSPARENT_SCALED) as int,
                LOAD_SCALE as int,
            );
            lemma_div_of0(LOAD_SCALE as int - FLAME_TRANSPARENT_SCALED as int);
            lemma_div_is_ordered(
                0,
                (temp - FLAME_TRANSPARENT_SCALED) as int * LOAD_SCALE as int,
                LOAD_SCALE as int - FLAME_TRANSPARENT_SCALED as int,
            );
        }
        interpolate(
            ((temp - FLAME_TRANSPARENT_SCALED) * LOAD_SCALE / (LOAD_SCALE
                - FLAME_TRANSPARENT_SCALED)) as i64,
            flame_cooler(),
            flame_warmer(),
        )
    }
}

/// The flame color at one pixel, or `None` where the pixel is above the
/// flame. `n_dx` and `n_dy` distort the sampled column and row; `n_temp` is
/// the temperature noise sampled at the distorted coordinates. All three are
/// noise values in `[-LOAD_SCALE, LOAD_SCALE]`.
pub open spec fn spec_flame_pixel(
    viz: Seq<CpuLoad>,
    n_dx: int,
    n_dy: int,
    n_temp: int,
    x: int,
    y_bot: int,
    width: int,
    height: int,
) -> Option<Rgb> {
    let s = LOAD_SCALE as int;
    let radius = spec_distortion_radius(width, height);
    if y_bot * s > spec_max_user(viz) * height + radius {
        None
    } else {
        let dx = tdiv(n_dx * radius, s);
        let xf = spec_pixel_to_fraction(x * s + dx, width);
        let load = spec_get_load(viz, xf);
        if y_bot * s > load.user_scaled * height + radius {
            None
        } else {
            let dy = tdiv(n_dy * radius, s);
            let yf = spec_pixel_to_fraction(y_bot * s + dy, height);
            if yf > load.user_scaled {
                None
            } else {
                let temp = (n_temp + s) / 2 * spec_cooling(yf, load.user_scaled as int) / s;
                Some(spec_color_by_temperature(temp))
            }
        }
    }
}

impl Renderer {
    /// The flame pixel at `(pixel_x, pixel_y_from_bottom)`, if any. The two
    /// noise-distorted bound checks are evaluated before the temperature is
    /// consulted, so callers may skip sampling temperature noise for pixels
    /// provably above every flame.
    pub fn get_flame_pixel(
        &self,
        viz_loads: &Vec<CpuLoad>,
        n_dx: i64,
        n_dy: i64,
        n_temp: i64,
        pixel_x: usize,
        pixel_y_from_bottom: usize,
        width: usize,
        height: usize,
    ) -> (c: Option<Rgb>)
        requires
            viz_loads@.len() > 0,
            forall|i: int| 0 <= i < viz_loads@.len() ==> (#[trigger] viz_loads@[i]).wf(),
            pixel_x < width,
            pixel_y_from_bottom < height,
            -(LOAD_SCALE as i64) <= n_dx <= LOAD_SCALE as i64,
            -(LOAD_SCALE as i64) <= n_dy <= LOAD_SCALE as i64,
            -(LOAD_SCALE as i64) <= n_temp <= LOAD_SCALE as i64,
        ensures
            c == spec_flame_pixel(
                viz_loads@,
                n_dx as int,
                n_dy as int,
                n_temp as int,
                pixel_x as int,
                pixel_y_from_bottom as int,
                width as int,
                height as int,
            ),
    {
        let ghost s = LOAD_SCALE as int;
        let radius: u128 = distortion_radius(width, height);
        proof {
            lemma_radius_le_dim_scale(width as int, height as int);
            lemma_mul_upper_bound(
                pixel_y_from_bottom as int,
                u64::MAX as int,
                LOAD_SCALE as int,
                LOAD_SCALE as int,
            );
        }
        let y_s: u128 = pixel_y_from_bottom as u128 * LOAD_SCALE as u128;

        // Bound check against the tallest possible flame anywhere in the
        // image: pixels above it need no per-column work at all.
        let max_user: u64 = highest_user_load(viz_loads);
        proof {
            lemma_mul_upper_bound(max_user as int, LOAD_SCALE as int, height as int, u64::MAX
                as int);
            vstd::arithmetic::mul::lemma_mul_nonnegative(max_user as int, height as int);
        }
        let cap_all: u128 = max_user as u128 * height as u128 + radius;
        if y_s > cap_all {
            return None;
        }
        // Distort the sampled column by the first noise field.
        proof {
            lemma_mul_abs_bound(n_dx as int, radius as int, LOAD_SCALE as int, u64::MAX as int
                * LOAD_SCALE as int);
            lemma_mul_abs_bound(n_dx as int, radius as int, LOAD_SCALE as int, radius as int);
            lemma_tdiv_in_range(
                n_dx as int * radius as int,
                LOAD_SCALE as int,
                radius as int,
                radius as int,
            );
        }
        let dx: i128 = div_trunc(n_dx as i128 * radius as i128, LOAD_SCALE as i128);
        proof {
            lemma_mul_upper_bound(pixel_x as int, u64::MAX as int, LOAD_SCALE as int, LOAD_SCALE
                as int);
            vstd::arithmetic::mul::lemma_mul_nonnegative(pixel_x as int, LOAD_SCALE as int);
        }
        let distorted_x: i128 = pixel_x as i128 * LOAD_SCALE as i128 + dx;
        let xf128: i128 = pixel_to_fraction(distorted_x, width);
        proof {
            lemma_mul_inequality(pixel_x as int, width as int - 1, LOAD_SCALE as int);
            lemma_fraction_in_band(
                distorted_x as int,
                radius as int,
                pixel_x as int,
                width as int,
            );
        }
        let xf: i64 = xf128 as i64;
        let cpu_load = get_load(viz_loads, xf);

        // Bound check against this column's own flame height.
        proof {
            lemma_mul_upper_bound(cpu_load.user_scaled as int, LOAD_SCALE as int, height as int,
                u64::MAX as int);
            vstd::arithmetic::mul::lemma_mul_nonnegative(cpu_load.user_scaled as int, height
                as int);
        }
        let cap_col: u128 = cpu_load.user_scaled as u128 * height as u128 + radius;
        if y_s > cap_col {
            return None;
        }
        // Distort the sampled row by the second noise field.
        proof {
            lemma_mul_abs_bound(n_dy as int, radius as int, LOAD_SCALE as int, radius as int);
            lemma_tdiv_in_range(
                n_dy as int * radius as int,
                LOAD_SCALE as int,
                radius as int,
                radius as int,
            );
        }
        let dy: i128 = div_trunc(n_dy as i128 * radius as i128, LOAD_SCALE as i128);
        let distorted_y: i128 = pixel_y_from_bottom as i128 * LOAD_SCALE as i128 + dy;
        let yf128: i128 = pixel_to_fraction(distorted_y, height);
        proof {
            lemma_mul_inequality(pixel_y_from_bottom as int, height as int - 1, LOAD_SCALE as int);
            lemma_fraction_in_band(
                distorted_y as int,
                radius as int,
                pixel_y_from_bottom as int,
                height as int,
            );
        }
        let yf: i64 = yf128 as i64;
        if yf > cpu_load.user_scaled as i64 {
            return None;
        }
        // Temperature of this pixel: the third noise field, cooled toward
        // the flame's tip, then colorized.
        let temp0: u64 = ((n_temp + LOAD_SCALE as i64) as u64) / 2;
        let cooling: u64 = cooling_factor(yf, cpu_load.user_scaled);
        proof {
            lemma_mul_upper_bound(temp0 as int, LOAD_SCALE as int, cooling as int, LOAD_SCALE
                as int);
            vstd::arithmetic::mul::lemma_mul_nonnegative(temp0 as int, cooling as int);
            lemma_multiply_divide_le(temp0 as int * cooling as int, LOAD_SCALE as int, LOAD_SCALE
                as int);
            lemma_div_of0(LOAD_SCALE as int);
            lemma_div_is_ordered(0, temp0 as int * cooling as int, LOAD_SCALE as int);
        }
        let temp: u64 = (temp0 as u128 * cooling as u128 / LOAD_SCALE as u128) as u64;
        Some(get_color_by_temperature(temp))
    }
}

/// The first row from the bottom that no flame can reach, whatever the
/// noise: above it, skipping the (costly) flame noise sampling entirely is
/// sound for any load vector whose user loads stay within the maximum of
/// `loads`. On a mostly idle system this spares almost the whole image.
pub fn flame_noise_row_limit(loads: &Vec<CpuLoad>, width: usize, height: usize) -> (limit: usize)
    requires
        forall|i: int| 0 <= i < loads@.len() ==> (#[trigger] loads@[i]).wf(),
    ensures
        limit <= height,
        forall|viz: Seq<CpuLoad>, n_dx: int, n_dy: int, n_temp: int, x: int, y_bot: int|
            ((forall|j: int|
                0 <= j < viz.len() ==> (#[trigger] viz[j]).user_scaled <= crate::renderer::spec_max_user(
                    loads@,
                )) && limit <= y_bot < height) ==> (#[trigger] spec_flame_pixel(
                viz,
                n_dx,
                n_dy,
                n_temp,
                x,
                y_bot,
                width as int,
                height as int,
            )) is None,
{
    let ghost s = LOAD_SCALE as int;
    let radius: u128 = distortion_radius(width, height);
    let max_user: u64 = highest_user_load(loads);
    proof {
        lemma_mul_upper_bound(max_user as int, LOAD_SCALE as int, height as int, u64::MAX as int);
        vstd::arithmetic::mul::lemma_mul_nonnegative(max_user as int, height as int);
    }
    let cap: u128 = max_user as u128 * height as u128 + radius;
    let q: u128 = cap / LOAD_SCALE as u128 + 1;
    let limit: usize = if q >= height as u128 {
        height
    } else {
        q as usize
    };
    proof {
        vstd::arithmetic::div_mod::lemma_fundamental_div_mod(cap as int, s);
        vstd::arithmetic::div_mod::lemma_mod_division_less_than_divisor(cap as int, s);
        assert forall|viz: Seq<CpuLoad>, n_dx: int, n_dy: int, n_temp: int, x: int, y_bot: int|
            ((forall|j: int|
                0 <= j < viz.len() ==> (#[trigger] viz[j]).user_scaled <= crate::renderer::spec_max_user(
                    loads@,
                )) && limit <= y_bot < height) implies (#[trigger] spec_flame_pixel(
            viz,
            n_dx,
            n_dy,
            n_temp,
            x,
            y_bot,
            width as int,
            height as int,
        )) is None by {
            crate::renderer::lemma_spec_max_user_pointwise(viz, max_user as int);
            lemma_mul_inequality(limit as int, y_bot, s);
            lemma_mul_inequality(
                crate::renderer::spec_max_user(viz),
                max_user as int,
                height as int,
            );
            assert(y_bot * s > crate::renderer::spec_max_user(viz) * (height as int) + radius);
        };
    }
    limit
}

/// The distortion radius never exceeds a whole image dimension in scale
/// units, so distorted coordinates stay within one extent of the image.
proof fn lemma_radius_le_dim_scale(width: int, height: int)
    requires
        0 <= width,
        0 <= height,
    ensures
        0 <= spec_distortion_radius(width, height),
        width <= height ==> spec_distortion_radius(width, height) <= width * LOAD_SCALE,
        height < width ==> spec_distortion_radius(width, height) <= height * LOAD_SCALE,
        spec_distortion_radius(width, height) <= width * LOAD_SCALE,
        spec_distortion_radius(width, height) <= height * LOAD_SCALE,
{
    let m = if width <= height {
        width
    } else {
        height
    };
    vstd::arithmetic::mul::lemma_mul_nonnegative(m, LOAD_SCALE as int);
    lemma_multiply_divide_le(m * LOAD_SCALE, 10, m * LOAD_SCALE);
    lemma_mul_inequality(1, 10, m * LOAD_SCALE);
    lemma_div_of0(10);
    lemma_div_is_ordered(0, m * LOAD_SCALE, 10);
    lemma_mul_inequality(m, width, LOAD_SCALE as int);
    lemma_mul_inequality(m, height, LOAD_SCALE as int);
}

/// A pixel coordinate distorted by at most one image extent maps to a
/// fraction between `-LOAD_SCALE` and `2 * LOAD_SCALE`.
proof fn lemma_fraction_in_band(coord: int, radius: int, pixel: int, dim: int)
    requires
        0 <= pixel < dim,
        0 <= radius <= dim * LOAD_SCALE,
        pixel * LOAD_SCALE - radius <= coord <= pixel * LOAD_SCALE + radius,
        pixel * LOAD_SCALE <= (dim - 1) * LOAD_SCALE,
    ensures
        -(LOAD_SCALE as int) <= spec_pixel_to_fraction(coord, dim) <= 2 * LOAD_SCALE,
{
    let s = LOAD_SCALE as int;
    let num = coord + s;
    assert(-(s * (dim + 2)) <= num) by (nonlinear_arith)
        requires
            num >= pixel * s - radius + s,
            pixel >= 0,
            radius <= dim * s,
            s == LOAD_SCALE as int,
            dim >= 1,
    ;
    assert(num <= 2 * s * (dim + 2)) by (nonlinear_arith)
        requires
            num <= (dim - 1) * s + radius + s,
            radius <= dim * s,
            s == LOAD_SCALE as int,
            dim >= 1,
    ;
    assert(s * (dim + 2) == (dim + 2) * s) by (nonlinear_arith);
    assert(2 * s * (dim + 2) == (2 * s) * (dim + 2)) by (nonlinear_arith);
    lemma_tdiv_in_range(num, dim + 2, s, 2 * s);
}

} // verus!
