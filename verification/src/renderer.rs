//! The per-pixel compositor: flames (user load) rise from the bottom through
//! clouds (system load) hanging from the top, against a solid sky background.
//!
//! All geometry and color math is fixed-point over [`LOAD_SCALE`]. The
//! coherent noise that distorts and animates the image is sampled outside
//! (one value per pixel per noise field) and handed in as [`NoisePlanes`];
//! every contract here holds for arbitrary noise values in range.

use vstd::prelude::*;

pub mod cloud;
pub mod flame;

verus! {

use vstd::arithmetic::div_mod::{
    lemma_div_is_ordered, lemma_div_multiples_vanish, lemma_div_of0,
    lemma_mod_division_less_than_divisor, lemma_mod_multiples_basic, lemma_multiply_divide_le,
};
use vstd::arithmetic::mul::{lemma_mul_inequality, lemma_mul_nonnegative, lemma_mul_upper_bound};
use crate::cpuload::{
    lemma_floor_div_sum, lemma_sort_by_total_len, lemma_sort_by_total_wf, sort_by_total, CpuLoad,
    LOAD_SCALE,
};

/// The per-pixel compositor.
///
/// It holds no state of its own: the coherent noise that animates the image
/// lives with the host, is sampled once per pixel per frame, and arrives
/// here as [`NoisePlanes`]. The noise generator's identity must stay stable
/// across frames for temporal coherence; the contracts here hold for any
/// in-range noise values, so that requirement costs no trust.
pub struct Renderer {}

impl Default for Renderer {
    fn default() -> (r: Self)
        ensures
            r == (Renderer {  }),
    {
        Renderer {  }
    }
}

/// One noise sample per pixel for each of the four noise fields a frame
/// consumes, in row-major order from the top-left pixel. `distortion_x` and
/// `distortion_y` displace the flame's sampled column and row, `temperature`
/// colors the flame interior (sampled at the displaced coordinates), and
/// `cloud` drives cloud brightness. Values are fractions of [`LOAD_SCALE`]
/// in `[-LOAD_SCALE, LOAD_SCALE]`.
pub struct NoisePlanes {
    pub distortion_x: Vec<i32>,
    pub distortion_y: Vec<i32>,
    pub temperature: Vec<i32>,
    pub cloud: Vec<i32>,
}

impl NoisePlanes {
    pub open spec fn wf(self, width: int, height: int) -> bool {
        &&& self.distortion_x@.len() == width * height
    &&& self.distortion_y@.len() == width * height
    &&& self.temperature@.len() == width * height
    &&& self.cloud@.len() == width * height
    &&& forall|i: int|
            0 <= i < width * height ==> -(LOAD_SCALE as int) <= (
            #[trigger] self.distortion_x@[i]) as int <= LOAD_SCALE
    &&& forall|i: int|
            0 <= i < width * height ==> -(LOAD_SCALE as int) <= (
            #[trigger] self.distortion_y@[i]) as int <= LOAD_SCALE
    &&& forall|i: int|
            0 <= i < width * height ==> -(LOAD_SCALE as int) <= (
            #[trigger] self.temperature@[i]) as int <= LOAD_SCALE
    &&& forall|i: int|
            0 <= i < width * height ==> -(LOAD_SCALE as int) <= (#[trigger] self.cloud@[i]) as int
                <= LOAD_SCALE
    }
}

/// One RGB pixel color, 8 bits per channel.
#[derive(Clone, Copy, Debug, PartialEq, Eq, Structural)]
pub struct Rgb {
    pub r: u8,
    pub g: u8,
    pub b: u8,
}

/// The solid sky color behind everything.
pub open spec fn bg_color_spec() -> Rgb {
    Rgb { r: 0x30, g: 0x30, b: 0x90 }
}

pub fn bg_color() -> (c: Rgb)
    ensures
        c == bg_color_spec(),
{
    Rgb { r: 0x30, g: 0x30, b: 0x90 }
}

/// Truncating division (rounding toward zero), as the hardware divides.
pub open spec fn tdiv(a: int, b: int) -> int {
    if a >= 0 {
        a / b
    } else {
        -((-a) / b)
    }
}

pub open spec fn clamp_int(x: int, lo: int, hi: int) -> int {
    if x < lo {
        lo
    } else if x > hi {
        hi
    } else {
        x
    }
}

/// Truncating signed division on machine integers.
fn div_trunc(a: i128, b: i128) -> (q: i128)
    requires
        b > 0,
        a > i128::MIN,
    ensures
        q == tdiv(a as int, b as int),
{
    if a >= 0 {
        proof {
            lemma_mul_inequality(1, b as int, a as int);
            lemma_multiply_divide_le(a as int, b as int, a as int);
            lemma_div_of0(b as int);
            lemma_div_is_ordered(0, a as int, b as int);
        }
        ((a as u128) / (b as u128)) as i128
    } else {
        proof {
            lemma_mul_inequality(1, b as int, (-a) as int);
            lemma_multiply_divide_le((-a) as int, b as int, (-a) as int);
            lemma_div_of0(b as int);
            lemma_div_is_ordered(0, (-a) as int, b as int);
        }
        -((((-a) as u128) / (b as u128)) as i128)
    }
}

/// A blend `(a * (LOAD_SCALE - f) + b * f) / LOAD_SCALE` of two values that
/// both lie in `[0, bound]` lies in `[0, bound]` itself.
pub proof fn lemma_blend_bounds(a: int, b: int, f: int, bound: int)
    requires
        0 <= a <= bound,
        0 <= b <= bound,
        0 <= f <= LOAD_SCALE,
    ensures
        0 <= (a * (LOAD_SCALE - f) + b * f) / (LOAD_SCALE as int) <= bound,
{
    let s = LOAD_SCALE as int;
    lemma_mul_inequality(a, bound, s - f);
    lemma_mul_inequality(b, bound, f);
    lemma_mul_nonnegative(a, s - f);
    lemma_mul_nonnegative(b, f);
    assert(bound * (s - f) + bound * f == bound * s) by (nonlinear_arith);
    lemma_div_is_ordered(a * (s - f) + b * f, bound * s, s);
    lemma_div_multiples_vanish(bound, s);
    lemma_div_of0(s);
    lemma_div_is_ordered(0, a * (s - f) + b * f, s);
}

/// A product of a value of bounded magnitude and a nonnegative bounded value
/// has bounded magnitude.
pub proof fn lemma_mul_abs_bound(n: int, r: int, nb: int, rb: int)
    requires
        -nb <= n <= nb,
        0 <= r <= rb,
    ensures
        -(nb * rb) <= n * r <= nb * rb,
{
    if n >= 0 {
        lemma_mul_upper_bound(n, nb, r, rb);
        lemma_mul_nonnegative(n, r);
    } else {
        lemma_mul_upper_bound(-n, nb, r, rb);
        lemma_mul_nonnegative(-n, r);
        vstd::arithmetic::mul::lemma_mul_unary_negation(n, r);
    }
}

/// Truncating division keeps the quotient inside any multiple-of-the-divisor
/// range around the numerator.
pub proof fn lemma_tdiv_in_range(a: int, b: int, lo: int, hi: int)
    requires
        b >= 1,
        0 <= lo,
        0 <= hi,
        -(lo * b) <= a,
        a <= hi * b,
    ensures
        -lo <= tdiv(a, b) <= hi,
{
    vstd::arithmetic::mul::lemma_mul_is_commutative(lo, b);
    vstd::arithmetic::mul::lemma_mul_is_commutative(hi, b);
    if a >= 0 {
        lemma_multiply_divide_le(a, b, hi);
        lemma_div_of0(b);
        lemma_div_is_ordered(0, a, b);
    } else {
        lemma_multiply_divide_le(-a, b, lo);
        lemma_div_of0(b);
        lemma_div_is_ordered(0, -a, b);
    }
}

/// Linear interpolation between two colors; the blend factor is a fraction
/// of `LOAD_SCALE` and is clamped into `[0, LOAD_SCALE]` first.
pub open spec fn spec_interpolate(factor_scaled: int, from: Rgb, to: Rgb) -> Rgb {
    let f = clamp_int(factor_scaled, 0, LOAD_SCALE as int);
    let s = LOAD_SCALE as int;
    Rgb {
        r: ((from.r * (s - f) + to.r * f) / s) as u8,
        g: ((from.g * (s - f) + to.g * f) / s) as u8,
        b: ((from.b * (s - f) + to.b * f) / s) as u8,
    }
}

pub fn interpolate(factor_scaled: i64, from: Rgb, to: Rgb) -> (c: Rgb)
    ensures
        c == spec_interpolate(factor_scaled as int, from, to),
{
    let f: u64 = if factor_scaled < 0 {
        0
    } else if factor_scaled > LOAD_SCALE as i64 {
        LOAD_SCALE
    } else {
        factor_scaled as u64
    };
    proof {
        lemma_blend_bounds(from.r as int, to.r as int, f as int, 255);
        lemma_blend_bounds(from.g as int, to.g as int, f as int, 255);
        lemma_blend_bounds(from.b as int, to.b as int, f as int, 255);
    }
    let w1: u64 = LOAD_SCALE - f;
    Rgb {
        r: ((from.r as u64 * w1 + to.r as u64 * f) / LOAD_SCALE) as u8,
        g: ((from.g as u64 * w1 + to.g as u64 * f) / LOAD_SCALE) as u8,
        b: ((from.b as u64 * w1 + to.b as u64 * f) / LOAD_SCALE) as u8,
    }
}

/// Maps a pixel coordinate (scaled by `LOAD_SCALE`) to a fraction of the
/// image's extent, treating the image as `maxpixel + 2` evenly spaced slots
/// with the pixels centered in the middle ones.
pub open spec fn spec_pixel_to_fraction(pixel_scaled: int, maxpixel: int) -> int {
    tdiv(pixel_scaled + LOAD_SCALE, maxpixel + 2)
}

pub fn pixel_to_fraction(pixel_scaled: i128, maxpixel: usize) -> (f: i128)
    requires
        pixel_scaled + LOAD_SCALE < i128::MAX,
        pixel_scaled > i128::MIN + LOAD_SCALE,
        maxpixel + 2 <= i128::MAX,
    ensures
        f == spec_pixel_to_fraction(pixel_scaled as int, maxpixel as int),
{
    div_trunc(pixel_scaled + LOAD_SCALE as i128, maxpixel as i128 + 2)
}

/// The load shown at a horizontal fraction of the image: the mirrored loads
/// are treated as samples centered in their slots, and positions between
/// two samples blend them linearly.
pub open spec fn spec_get_load(viz: Seq<CpuLoad>, xf: int) -> CpuLoad {
    let flen = viz.len() as int;
    let s = LOAD_SCALE as int;
    let t = clamp_int(flen * xf - s / 2, 0, (flen - 1) * s);
    let i0 = t / s;
    let frac = t % s;
    if frac == 0 {
        viz[i0]
    } else {
        CpuLoad {
            user_scaled: ((viz[i0].user_scaled * (s - frac) + viz[i0 + 1].user_scaled * frac)
                / s) as u64,
            system_scaled: ((viz[i0].system_scaled * (s - frac) + viz[i0 + 1].system_scaled
                * frac) / s) as u64,
        }
    }
}

/// Blending two well-formed loads yields a well-formed load.
pub proof fn lemma_spec_get_load_wf(viz: Seq<CpuLoad>, xf: int)
    requires
        viz.len() > 0,
        forall|i: int| 0 <= i < viz.len() ==> (#[trigger] viz[i]).wf(),
    ensures
        spec_get_load(viz, xf).wf(),
        spec_get_load(viz, xf).user_scaled <= LOAD_SCALE,
        spec_get_load(viz, xf).system_scaled <= LOAD_SCALE,
{
    let flen = viz.len() as int;
    let s = LOAD_SCALE as int;
    let t = clamp_int(flen * xf - s / 2, 0, (flen - 1) * s);
    let i0 = t / s;
    let frac = t % s;
    lemma_mul_nonnegative(flen - 1, s);
    lemma_div_of0(s);
    lemma_div_is_ordered(0, t, s);
    lemma_multiply_divide_le(t, s, flen - 1);
    lemma_mod_division_less_than_divisor(t, s);
    if frac == 0 {
        assert(viz[i0].wf());
    } else {
        assert(i0 + 1 < flen) by {
            if t == (flen - 1) * s {
                lemma_mod_multiples_basic(flen - 1, s);
                assert(false);
            }
            vstd::arithmetic::div_mod::lemma_multiply_divide_lt(t, s, flen - 1);
        };
        let a = viz[i0];
        let b = viz[i0 + 1];
        assert(a.wf() && b.wf());
        lemma_blend_bounds(a.user_scaled as int, b.user_scaled as int, frac, s);
        lemma_blend_bounds(a.system_scaled as int, b.system_scaled as int, frac, s);
        let au = a.user_scaled as int;
        let bu = b.user_scaled as int;
        let as_ = a.system_scaled as int;
        let bs = b.system_scaled as int;
        lemma_mul_nonnegative(au, s - frac);
        lemma_mul_nonnegative(bu, frac);
        lemma_mul_nonnegative(as_, s - frac);
        lemma_mul_nonnegative(bs, frac);
        lemma_floor_div_sum(au * (s - frac) + bu * frac, as_ * (s - frac) + bs * frac, s);
        assert((au * (s - frac) + bu * frac) + (as_ * (s - frac) + bs * frac) == (au + as_) * (s
            - frac) + (bu + bs) * frac) by (nonlinear_arith);
        lemma_blend_bounds(au + as_, bu + bs, frac, s);
    }
}

/// Interpolate between two adjacent mirrored loads based on where inside the
/// image `x_fraction_scaled` (a fraction of `LOAD_SCALE`) points.
pub fn get_load(viz_loads: &Vec<CpuLoad>, x_fraction_scaled: i64) -> (load: CpuLoad)
    requires
        viz_loads@.len() > 0,
        forall|i: int| 0 <= i < viz_loads@.len() ==> (#[trigger] viz_loads@[i]).wf(),
    ensures
        load == spec_get_load(viz_loads@, x_fraction_scaled as int),
        load.wf(),
{
    proof {
        lemma_spec_get_load_wf(viz_loads@, x_fraction_scaled as int);
    }
    let flen = viz_loads.len();
    let ghost s = LOAD_SCALE as int;
    let ghost t_spec = clamp_int(
        flen as int * x_fraction_scaled as int - s / 2,
        0,
        (flen as int - 1) * s,
    );
    let half: u128 = (LOAD_SCALE / 2) as u128;
    proof {
        lemma_mul_upper_bound(flen as int - 1, u64::MAX as int, LOAD_SCALE as int, LOAD_SCALE
            as int);
        lemma_mul_nonnegative(flen as int - 1, s);
    }
    let cap: u128 = (flen - 1) as u128 * LOAD_SCALE as u128;
    let t: u128;
    if x_fraction_scaled <= 0 {
        proof {
            if (x_fraction_scaled as int) <= 0 {
                vstd::arithmetic::mul::lemma_mul_is_commutative(
                    flen as int,
                    x_fraction_scaled as int,
                );
                if (x_fraction_scaled as int) < 0 {
                    vstd::arithmetic::mul::lemma_mul_strict_inequality(
                        x_fraction_scaled as int,
                        0,
                        flen as int,
                    );
                } else {
                    vstd::arithmetic::mul::lemma_mul_by_zero_is_zero(flen as int);
                }
            }
        }
        t = 0;
    } else {
        proof {
            lemma_mul_upper_bound(flen as int, u64::MAX as int, x_fraction_scaled as int, i64::MAX
                as int);
        }
        let prod: u128 = flen as u128 * x_fraction_scaled as u128;
        let t128: u128 = if prod <= half {
            0
        } else {
            prod - half
        };
        t = if t128 > cap {
            cap
        } else {
            t128
        };
    }
    proof {
        assert(t == t_spec);
        lemma_div_of0(s);
        lemma_div_is_ordered(0, t as int, s);
        lemma_multiply_divide_le(t as int, s, flen as int - 1);
        lemma_mod_division_less_than_divisor(t as int, s);
    }
    let i0 = (t / LOAD_SCALE as u128) as usize;
    let frac = (t % LOAD_SCALE as u128) as u64;
    if frac == 0 {
        viz_loads[i0]
    } else {
        proof {
            assert(i0 as int + 1 < flen as int) by {
                if t as int == (flen as int - 1) * s {
                    lemma_mod_multiples_basic(flen as int - 1, s);
                    assert(false);
                }
                vstd::arithmetic::div_mod::lemma_multiply_divide_lt(t as int, s, flen as int - 1);
            };
            let a = viz_loads@[i0 as int];
            let b = viz_loads@[i0 as int + 1];
            lemma_blend_bounds(a.user_scaled as int, b.user_scaled as int, frac as int, s);
            lemma_blend_bounds(a.system_scaled as int, b.system_scaled as int, frac as int, s);
        }
        let a = viz_loads[i0];
        let b = viz_loads[i0 + 1];
        let w1: u64 = LOAD_SCALE - frac;
        CpuLoad {
            user_scaled: ((a.user_scaled as u128 * w1 as u128 + b.user_scaled as u128
                * frac as u128) / LOAD_SCALE as u128) as u64,
            system_scaled: ((a.system_scaled as u128 * w1 as u128 + b.system_scaled as u128
                * frac as u128) / LOAD_SCALE as u128) as u64,
        }
    }
}

/// The mirrored layout: loads sorted ascending by total load, followed by
/// the same sequence reversed, so the tallest flame sits centered.
pub open spec fn mirror_sort_spec(loads: Seq<CpuLoad>) -> Seq<CpuLoad> {
    sort_by_total(loads) + sort_by_total(loads).reverse()
}

/// The mirrored layout is a palindrome: the image's left and right halves
/// always show the same loads, so the tallest flame sits centered instead
/// of at an arbitrary edge.
pub proof fn lemma_mirror_sort_palindrome(loads: Seq<CpuLoad>)
    ensures
        mirror_sort_spec(loads).len() == 2 * loads.len(),
        forall|i: int|
            0 <= i < mirror_sort_spec(loads).len() ==> #[trigger] mirror_sort_spec(loads)[i]
                == mirror_sort_spec(loads)[mirror_sort_spec(loads).len() - 1 - i],
{
    lemma_sort_by_total_len(loads);
    let sorted = sort_by_total(loads);
    let r = mirror_sort_spec(loads);
    let n = loads.len() as int;
    assert forall|i: int| 0 <= i < r.len() implies #[trigger] r[i] == r[r.len() - 1 - i] by {
        if i < n {
            assert(r[i] == sorted[i]);
            assert(r[2 * n - 1 - i] == sorted.reverse()[n - 1 - i]);
        } else {
            assert(r[i] == sorted.reverse()[i - n]);
            assert(r[2 * n - 1 - i] == sorted[2 * n - 1 - i]);
        }
    };
}

/// Turns `[3, 1, 2]` into `[1, 2, 3, 3, 2, 1]`: sort ascending by total
/// load, then append the sorted sequence reversed. The result is always
/// twice as long as the input.
pub fn mirror_sort(cpu_loads: &Vec<CpuLoad>) -> (r: Vec<CpuLoad>)
    requires
        forall|i: int| 0 <= i < cpu_loads@.len() ==> (#[trigger] cpu_loads@[i]).wf(),
    ensures
        r@ == mirror_sort_spec(cpu_loads@),
        r@.len() == 2 * cpu_loads@.len(),
        forall|i: int| 0 <= i < r@.len() ==> (#[trigger] r@[i]).wf(),
{
    proof {
        lemma_sort_by_total_len(cpu_loads@);
        lemma_sort_by_total_wf(cpu_loads@);
    }
    let mut result = crate::cpuload::sort_loads(cpu_loads);
    let n = result.len();
    let ghost sorted = sort_by_total(cpu_loads@);
    proof {
        assert(result@.take(n as int) =~= sorted);
    }
    let mut i: usize = n;
    while i > 0
        invariant
            i <= n,
            n == sorted.len(),
            result@.len() == n + (n - i),
            result@.take(n as int) == sorted,
            forall|k: int| n <= k < result@.len() ==> result@[k] == sorted[n - 1 - (k - n)],
        decreases i,
    {
        i -= 1;
        let x = result[i];
        proof {
            assert(result@[i as int] == result@.take(n as int)[i as int]);
        }
        result.push(x);
        proof {
            assert(result@.take(n as int) =~= sorted);
        }
    }
    proof {
        assert(result@ =~= mirror_sort_spec(cpu_loads@));
        assert forall|k: int| 0 <= k < result@.len() implies (#[trigger] result@[k]).wf() by {
            if k < n {
                assert(result@[k] == sorted[k]);
            } else {
                assert(result@[k] == sorted[n - 1 - (k - n)]);
            }
        };
    }
    result
}

/// The largest user load among the mirrored loads; it caps how high any
/// flame can reach.
pub open spec fn spec_max_user(viz: Seq<CpuLoad>) -> int
    decreases viz.len(),
{
    if viz.len() == 0 {
        0
    } else {
        let m = spec_max_user(viz.drop_last());
        if viz.last().user_scaled > m {
            viz.last().user_scaled as int
        } else {
            m
        }
    }
}

/// A pointwise bound on user loads bounds their maximum.
pub proof fn lemma_spec_max_user_pointwise(viz: Seq<CpuLoad>, bound: int)
    requires
        0 <= bound,
        forall|j: int| 0 <= j < viz.len() ==> (#[trigger] viz[j]).user_scaled <= bound,
    ensures
        spec_max_user(viz) <= bound,
    decreases viz.len(),
{
    if viz.len() > 0 {
        assert(forall|j: int|
            0 <= j < viz.drop_last().len() ==> (#[trigger] viz.drop_last()[j]).user_scaled
                <= bound);
        lemma_spec_max_user_pointwise(viz.drop_last(), bound);
        assert(viz.last() == viz[viz.len() - 1]);
    }
}

/// The maximum user load of well-formed loads is itself in range.
pub proof fn lemma_spec_max_user_bounds(viz: Seq<CpuLoad>)
    requires
        forall|i: int| 0 <= i < viz.len() ==> (#[trigger] viz[i]).wf(),
    ensures
        0 <= spec_max_user(viz) <= LOAD_SCALE,
        forall|i: int| 0 <= i < viz.len() ==> (#[trigger] viz[i]).user_scaled <= spec_max_user(
            viz,
        ),
    decreases viz.len(),
{
    if viz.len() > 0 {
        lemma_spec_max_user_bounds(viz.drop_last());
        assert forall|i: int| 0 <= i < viz.len() implies (#[trigger] viz[i]).user_scaled
            <= spec_max_user(viz) by {
            if i < viz.len() - 1 {
                assert(viz.drop_last()[i] == viz[i]);
            }
        };
    }
}

/// The noise value a plane holds for the pixel at `(x, y)` (y from the top).
pub open spec fn plane_at(plane: Seq<i32>, width: int, x: int, y: int) -> int {
    plane[y * width + x] as int
}

/// The color composited at one pixel: a cloud pixel wins over a flame
/// pixel, and the sky backs both. `y` counts from the top; the flame is
/// queried with the row counted from the bottom.
pub open spec fn spec_composite_pixel(
    viz: Seq<CpuLoad>,
    planes: NoisePlanes,
    x: int,
    y: int,
    width: int,
    height: int,
) -> Rgb {
    match crate::renderer::cloud::spec_cloud_pixel(
        viz,
        plane_at(planes.cloud@, width, x, y),
        x,
        y,
        width,
        height,
    ) {
        Some(c) => c,
        None => match crate::renderer::flame::spec_flame_pixel(
            viz,
            plane_at(planes.distortion_x@, width, x, y),
            plane_at(planes.distortion_y@, width, x, y),
            plane_at(planes.temperature@, width, x, y),
            x,
            height - 1 - y,
            width,
            height,
        ) {
            Some(c) => c,
            None => bg_color_spec(),
        },
    }
}

/// Byte `i` of the rendered frame: three bytes per pixel in R, G, B order,
/// pixels in row-major order from the top-left.
pub open spec fn spec_render_byte(
    loads: Seq<CpuLoad>,
    planes: NoisePlanes,
    width: int,
    height: int,
    i: int,
) -> u8 {
    let p = i / 3;
    let x = p % width;
    let y = p / width;
    let rgb = spec_composite_pixel(mirror_sort_spec(loads), planes, x, y, width, height);
    if i % 3 == 0 {
        rgb.r
    } else if i % 3 == 1 {
        rgb.g
    } else {
        rgb.b
    }
}

/// Render progress order: columns left to right, and rows top to bottom
/// within the current column. Byte `i` belongs to an already painted pixel.
spec fn pixel_done(i: int, width: int, x: int, y: int) -> bool {
    let p = i / 3;
    p % width < x || (p % width == x && p / width < y)
}

fn highest_user_load(viz_loads: &Vec<CpuLoad>) -> (m: u64)
    requires
        forall|i: int| 0 <= i < viz_loads@.len() ==> (#[trigger] viz_loads@[i]).wf(),
    ensures
        m == spec_max_user(viz_loads@),
        m <= LOAD_SCALE,
{
    proof {
        lemma_spec_max_user_bounds(viz_loads@);
    }
    let mut m: u64 = 0;
    let mut i: usize = 0;
    while i < viz_loads.len()
        invariant
            i <= viz_loads@.len(),
            m == spec_max_user(viz_loads@.take(i as int)),
        decreases viz_loads@.len() - i,
    {
        let u = viz_loads[i].user_scaled;
        proof {
            assert(viz_loads@.take(i + 1).drop_last() =~= viz_loads@.take(i as int));
            assert(viz_loads@.take(i + 1).last() == viz_loads@[i as int]);
        }
        if u > m {
            m = u;
        }
        i += 1;
    }
    proof {
        assert(viz_loads@.take(viz_loads@.len() as int) =~= viz_loads@);
    }
    m
}

impl Renderer {
    /// Paint one frame of the visualization into the caller's pixel buffer:
    /// 3 bytes per pixel (R, G, B), row-major, top to bottom. An empty load
    /// list paints nothing and leaves the buffer untouched; otherwise every
    /// byte of the frame is written, and bytes past the frame are kept.
    pub fn render_image(
        &self,
        currently_displayed_loads: &Vec<CpuLoad>,
        width: usize,
        height: usize,
        planes: &NoisePlanes,
        pixels: &mut Vec<u8>,
    )
        requires
            forall|i: int|
                0 <= i < currently_displayed_loads@.len() ==> (
                #[trigger] currently_displayed_loads@[i]).wf(),
            planes.wf(width as int, height as int),
            old(pixels)@.len() >= 3 * (width as int) * (height as int),
        ensures
            final(pixels)@.len() == old(pixels)@.len(),
            currently_displayed_loads@.len() == 0 ==> final(pixels)@ == old(pixels)@,
            currently_displayed_loads@.len() > 0 ==> forall|i: int|
                0 <= i < 3 * (width as int) * (height as int) ==> #[trigger] final(pixels)@[i]
                    == spec_render_byte(
                    currently_displayed_loads@,
                    *planes,
                    width as int,
                    height as int,
                    i,
                ),
            forall|i: int|
                3 * (width as int) * (height as int) <= i < old(pixels)@.len()
                    ==> #[trigger] final(pixels)@[i] == old(pixels)@[i],
    {
        let ghost w = width as int;
        let ghost h = height as int;
        let ghost loads = currently_displayed_loads@;
        let ghost orig = pixels@;
        let buf_len: usize = pixels.len();
        proof {
            assert(orig.len() == buf_len);
        }
        if currently_displayed_loads.len() == 0 {
            return;
        }
        let viz_loads = mirror_sort(currently_displayed_loads);
        let mut pixel_x: usize = 0;
        while pixel_x < width
            invariant
                pixel_x <= width,
                w == width as int,
                h == height as int,
                loads == currently_displayed_loads@,
                loads.len() > 0,
                viz_loads@ == mirror_sort_spec(loads),
                viz_loads@.len() == 2 * loads.len(),
                forall|i: int| 0 <= i < viz_loads@.len() ==> (#[trigger] viz_loads@[i]).wf(),
                planes.wf(w, h),
                pixels@.len() == orig.len(),
                orig.len() >= 3 * w * h,
                orig.len() <= usize::MAX,
                forall|i: int|
                    0 <= i < 3 * w * h ==> #[trigger] pixels@[i] == (if pixel_done(
                        i,
                        w,
                        pixel_x as int,
                        0,
                    ) {
                        spec_render_byte(loads, *planes, w, h, i)
                    } else {
                        orig[i]
                    }),
                forall|i: int| 3 * w * h <= i < orig.len() ==> #[trigger] pixels@[i] == orig[i],
            decreases width - pixel_x,
        {
            let mut pixel_y: usize = 0;
            while pixel_y < height
                invariant
                    pixel_x < width,
                    pixel_y <= height,
                    w == width as int,
                    h == height as int,
                    loads == currently_displayed_loads@,
                    loads.len() > 0,
                    viz_loads@ == mirror_sort_spec(loads),
                    viz_loads@.len() == 2 * loads.len(),
                    forall|i: int| 0 <= i < viz_loads@.len() ==> (#[trigger] viz_loads@[i]).wf(),
                    planes.wf(w, h),
                    pixels@.len() == orig.len(),
                    orig.len() >= 3 * w * h,
                    orig.len() <= usize::MAX,
                    forall|i: int|
                        0 <= i < 3 * w * h ==> #[trigger] pixels@[i] == (if pixel_done(
                            i,
                            w,
                            pixel_x as int,
                            pixel_y as int,
                        ) {
                            spec_render_byte(loads, *planes, w, h, i)
                        } else {
                            orig[i]
                        }),
                    forall|i: int| 3 * w * h <= i < orig.len() ==> #[trigger] pixels@[i] == orig[i],
                decreases height - pixel_y,
            {
                let ghost x = pixel_x as int;
                let ghost y = pixel_y as int;
                proof {
                    assert(y * w + x < w * h && 3 * (y * w + x) + 2 < 3 * (w * h) && 3 * (w * h)
                        == 3 * w * h && 0 <= w * h) by (nonlinear_arith)
                        requires
                            0 <= x < w,
                            0 <= y < h,
                    ;
                }
                let idx: usize = pixel_y * width + pixel_x;
                let n_dx = planes.distortion_x[idx] as i64;
                let n_dy = planes.distortion_y[idx] as i64;
                let n_temp = planes.temperature[idx] as i64;
                let n_cloud = planes.cloud[idx] as i64;
                let color = match self.get_cloud_pixel(
                    &viz_loads,
                    n_cloud,
                    pixel_x,
                    pixel_y,
                    width,
                    height,
                ) {
                    Some(c) => c,
                    None => match self.get_flame_pixel(
                        &viz_loads,
                        n_dx,
                        n_dy,
                        n_temp,
                        pixel_x,
                        height - 1 - pixel_y,
                        width,
                        height,
                    ) {
                        Some(c) => c,
                        None => bg_color(),
                    },
                };
                proof {
                    assert(color == spec_composite_pixel(viz_loads@, *planes, x, y, w, h));
                }
                let ghost prev = pixels@;
                let base: usize = 3 * idx;
                pixels[base] = color.r;
                pixels[base + 1] = color.g;
                pixels[base + 2] = color.b;
                proof {
                    lemma_painted_column_step(
                        prev,
                        pixels@,
                        loads,
                        *planes,
                        orig,
                        w,
                        h,
                        x,
                        y,
                        color,
                    );
                }
                pixel_y += 1;
            }
            proof {
                assert forall|i: int| 0 <= i < 3 * w * h implies pixel_done(
                    i,
                    w,
                    pixel_x as int + 1,
                    0,
                ) == pixel_done(i, w, pixel_x as int, h) by {
                    lemma_byte_coords(i, w, h);
                }
            }
            pixel_x += 1;
        }
        proof {
            assert forall|i: int| 0 <= i < 3 * w * h implies #[trigger] pixels@[i]
                == spec_render_byte(loads, *planes, w, h, i) by {
                lemma_byte_coords(i, w, h);
                assert(pixel_done(i, w, w, 0));
            }
        }
    }
}

/// Byte `i` of a frame belongs to a pixel with in-range coordinates.
proof fn lemma_byte_coords(i: int, w: int, h: int)
    requires
        0 <= w,
        0 <= h,
        0 <= i < 3 * w * h,
    ensures
        0 <= i / 3 < w * h,
        0 <= (i / 3) % w < w,
        0 <= (i / 3) / w < h,
        0 <= i % 3 < 3,
        i == 3 * (i / 3) + i % 3,
        i / 3 == w * ((i / 3) / w) + (i / 3) % w,
{
    vstd::arithmetic::mul::lemma_mul_nonnegative(w, h);
    assert(w >= 1 && h >= 1) by (nonlinear_arith)
        requires
            3 * w * h > 0,
            0 <= w,
            0 <= h,
    ;
    vstd::arithmetic::div_mod::lemma_fundamental_div_mod(i, 3);
    vstd::arithmetic::div_mod::lemma_mod_division_less_than_divisor(i, 3);
    vstd::arithmetic::div_mod::lemma_div_of0(3);
    vstd::arithmetic::div_mod::lemma_div_is_ordered(0, i, 3);
    assert(3 * (w * h) == 3 * w * h) by (nonlinear_arith);
    vstd::arithmetic::div_mod::lemma_multiply_divide_lt(i, 3, w * h);
    let p = i / 3;
    vstd::arithmetic::div_mod::lemma_fundamental_div_mod(p, w);
    vstd::arithmetic::div_mod::lemma_mod_division_less_than_divisor(p, w);
    vstd::arithmetic::div_mod::lemma_div_of0(w);
    vstd::arithmetic::div_mod::lemma_div_is_ordered(0, p, w);
    vstd::arithmetic::div_mod::lemma_multiply_divide_lt(p, w, h);
}

/// After painting the three bytes of pixel `(x, y)`, the column-major
/// progress invariant advances one row.
proof fn lemma_painted_column_step(
    prev: Seq<u8>,
    cur: Seq<u8>,
    loads: Seq<CpuLoad>,
    planes: NoisePlanes,
    orig: Seq<u8>,
    w: int,
    h: int,
    x: int,
    y: int,
    color: Rgb,
)
    requires
        0 <= x < w,
        0 <= y < h,
        prev.len() == orig.len(),
        orig.len() >= 3 * w * h,
        color == spec_composite_pixel(mirror_sort_spec(loads), planes, x, y, w, h),
        cur == prev.update(3 * (y * w + x), color.r).update(3 * (y * w + x) + 1, color.g).update(
            3 * (y * w + x) + 2,
            color.b,
        ),
        3 * (y * w + x) + 2 < 3 * w * h,
        forall|i: int|
            0 <= i < 3 * w * h ==> #[trigger] prev[i] == (if pixel_done(i, w, x, y) {
                spec_render_byte(loads, planes, w, h, i)
            } else {
                orig[i]
            }),
    ensures
        cur.len() == prev.len(),
        forall|i: int|
            0 <= i < 3 * w * h ==> #[trigger] cur[i] == (if pixel_done(i, w, x, y + 1) {
                spec_render_byte(loads, planes, w, h, i)
            } else {
                orig[i]
            }),
        forall|i: int| 3 * w * h <= i < orig.len() ==> #[trigger] cur[i] == prev[i],
{
    let p = y * w + x;
    let base = 3 * p;
    vstd::arithmetic::div_mod::lemma_fundamental_div_mod_converse(p, w, y, x);
    vstd::arithmetic::div_mod::lemma_fundamental_div_mod_converse(base, 3, p, 0);
    vstd::arithmetic::div_mod::lemma_fundamental_div_mod_converse(base + 1, 3, p, 1);
    vstd::arithmetic::div_mod::lemma_fundamental_div_mod_converse(base + 2, 3, p, 2);
    assert forall|i: int| 0 <= i < 3 * w * h implies #[trigger] cur[i] == (if pixel_done(
        i,
        w,
        x,
        y + 1,
    ) {
        spec_render_byte(loads, planes, w, h, i)
    } else {
        orig[i]
    }) by {
        lemma_byte_coords(i, w, h);
        if i == base || i == base + 1 || i == base + 2 {
            assert(pixel_done(i, w, x, y + 1));
        } else {
            assert(cur[i] == prev[i]);
            if i / 3 == p {
                assert(i == 3 * (i / 3) + i % 3);
                assert(false);
            }
            if i / 3 % w == x && i / 3 / w == y {
                vstd::arithmetic::mul::lemma_mul_is_commutative(w, y);
                assert(i / 3 == y * w + x);
                assert(false);
            }
            assert(pixel_done(i, w, x, y + 1) == pixel_done(i, w, x, y));
        }
    };
}

} // verus!
