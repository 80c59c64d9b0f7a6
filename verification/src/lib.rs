//! A CPU load visualizer: per-core load samples are diffed from raw kernel
//! counters, eased over time, and rendered as a procedural fire-and-clouds
//! image into a caller-owned RGB pixel buffer.
//!
//! All load fractions are fixed-point values scaled by
//! [`cpuload::LOAD_SCALE`], so every stage of the pipeline — counter
//! differencing, easing physics, and per-pixel compositing — is exact
//! integer arithmetic with proved contracts. Time enters as explicit
//! millisecond parameters, and the coherent noise that animates the image
//! is sampled by the host once per pixel per frame and handed in as integer
//! noise planes; everything downstream of those inputs is verified.

pub mod cpuload;
pub mod load_reader;
pub mod physics;
pub mod renderer;
pub mod system_load;

use vstd::prelude::*;

verus! {

use crate::cpuload::{CpuLoad, LoadCounters};
use crate::load_reader::LoadReader;
use crate::physics::spec_update_loads;
use crate::renderer::{spec_render_byte, NoisePlanes, Renderer};

/// The top-level viewer: owns the pixel buffer, the displayed (eased) load
/// vector, the sampler state, and the renderer, and drives one frame per
/// [`LoadViz::get_image`] call.
pub struct LoadViz {
    pub width: usize,
    pub height: usize,
    /// Size: 3 * width * height. Format: RGBRGBRGB...
    pub pixels: Vec<u8>,
    /// What we're currently displaying. This is constantly animated
    /// towards the latest measured system load.
    pub currently_displayed_loads: Vec<CpuLoad>,
    pub currently_displayed_loads_updated_ms: u64,
    pub load_reader: LoadReader,
    pub renderer: Renderer,
}

fn zero_bytes(n: usize) -> (v: Vec<u8>)
    ensures
        v@ == Seq::new(n as nat, |i: int| 0u8),
{
    let mut v: Vec<u8> = Vec::new();
    let mut i: usize = 0;
    while i < n
        invariant
            i <= n,
            v@.len() == i,
            forall|j: int| 0 <= j < i ==> v@[j] == 0u8,
        decreases n - i,
    {
        v.push(0);
        i += 1;
    }
    proof {
        assert(v@ =~= Seq::new(n as nat, |i: int| 0u8));
    }
    v
}

impl LoadViz {
    /// The viewer's state is consistent: the buffer covers the image, the
    /// displayed loads are genuine loads, and the sampler cache matches its
    /// snapshots.
    pub open spec fn wf(self) -> bool {
        &&& self.pixels@.len() >= 3 * (self.width as int) * (self.height as int)
        &&& forall|i: int|
            0 <= i < self.currently_displayed_loads@.len() ==> (
            #[trigger] self.currently_displayed_loads@[i]).wf()
        &&& self.load_reader.wf()
    }

    /// A fresh viewer around one initial counter sample, taken at `now_ms`
    /// on the host's monotonic millisecond clock.
    pub fn new(initial_counters: Vec<LoadCounters>, now_ms: u64) -> (r: LoadViz)
        ensures
            r.wf(),
            r.width == 0,
            r.height == 0,
            r.pixels@ == seq![0u8],
            r.currently_displayed_loads@ == Seq::<CpuLoad>::empty(),
            r.currently_displayed_loads_updated_ms == now_ms,
            r.load_reader.newer_sample@ == initial_counters@,
            r.load_reader.last_update_done_ms == now_ms,
    {
        let mut pixels: Vec<u8> = Vec::new();
        pixels.push(0);
        proof {
            assert(pixels@ =~= seq![0u8]);
        }
        LoadViz {
            width: 0,
            height: 0,
            pixels,
            currently_displayed_loads: Vec::new(),
            currently_displayed_loads_updated_ms: now_ms,
            load_reader: LoadReader::new(initial_counters, now_ms),
            renderer: Renderer {  },
        }
    }

    /// Is a fresh counter sample due?
    pub fn needs_refresh(&self, now_ms: u64) -> (due: bool)
        requires
            now_ms >= self.load_reader.last_update_done_ms,
        ensures
            due == ((now_ms - self.load_reader.last_update_done_ms) / 1000
                > crate::load_reader::SECONDS_BETWEEN_MEASUREMENTS),
    {
        self.load_reader.needs_refresh(now_ms)
    }

    /// Hand a fresh counter sample to the sampler.
    pub fn refresh(&mut self, counters: Vec<LoadCounters>, now_ms: u64)
        requires
            old(self).wf(),
        ensures
            final(self).wf(),
            final(self).load_reader.wf(),
            final(self).load_reader.older_sample@ == old(self).load_reader.newer_sample@,
            final(self).load_reader.newer_sample@ == counters@,
            final(self).load_reader.last_update_done_ms == now_ms,
            final(self).width == old(self).width,
            final(self).height == old(self).height,
            final(self).pixels@ == old(self).pixels@,
            final(self).currently_displayed_loads@ == old(self).currently_displayed_loads@,
            final(self).currently_displayed_loads_updated_ms == old(self).currently_displayed_loads_updated_ms,
    {
        self.load_reader.refresh(counters, now_ms);
    }

    /// Produce the frame for `now_ms` into the internal pixel buffer.
    ///
    /// A changed width or height reallocates the buffer (zeroed). If the
    /// sampler currently has no loads at all, the buffer is left as it is.
    /// Otherwise the displayed loads ease toward the sampler's loads by the
    /// time elapsed since the previous frame, and every pixel of the frame
    /// is repainted from them and from the given noise planes.
    pub fn get_image(&mut self, width: usize, height: usize, now_ms: u64, planes: &NoisePlanes)
        requires
            old(self).wf(),
            now_ms >= old(self).currently_displayed_loads_updated_ms,
            planes.wf(width as int, height as int),
            3 * (width as int) * (height as int) <= usize::MAX,
        ensures
            final(self).wf(),
            final(self).width == width,
            final(self).height == height,
            final(self).load_reader == old(self).load_reader,
            ({
                let loads = old(self).load_reader.last_result@;
                let resized = width != old(self).width || height != old(self).height;
                let frame_len = 3 * (width as int) * (height as int);
                let base = if resized {
                    Seq::new(frame_len as nat, |i: int| 0u8)
                } else {
                    old(self).pixels@
                };
                if loads.len() == 0 {
                    final(self).pixels@ == base && final(self).currently_displayed_loads@ == old(self).currently_displayed_loads@
                        && final(self).currently_displayed_loads_updated_ms == old(self).currently_displayed_loads_updated_ms
                } else {
                    let dt = now_ms - old(self).currently_displayed_loads_updated_ms;
                    let shown = spec_update_loads(
                        old(self).currently_displayed_loads@,
                        loads,
                        dt,
                    );
                    final(self).currently_displayed_loads@ == shown && final(self).currently_displayed_loads_updated_ms == now_ms && final(self).pixels@.len()
                        == base.len() && (forall|i: int|
                        0 <= i < frame_len ==> #[trigger] final(self).pixels@[i]
                            == spec_render_byte(shown, *planes, width as int, height as int, i))
                        && (forall|i: int|
                        frame_len <= i < base.len() ==> #[trigger] final(self).pixels@[i]
                            == base[i])
                }
            }),
    {
        if width != self.width || height != self.height {
            self.width = width;
            self.height = height;
            proof {
                assert(3 * ((width as int) * (height as int)) == 3 * (width as int) * (height
                    as int) && 0 <= (width as int) * (height as int)) by (nonlinear_arith);
            }
            self.pixels = zero_bytes(3 * (width * height));
        }
        let loads = self.load_reader.get_loads();
        if loads.len() == 0 {
            return;
        }
        let dt_ms = now_ms - self.currently_displayed_loads_updated_ms;
        crate::physics::update_currently_displayed_loads(
            &mut self.currently_displayed_loads,
            &loads,
            dt_ms,
        );
        self.currently_displayed_loads_updated_ms = now_ms;
        self.renderer.render_image(
            &self.currently_displayed_loads,
            width,
            height,
            planes,
            &mut self.pixels,
        );
    }
}

} // verus!
