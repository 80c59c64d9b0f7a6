//! Easing "physics": each frame, the displayed load vector moves toward the
//! latest measured loads. Rising is fast and falling is slow, so the image
//! reacts quickly to new load and decays gently.
//!
//! Cores are paired by rank under the total-load ordering, never by
//! identity: both vectors are sorted and matched positionally. When two
//! cores swap rank between frames their visual slots swap too, which can
//! show as a jump distinct from ordinary easing; that is a deliberate
//! property of the layout, not a defect to smooth over.

use vstd::prelude::*;

verus! {

use crate::cpuload::{sort_by_total, CpuLoad, LOAD_SCALE};

/// Milliseconds for a displayed value to rise from 0.0 to 1.0.
pub const RISE_FULL_SCALE_MS: u64 = 5000;

/// Milliseconds for a displayed value to fall from 1.0 to 0.0. Falling is
/// slower than rising so the image keeps a brief history of load spikes.
pub const FALL_FULL_SCALE_MS: u64 = 20000;

/// How far one displayed component may move toward its goal in `dt_ms`
/// milliseconds: bounded by the direction's rate and clamped at the goal.
pub open spec fn spec_compute_step(dt_ms: int, current: int, goal: int) -> int {
    if goal > current {
        let cap = dt_ms * LOAD_SCALE / RISE_FULL_SCALE_MS as int;
        if cap <= goal - current {
            cap
        } else {
            goal - current
        }
    } else {
        let cap = dt_ms * LOAD_SCALE / FALL_FULL_SCALE_MS as int;
        if cap <= current - goal {
            -cap
        } else {
            goal - current
        }
    }
}

/// How far should we step towards the goal value?
///
/// `dt_ms` is the time since the last update. The step never overshoots the
/// goal, in either direction.
pub fn compute_step(dt_ms: u64, current: u64, goal: u64) -> (step: i64)
    requires
        current <= LOAD_SCALE,
        goal <= LOAD_SCALE,
    ensures
        step == spec_compute_step(dt_ms as int, current as int, goal as int),
        goal > current ==> 0 <= step <= goal - current,
        goal <= current ==> -(current - goal) <= step <= 0,
{
    proof {
        vstd::arithmetic::mul::lemma_mul_inequality(
            dt_ms as int,
            u64::MAX as int,
            LOAD_SCALE as int,
        );
    }
    if goal > current {
        let cap: u128 = dt_ms as u128 * LOAD_SCALE as u128 / RISE_FULL_SCALE_MS as u128;
        let gap: u128 = (goal - current) as u128;
        if cap <= gap {
            cap as i64
        } else {
            (goal - current) as i64
        }
    } else {
        let cap: u128 = dt_ms as u128 * LOAD_SCALE as u128 / FALL_FULL_SCALE_MS as u128;
        let gap: u128 = (current - goal) as u128;
        if cap <= gap {
            -(cap as i64)
        } else {
            -((current - goal) as i64)
        }
    }
}

/// One core's displayed load after easing both components toward the target
/// and correcting any overflow past a total of 1.0. Whichever component
/// stepped above its own target is pulled back so the pair sums to 1.0.
pub open spec fn eased_toward(current: CpuLoad, target: CpuLoad, dt_ms: int) -> CpuLoad {
    let u = current.user_scaled + spec_compute_step(
        dt_ms,
        current.user_scaled as int,
        target.user_scaled as int,
    );
    let s = current.system_scaled + spec_compute_step(
        dt_ms,
        current.system_scaled as int,
        target.system_scaled as int,
    );
    if u + s <= LOAD_SCALE {
        CpuLoad { user_scaled: u as u64, system_scaled: s as u64 }
    } else if u > target.user_scaled {
        CpuLoad { user_scaled: (LOAD_SCALE - s) as u64, system_scaled: s as u64 }
    } else {
        CpuLoad { user_scaled: u as u64, system_scaled: (LOAD_SCALE - u) as u64 }
    }
}

/// The whole displayed vector after one easing frame: a core-count change
/// snaps to the target without easing; otherwise both vectors are ranked by
/// total load and eased pairwise by rank.
pub open spec fn spec_update_loads(
    current: Seq<CpuLoad>,
    target: Seq<CpuLoad>,
    dt_ms: int,
) -> Seq<CpuLoad> {
    if current.len() != target.len() {
        target
    } else {
        let ranked_current = sort_by_total(current);
        let ranked_target = sort_by_total(target);
        Seq::new(current.len(), |i: int| eased_toward(ranked_current[i], ranked_target[i], dt_ms))
    }
}

/// The easing step stays within the gap to the goal: it never overshoots.
pub proof fn lemma_spec_compute_step_bounds(dt_ms: int, current: int, goal: int)
    requires
        dt_ms >= 0,
        0 <= current <= LOAD_SCALE,
        0 <= goal <= LOAD_SCALE,
    ensures
        goal > current ==> 0 <= spec_compute_step(dt_ms, current, goal) <= goal - current,
        goal <= current ==> -(current - goal) <= spec_compute_step(dt_ms, current, goal) <= 0,
{
    vstd::arithmetic::mul::lemma_mul_nonnegative(dt_ms, LOAD_SCALE as int);
    vstd::arithmetic::div_mod::lemma_div_of0(RISE_FULL_SCALE_MS as int);
    vstd::arithmetic::div_mod::lemma_div_of0(FALL_FULL_SCALE_MS as int);
    vstd::arithmetic::div_mod::lemma_div_is_ordered(
        0,
        dt_ms * LOAD_SCALE,
        RISE_FULL_SCALE_MS as int,
    );
    vstd::arithmetic::div_mod::lemma_div_is_ordered(
        0,
        dt_ms * LOAD_SCALE,
        FALL_FULL_SCALE_MS as int,
    );
}

/// Easing a well-formed pair yields a well-formed displayed load: the two
/// components never sum past 1.0, whatever directions they ease in.
pub proof fn lemma_eased_toward_wf(current: CpuLoad, target: CpuLoad, dt_ms: int)
    requires
        current.wf(),
        target.wf(),
        dt_ms >= 0,
    ensures
        eased_toward(current, target, dt_ms).wf(),
{
    lemma_spec_compute_step_bounds(dt_ms, current.user_scaled as int, target.user_scaled as int);
    lemma_spec_compute_step_bounds(
        dt_ms,
        current.system_scaled as int,
        target.system_scaled as int,
    );
}

fn eased_one(current: CpuLoad, target: CpuLoad, dt_ms: u64) -> (r: CpuLoad)
    requires
        current.wf(),
        target.wf(),
    ensures
        r == eased_toward(current, target, dt_ms as int),
        r.wf(),
{
    let du = compute_step(dt_ms, current.user_scaled, target.user_scaled);
    let ds = compute_step(dt_ms, current.system_scaled, target.system_scaled);
    let u = (current.user_scaled as i64 + du) as u64;
    let s = (current.system_scaled as i64 + ds) as u64;
    if u + s <= LOAD_SCALE {
        CpuLoad { user_scaled: u, system_scaled: s }
    } else if u > target.user_scaled {
        CpuLoad { user_scaled: LOAD_SCALE - s, system_scaled: s }
    } else {
        CpuLoad { user_scaled: u, system_scaled: LOAD_SCALE - u }
    }
}

/// Ease the displayed load vector one frame toward the target vector.
///
/// If the core count changed, the displayed vector snaps to a copy of the
/// target; otherwise each rank's displayed pair moves by at most the
/// direction's rate, clamped at the target, and is kept well formed by the
/// overflow correction.
pub fn update_currently_displayed_loads(
    current: &mut Vec<CpuLoad>,
    target: &Vec<CpuLoad>,
    dt_ms: u64,
)
    requires
        forall|i: int| 0 <= i < old(current)@.len() ==> (#[trigger] old(current)@[i]).wf(),
        forall|i: int| 0 <= i < target@.len() ==> (#[trigger] target@[i]).wf(),
    ensures
        final(current)@ == spec_update_loads(old(current)@, target@, dt_ms as int),
        forall|i: int| 0 <= i < final(current)@.len() ==> (#[trigger] final(current)@[i]).wf(),
{
    if current.len() != target.len() {
        let mut copy: Vec<CpuLoad> = Vec::new();
        let mut i: usize = 0;
        while i < target.len()
            invariant
                i <= target@.len(),
                copy@ == target@.take(i as int),
            decreases target@.len() - i,
        {
            copy.push(target[i]);
            proof {
                assert(target@.take(i + 1) =~= target@.take(i as int).push(target@[i as int]));
            }
            i += 1;
        }
        proof {
            assert(target@.take(target@.len() as int) =~= target@);
        }
        *current = copy;
        return;
    }

    let ranked_current = crate::cpuload::sort_loads(current);
    let ranked_target = crate::cpuload::sort_loads(target);
    proof {
        crate::cpuload::lemma_sort_by_total_wf(current@);
        crate::cpuload::lemma_sort_by_total_wf(target@);
    }
    let mut out: Vec<CpuLoad> = Vec::new();
    let n = current.len();
    let mut i: usize = 0;
    while i < n
        invariant
            i <= n,
            n == old(current)@.len(),
            n == target@.len(),
            ranked_current@ == sort_by_total(old(current)@),
            ranked_target@ == sort_by_total(target@),
            ranked_current@.len() == n,
            ranked_target@.len() == n,
            forall|j: int|
                0 <= j < n ==> (#[trigger] ranked_current@[j]).wf() && ranked_target@[j].wf(),
            out@.len() == i,
            forall|j: int|
                0 <= j < i ==> out@[j] == eased_toward(
                    ranked_current@[j],
                    ranked_target@[j],
                    dt_ms as int,
                ),
            forall|j: int| 0 <= j < i ==> (#[trigger] out@[j]).wf(),
        decreases n - i,
    {
        out.push(eased_one(ranked_current[i], ranked_target[i], dt_ms));
        i += 1;
    }
    *current = out;
    proof {
        assert(final(current)@ =~= spec_update_loads(old(current)@, target@, dt_ms as int));
    }
}

} // verus!
