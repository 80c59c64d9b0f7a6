//! Per-core load measurements: raw kernel counters, normalized fixed-point
//! loads, wraparound-safe differencing, and the total-load ordering used to
//! rank cores.

use vstd::prelude::*;

verus! {

use vstd::arithmetic::div_mod::{
    lemma_div_is_ordered, lemma_div_multiples_vanish, lemma_div_of0,
    lemma_fundamental_div_mod, lemma_mod_add_multiples_vanish, lemma_mod_multiples_vanish,
    lemma_small_mod,
};
use vstd::arithmetic::mul::lemma_mul_inequality;

/// A load fraction of 1.0 (a fully busy core) is stored as `LOAD_SCALE`;
/// half load is `LOAD_SCALE / 2`, and so on.
pub const LOAD_SCALE: u64 = 60000;

/// The modulus at which the kernel's cumulative tick counters wrap.
pub open spec fn counter_modulus() -> int {
    0x1_0000_0000_0000_0000
}

/// Raw cumulative per-core counters as reported by the kernel. Each counts
/// ticks spent in that category since boot and wraps at the counter width.
#[derive(Clone, Copy, Debug, PartialEq, Eq, Structural)]
pub struct LoadCounters {
    pub user: u64,
    pub system: u64,
    /// CPU time not used for anything.
    pub idle: u64,
}

/// One core's normalized load over the last sampling interval. Both fields
/// are fixed-point fractions of [`LOAD_SCALE`]; the remainder is idle time.
#[derive(Clone, Copy, Debug, PartialEq, Eq, Structural)]
pub struct CpuLoad {
    pub user_scaled: u64,
    pub system_scaled: u64,
}

impl CpuLoad {
    /// Both fractions are genuine fractions: together they never exceed 1.0.
    pub open spec fn wf(self) -> bool {
        self.user_scaled + self.system_scaled <= LOAD_SCALE
    }

    /// Total (user plus system) load, the key cores are ranked by.
    pub open spec fn spec_total(self) -> int {
        self.user_scaled + self.system_scaled
    }
}

pub open spec fn zero_load() -> CpuLoad {
    CpuLoad { user_scaled: 0, system_scaled: 0 }
}

/// How far a wrapping counter moved from `older` to `newer`.
pub open spec fn wrapped_delta(older: u64, newer: u64) -> int {
    (newer - older) % counter_modulus()
}

/// `part / total` as a fixed-point fraction of `LOAD_SCALE`, rounded down.
pub open spec fn frac_scaled(part: int, total: int) -> int {
    part * LOAD_SCALE / total
}

/// The normalized load of one core given two snapshots of its counters.
/// An interval with zero total ticks carries no information and yields a
/// zero load instead of a division by zero.
pub open spec fn diff_one(older: LoadCounters, newer: LoadCounters) -> CpuLoad {
    let du = wrapped_delta(older.user, newer.user);
    let ds = wrapped_delta(older.system, newer.system);
    let di = wrapped_delta(older.idle, newer.idle);
    let total = du + ds + di;
    if total == 0 {
        zero_load()
    } else {
        CpuLoad {
            user_scaled: frac_scaled(du, total) as u64,
            system_scaled: frac_scaled(ds, total) as u64,
        }
    }
}

/// The full diff of two snapshots: one normalized load per core of the newer
/// snapshot, all zero when the core counts disagree (startup, hotplug).
pub open spec fn diff_spec(older: Seq<LoadCounters>, newer: Seq<LoadCounters>) -> Seq<CpuLoad> {
    if older.len() != newer.len() {
        Seq::new(newer.len(), |i: int| zero_load())
    } else {
        Seq::new(newer.len(), |i: int| diff_one(older[i], newer[i]))
    }
}

/// A scaled fraction of a nonnegative part of a total stays within the scale.
pub proof fn lemma_frac_scaled_bounds(part: int, total: int)
    requires
        0 <= part <= total,
        0 < total,
    ensures
        0 <= frac_scaled(part, total) <= LOAD_SCALE,
{
    lemma_mul_inequality(part, total, LOAD_SCALE as int);
    lemma_div_is_ordered(part * LOAD_SCALE, total * LOAD_SCALE, total);
    lemma_div_multiples_vanish(LOAD_SCALE as int, total);
    lemma_div_of0(total);
    lemma_div_is_ordered(0, part * LOAD_SCALE, total);
}

/// Rounding down each share separately never makes the shares sum past the
/// rounded-down share of their sum.
pub proof fn lemma_floor_div_sum(a: int, b: int, d: int)
    requires
        0 <= a,
        0 <= b,
        0 < d,
    ensures
        a / d + b / d <= (a + b) / d,
{
    lemma_fundamental_div_mod(a, d);
    lemma_fundamental_div_mod(b, d);
    assert(d * (a / d + b / d) <= a + b) by {
        assert(d * (a / d + b / d) == d * (a / d) + d * (b / d)) by (nonlinear_arith);
    };
    lemma_div_is_ordered(d * (a / d + b / d), a + b, d);
    lemma_div_multiples_vanish(a / d + b / d, d);
}

/// Two scaled fractions of disjoint parts of one total fit in the scale
/// together: a diffed load is always well formed.
pub proof fn lemma_frac_scaled_sum(a: int, b: int, total: int)
    requires
        0 <= a,
        0 <= b,
        a + b <= total,
        0 < total,
    ensures
        frac_scaled(a, total) + frac_scaled(b, total) <= LOAD_SCALE,
{
    lemma_floor_div_sum(a * LOAD_SCALE, b * LOAD_SCALE, total);
    assert((a + b) * LOAD_SCALE == a * LOAD_SCALE + b * LOAD_SCALE) by (nonlinear_arith);
    lemma_frac_scaled_bounds(a + b, total);
}

proof fn lemma_diff_one_wf(older: LoadCounters, newer: LoadCounters)
    ensures
        diff_one(older, newer).wf(),
        0 <= diff_one(older, newer).user_scaled <= LOAD_SCALE,
        0 <= diff_one(older, newer).system_scaled <= LOAD_SCALE,
{
    let du = wrapped_delta(older.user, newer.user);
    let ds = wrapped_delta(older.system, newer.system);
    let di = wrapped_delta(older.idle, newer.idle);
    let total = du + ds + di;
    if total != 0 {
        lemma_frac_scaled_bounds(du, total);
        lemma_frac_scaled_bounds(ds, total);
        lemma_frac_scaled_sum(du, ds, total);
    }
}

/// The delta of one wrapping counter, correct also when the counter wrapped
/// past its maximum between the two snapshots.
fn counter_delta(older: u64, newer: u64) -> (d: u64)
    ensures
        d == wrapped_delta(older, newer),
{
    if newer >= older {
        proof {
            lemma_small_mod((newer - older) as nat, counter_modulus() as nat);
        }
        newer - older
    } else {
        proof {
            lemma_mod_add_multiples_vanish(newer - older, counter_modulus());
            lemma_small_mod((newer - older + counter_modulus()) as nat, counter_modulus() as nat);
        }
        (u64::MAX - older) + newer + 1
    }
}

/// Based on two CPU counter snapshots, compute the normalized load of each
/// core.
///
/// If the number of cores changed between the snapshots, return the right
/// number of cores, but all with a load of zero: this keeps the renderer
/// non-empty on startup and across CPU hotplug.
pub fn diff(older: &Vec<LoadCounters>, newer: &Vec<LoadCounters>) -> (loads: Vec<CpuLoad>)
    ensures
        loads@ == diff_spec(older@, newer@),
        forall|i: int| 0 <= i < loads@.len() ==> (#[trigger] loads@[i]).wf(),
{
    let mut result: Vec<CpuLoad> = Vec::new();
    if older.len() != newer.len() {
        let mut k: usize = 0;
        while k < newer.len()
            invariant
                k <= newer@.len(),
                result@.len() == k,
                forall|i: int| 0 <= i < k ==> result@[i] == zero_load(),
            decreases newer@.len() - k,
        {
            result.push(CpuLoad { user_scaled: 0, system_scaled: 0 });
            k += 1;
        }
        proof {
            assert(result@ =~= diff_spec(older@, newer@));
        }
        return result;
    }

    let mut k: usize = 0;
    while k < newer.len()
        invariant
            older@.len() == newer@.len(),
            k <= newer@.len(),
            result@.len() == k,
            forall|i: int| 0 <= i < k ==> result@[i] == diff_one(older@[i], newer@[i]),
            forall|i: int| 0 <= i < k ==> (#[trigger] result@[i]).wf(),
        decreases newer@.len() - k,
    {
        let du = counter_delta(older[k].user, newer[k].user);
        let ds = counter_delta(older[k].system, newer[k].system);
        let di = counter_delta(older[k].idle, newer[k].idle);
        let total: u128 = du as u128 + ds as u128 + di as u128;
        proof {
            lemma_diff_one_wf(older@[k as int], newer@[k as int]);
        }
        if total == 0 {
            result.push(CpuLoad { user_scaled: 0, system_scaled: 0 });
        } else {
            proof {
                lemma_frac_scaled_bounds(du as int, total as int);
                lemma_frac_scaled_bounds(ds as int, total as int);
            }
            let user = (du as u128 * LOAD_SCALE as u128 / total) as u64;
            let system = (ds as u128 * LOAD_SCALE as u128 / total) as u64;
            result.push(CpuLoad { user_scaled: user, system_scaled: system });
        }
        k += 1;
    }
    proof {
        assert(result@ =~= diff_spec(older@, newer@));
    }
    result
}

/// Advancing a counter by `d` yields delta `d`, also when the counter wraps:
/// a wrapped counter produces the same small positive delta as an ordinary
/// increment of the same size.
pub proof fn lemma_wrapped_delta_of_advance(older: u64, d: u64)
    ensures
        wrapped_delta(older, ((older + d) % counter_modulus()) as u64) == d,
{
    let m = counter_modulus();
    let n = (older + d) % m;
    lemma_fundamental_div_mod(older + d, m);
    let q = (older + d) / m;
    assert(n - older == d + (-q) * m) by (nonlinear_arith)
        requires
            n == older + d - m * q,
    ;
    lemma_mod_multiples_vanish(-q, d as int, m);
    lemma_small_mod(d as nat, m as nat);
}

/// Ranking relation between cores: ordered by total load.
pub open spec fn le_total(a: CpuLoad, b: CpuLoad) -> bool {
    a.spec_total() <= b.spec_total()
}

pub open spec fn sorted_by_total(s: Seq<CpuLoad>) -> bool {
    forall|i: int, j: int| 0 <= i <= j < s.len() ==> le_total(#[trigger] s[i], #[trigger] s[j])
}

/// `x` inserted in front of the first element it does not exceed.
pub open spec fn insert_by_total(x: CpuLoad, s: Seq<CpuLoad>) -> Seq<CpuLoad>
    decreases s.len(),
{
    if s.len() == 0 {
        seq![x]
    } else if le_total(x, s[0]) {
        seq![x] + s
    } else {
        seq![s[0]] + insert_by_total(x, s.drop_first())
    }
}

/// Insertion sort by total load. This is the ranking order shared by the
/// easing physics and the renderer's mirror layout.
pub open spec fn sort_by_total(s: Seq<CpuLoad>) -> Seq<CpuLoad>
    decreases s.len(),
{
    if s.len() == 0 {
        Seq::empty()
    } else {
        insert_by_total(s.last(), sort_by_total(s.drop_last()))
    }
}

proof fn lemma_insert_by_total_len(x: CpuLoad, s: Seq<CpuLoad>)
    ensures
        insert_by_total(x, s).len() == s.len() + 1,
    decreases s.len(),
{
    if s.len() != 0 && !le_total(x, s[0]) {
        lemma_insert_by_total_len(x, s.drop_first());
    }
}

/// Sorting keeps the number of cores.
pub proof fn lemma_sort_by_total_len(s: Seq<CpuLoad>)
    ensures
        sort_by_total(s).len() == s.len(),
    decreases s.len(),
{
    if s.len() != 0 {
        lemma_sort_by_total_len(s.drop_last());
        lemma_insert_by_total_len(s.last(), sort_by_total(s.drop_last()));
    }
}

proof fn lemma_insert_by_total_elems(x: CpuLoad, s: Seq<CpuLoad>)
    ensures
        forall|k: int|
            0 <= k < insert_by_total(x, s).len() ==> (#[trigger] insert_by_total(x, s)[k] == x
                || s.contains(insert_by_total(x, s)[k])),
    decreases s.len(),
{
    lemma_insert_by_total_len(x, s);
    if s.len() != 0 && !le_total(x, s[0]) {
        lemma_insert_by_total_elems(x, s.drop_first());
        assert forall|k: int| 0 <= k < insert_by_total(x, s).len() implies (#[trigger] insert_by_total(
            x,
            s,
        )[k] == x || s.contains(insert_by_total(x, s)[k])) by {
            let r = insert_by_total(x, s);
            if k == 0 {
                assert(s[0] == r[0]);
                assert(s.contains(s[0]));
            } else {
                let e = r[k];
                assert(e == insert_by_total(x, s.drop_first())[k - 1]);
                if e != x {
                    let rest = s.drop_first();
                    assert(rest.contains(e));
                    let j = choose|j: int| 0 <= j < rest.len() && rest[j] == e;
                    assert(s[j + 1] == e);
                }
            }
        };
    }
}

/// Inserting into a ranked sequence keeps it ranked.
pub proof fn lemma_insert_by_total_sorted(x: CpuLoad, s: Seq<CpuLoad>)
    requires
        sorted_by_total(s),
    ensures
        sorted_by_total(insert_by_total(x, s)),
    decreases s.len(),
{
    lemma_insert_by_total_len(x, s);
    if s.len() != 0 && !le_total(x, s[0]) {
        let rest = s.drop_first();
        assert(sorted_by_total(rest)) by {
            assert forall|i: int, j: int| 0 <= i <= j < rest.len() implies le_total(
                #[trigger] rest[i],
                #[trigger] rest[j],
            ) by {
                assert(rest[i] == s[i + 1] && rest[j] == s[j + 1]);
            };
        };
        lemma_insert_by_total_sorted(x, rest);
        lemma_insert_by_total_elems(x, rest);
        let r = insert_by_total(x, s);
        let ri = insert_by_total(x, rest);
        assert forall|i: int, j: int| 0 <= i <= j < r.len() implies le_total(
            #[trigger] r[i],
            #[trigger] r[j],
        ) by {
            if i == 0 && j > 0 {
                let e = ri[j - 1];
                assert(r[j] == e);
                if e == x {
                } else {
                    assert(rest.contains(e));
                    let m = choose|m: int| 0 <= m < rest.len() && rest[m] == e;
                    assert(le_total(s[0], s[m + 1]));
                }
            } else if i > 0 {
                assert(r[i] == ri[i - 1] && r[j] == ri[j - 1]);
            }
        };
    }
}

/// The sorted sequence is ranked ascending by total load.
pub proof fn lemma_sort_by_total_sorted(s: Seq<CpuLoad>)
    ensures
        sorted_by_total(sort_by_total(s)),
    decreases s.len(),
{
    if s.len() != 0 {
        lemma_sort_by_total_sorted(s.drop_last());
        lemma_insert_by_total_sorted(s.last(), sort_by_total(s.drop_last()));
    }
}

proof fn lemma_insert_by_total_multiset(x: CpuLoad, s: Seq<CpuLoad>)
    ensures
        insert_by_total(x, s).to_multiset() == s.to_multiset().insert(x),
    decreases s.len(),
{
    broadcast use vstd::seq_lib::group_to_multiset_ensures;

    if s.len() == 0 {
        assert(seq![x] =~= Seq::empty().push(x));
        assert(Seq::<CpuLoad>::empty().push(x).to_multiset() == Seq::<
            CpuLoad,
        >::empty().to_multiset().insert(x));
    } else if le_total(x, s[0]) {
        assert(seq![x] + s =~= s.insert(0, x));
    } else {
        let rest = s.drop_first();
        lemma_insert_by_total_multiset(x, rest);
        assert(seq![s[0]] + insert_by_total(x, rest) =~= insert_by_total(x, rest).insert(
            0,
            s[0],
        ));
        assert(seq![s[0]] + rest =~= s);
        assert(rest.insert(0, s[0]) =~= s);
        assert(s.to_multiset() == rest.to_multiset().insert(s[0]));
        assert(s.to_multiset().insert(x) == rest.to_multiset().insert(s[0]).insert(x));
        assert(rest.to_multiset().insert(x).insert(s[0]) =~= rest.to_multiset().insert(
            s[0],
        ).insert(x)) by {
            broadcast use vstd::multiset::group_multiset_axioms;

        };
    }
}

/// Sorting permutes the cores: the same loads come out that went in.
pub proof fn lemma_sort_by_total_multiset(s: Seq<CpuLoad>)
    ensures
        sort_by_total(s).to_multiset() == s.to_multiset(),
    decreases s.len(),
{
    broadcast use vstd::seq_lib::group_to_multiset_ensures;

    if s.len() != 0 {
        lemma_sort_by_total_multiset(s.drop_last());
        lemma_insert_by_total_multiset(s.last(), sort_by_total(s.drop_last()));
        assert(s =~= s.drop_last().push(s.last()));
        assert(s.drop_last().push(s.last()).to_multiset() == s.drop_last().to_multiset().insert(
            s.last(),
        ));
    }
}

/// Every element of the sorted sequence occurs in the input, so element-wise
/// facts (such as well-formedness) survive sorting.
pub proof fn lemma_sort_by_total_wf(s: Seq<CpuLoad>)
    requires
        forall|i: int| 0 <= i < s.len() ==> (#[trigger] s[i]).wf(),
    ensures
        sort_by_total(s).len() == s.len(),
        forall|i: int| 0 <= i < s.len() ==> (#[trigger] sort_by_total(s)[i]).wf(),
{
    broadcast use vstd::seq_lib::group_to_multiset_ensures;

    lemma_sort_by_total_len(s);
    lemma_sort_by_total_multiset(s);
    let r = sort_by_total(s);
    assert forall|i: int| 0 <= i < s.len() implies (#[trigger] r[i]).wf() by {
        assert(r.to_multiset().contains(r[i]));
        assert(s.to_multiset().contains(r[i]));
        assert(s.contains(r[i]));
        let j = choose|j: int| 0 <= j < s.len() && s[j] == r[i];
        assert(s[j].wf());
    };
}

proof fn lemma_insert_by_total_at_index(x: CpuLoad, s: Seq<CpuLoad>, j: int)
    requires
        0 <= j <= s.len(),
        forall|k: int| 0 <= k < j ==> !le_total(x, #[trigger] s[k]),
        j < s.len() ==> le_total(x, s[j]),
    ensures
        insert_by_total(x, s) == s.insert(j, x),
    decreases s.len(),
{
    if s.len() == 0 {
        assert(seq![x] =~= s.insert(0, x));
    } else if j == 0 {
        assert(seq![x] + s =~= s.insert(0, x));
    } else {
        let rest = s.drop_first();
        lemma_insert_by_total_at_index(x, rest, j - 1);
        assert(seq![s[0]] + rest.insert(j - 1, x) =~= s.insert(j, x));
    }
}

/// Exec counterpart of the ranking key, safe for any counter values.
fn total_of(a: &CpuLoad) -> (t: u128)
    ensures
        t == a.spec_total(),
{
    a.user_scaled as u128 + a.system_scaled as u128
}

fn insert_load(s: Vec<CpuLoad>, x: CpuLoad) -> (r: Vec<CpuLoad>)
    ensures
        r@ == insert_by_total(x, s@),
{
    let mut s = s;
    let mut j: usize = 0;
    while j < s.len() && total_of(&s[j]) < total_of(&x)
        invariant
            j <= s@.len(),
            forall|k: int| 0 <= k < j ==> !le_total(x, #[trigger] s@[k]),
        decreases s@.len() - j,
    {
        j += 1;
    }
    proof {
        lemma_insert_by_total_at_index(x, s@, j as int);
    }
    s.insert(j, x);
    s
}

/// Sort a load vector ascending by total load.
pub fn sort_loads(v: &Vec<CpuLoad>) -> (r: Vec<CpuLoad>)
    ensures
        r@ == sort_by_total(v@),
{
    let mut out: Vec<CpuLoad> = Vec::new();
    let mut i: usize = 0;
    while i < v.len()
        invariant
            i <= v@.len(),
            out@ == sort_by_total(v@.take(i as int)),
        decreases v@.len() - i,
    {
        out = insert_load(out, v[i]);
        proof {
            assert(v@.take(i + 1).drop_last() =~= v@.take(i as int));
            assert(v@.take(i + 1).last() == v@[i as int]);
        }
        i += 1;
    }
    proof {
        assert(v@.take(v@.len() as int) =~= v@);
    }
    out
}

} // verus!
