//! Turning the kernel's per-core counter text into [`LoadCounters`].
//!
//! The kernel exposes cumulative per-core tick counters as lines of text:
//! each per-core line starts with a label `cpu` followed by the core number,
//! then space-separated decimal fields `user nice system idle ...`. Reading
//! that text is the host's job; parsing it is verified here. Nice ticks
//! count as user time, and each parsed number wraps at the counter width.

use vstd::prelude::*;

verus! {

use crate::cpuload::{counter_modulus, LoadCounters};

pub open spec fn is_digit(b: u8) -> bool {
    48 <= b <= 57
}

/// The decimal value of the digits of `t` from `i` on, folded left onto
/// `acc`, wrapping at the counter modulus.
pub open spec fn num_from(t: Seq<u8>, i: int, acc: int) -> int
    decreases t.len() - i,
{
    if i < 0 || i >= t.len() {
        acc
    } else {
        num_from(t, i + 1, (acc * 10 + (t[i] - 48)) % counter_modulus())
    }
}

/// The decimal value of a token, wrapping at the counter width.
pub open spec fn token_value(t: Seq<u8>) -> int {
    num_from(t, 0, 0)
}

/// A nonempty run of decimal digits.
pub open spec fn all_digits(t: Seq<u8>) -> bool {
    t.len() > 0 && forall|i: int| 0 <= i < t.len() ==> is_digit(#[trigger] t[i])
}

/// The tokens of `l` from position `i` on, given the partial token `cur`
/// read so far: maximal runs of non-space bytes.
pub open spec fn tokens_from(l: Seq<u8>, i: int, cur: Seq<u8>) -> Seq<Seq<u8>>
    decreases l.len() - i,
{
    if i < 0 || i >= l.len() {
        if cur.len() > 0 {
            seq![cur]
        } else {
            seq![]
        }
    } else if l[i] == 32 {
        (if cur.len() > 0 {
            seq![cur]
        } else {
            seq![]
        }) + tokens_from(l, i + 1, Seq::empty())
    } else {
        tokens_from(l, i + 1, cur.push(l[i]))
    }
}

pub open spec fn tokens(l: Seq<u8>) -> Seq<Seq<u8>> {
    tokens_from(l, 0, Seq::empty())
}

/// A per-core label: `cpu` followed by at least one digit, digits only.
/// The aggregate line, labelled plain `cpu`, is not a core.
pub open spec fn is_cpu_label(t: Seq<u8>) -> bool {
    t.len() > 3 && t[0] == 99 && t[1] == 112 && t[2] == 117 && forall|i: int|
        3 <= i < t.len() ==> is_digit(#[trigger] t[i])
}

/// The counters a line contributes: one entry for a well-formed per-core
/// line (label and at least four numeric fields), none otherwise. User and
/// nice ticks are summed (wrapping) into the user counter.
pub open spec fn line_counters(l: Seq<u8>) -> Seq<LoadCounters> {
    let ts = tokens(l);
    if ts.len() >= 5 && is_cpu_label(ts[0]) && all_digits(ts[1]) && all_digits(ts[2])
        && all_digits(ts[3]) && all_digits(ts[4]) {
        seq![
            LoadCounters {
                user: ((token_value(ts[1]) + token_value(ts[2])) % counter_modulus()) as u64,
                system: token_value(ts[3]) as u64,
                idle: token_value(ts[4]) as u64,
            },
        ]
    } else {
        seq![]
    }
}

/// The counters contributed by the text from `i` on, with `cur` the partial
/// line read so far: lines are separated by newline bytes.
pub open spec fn parse_from(s: Seq<u8>, i: int, cur: Seq<u8>) -> Seq<LoadCounters>
    decreases s.len() - i,
{
    if i < 0 || i >= s.len() {
        line_counters(cur)
    } else if s[i] == 10 {
        line_counters(cur) + parse_from(s, i + 1, Seq::empty())
    } else {
        parse_from(s, i + 1, cur.push(s[i]))
    }
}

/// All per-core counters in a counter text, in line order.
pub open spec fn parse_stat(s: Seq<u8>) -> Seq<LoadCounters> {
    parse_from(s, 0, Seq::empty())
}

spec fn views_of(ts: Seq<Vec<u8>>) -> Seq<Seq<u8>> {
    ts.map_values(|t: Vec<u8>| t@)
}

/// A wrapped accumulator stays below the modulus.
proof fn lemma_num_from_range(t: Seq<u8>, i: int, acc: int)
    requires
        0 <= acc < counter_modulus(),
    ensures
        0 <= num_from(t, i, acc) < counter_modulus(),
    decreases t.len() - i,
{
    if 0 <= i < t.len() {
        vstd::arithmetic::div_mod::lemma_mod_division_less_than_divisor(
            acc * 10 + (t[i] - 48),
            counter_modulus(),
        );
        lemma_num_from_range(t, i + 1, (acc * 10 + (t[i] - 48)) % counter_modulus());
    }
}

fn token_value_exec(t: &Vec<u8>) -> (v: u64)
    requires
        all_digits(t@),
    ensures
        v == token_value(t@),
{
    let mut acc: u64 = 0;
    let mut i: usize = 0;
    while i < t.len()
        invariant
            all_digits(t@),
            i <= t@.len(),
            token_value(t@) == num_from(t@, i as int, acc as int),
        decreases t@.len() - i,
    {
        let b = t[i];
        proof {
            vstd::arithmetic::div_mod::lemma_mod_division_less_than_divisor(
                acc as int * 10 + (b - 48),
                counter_modulus(),
            );
        }
        acc = ((acc as u128 * 10 + (b - 48) as u128) % 0x1_0000_0000_0000_0000u128) as u64;
        i += 1;
    }
    acc
}

fn is_cpu_label_exec(t: &Vec<u8>) -> (r: bool)
    ensures
        r == is_cpu_label(t@),
{
    if t.len() <= 3 {
        return false;
    }
    if !(t[0] == 99 && t[1] == 112 && t[2] == 117) {
        return false;
    }
    let mut i: usize = 3;
    while i < t.len()
        invariant
            3 <= i <= t@.len(),
            forall|j: int| 3 <= j < i ==> is_digit(#[trigger] t@[j]),
        decreases t@.len() - i,
    {
        let b = t[i];
        if b < 48 || b > 57 {
            return false;
        }
        i += 1;
    }
    true
}

fn all_digits_exec(t: &Vec<u8>) -> (r: bool)
    ensures
        r == all_digits(t@),
{
    if t.len() == 0 {
        return false;
    }
    let mut i: usize = 0;
    while i < t.len()
        invariant
            i <= t@.len(),
            forall|j: int| 0 <= j < i ==> is_digit(#[trigger] t@[j]),
        decreases t@.len() - i,
    {
        let b = t[i];
        if b < 48 || b > 57 {
            return false;
        }
        i += 1;
    }
    true
}

fn line_counters_exec(line: &Vec<u8>) -> (r: Vec<LoadCounters>)
    ensures
        r@ == line_counters(line@),
{
    let ghost l = line@;
    let mut ts: Vec<Vec<u8>> = Vec::new();
    let mut cur: Vec<u8> = Vec::new();
    let mut i: usize = 0;
    while i < line.len()
        invariant
            i <= l.len(),
            l == line@,
            tokens(l) == views_of(ts@) + tokens_from(l, i as int, cur@),
        decreases l.len() - i,
    {
        let ghost ts_old = views_of(ts@);
        let ghost cur_old = cur@;
        let b = line[i];
        if b == 32 {
            if cur.len() > 0 {
                ts.push(cur);
                cur = Vec::new();
                proof {
                    assert(views_of(ts@) =~= ts_old + seq![cur_old]);
                    assert((ts_old + seq![cur_old]) + tokens_from(l, i + 1, Seq::empty())
                        =~= ts_old + (seq![cur_old] + tokens_from(l, i + 1, Seq::empty())));
                }
            } else {
                proof {
                    assert(cur@ =~= Seq::<u8>::empty());
                    assert(ts_old + (Seq::<Seq<u8>>::empty() + tokens_from(l, i + 1, Seq::empty()))
                        =~= ts_old + tokens_from(l, i + 1, Seq::empty()));
                    assert(seq![] + tokens_from(l, i + 1, Seq::<u8>::empty()) =~= tokens_from(
                        l,
                        i + 1,
                        Seq::<u8>::empty(),
                    ));
                }
            }
        } else {
            cur.push(b);
        }
        i += 1;
    }
    if cur.len() > 0 {
        let ghost ts_old = views_of(ts@);
        let ghost cur_old = cur@;
        ts.push(cur);
        proof {
            assert(views_of(ts@) =~= ts_old + seq![cur_old]);
        }
    }
    proof {
        assert(tokens(l) =~= views_of(ts@));
    }
    let mut r: Vec<LoadCounters> = Vec::new();
    if ts.len() >= 5 && is_cpu_label_exec(&ts[0]) && all_digits_exec(&ts[1]) && all_digits_exec(
        &ts[2],
    ) && all_digits_exec(&ts[3]) && all_digits_exec(&ts[4]) {
        proof {
            assert(views_of(ts@)[0] == ts@[0]@);
            assert(views_of(ts@)[1] == ts@[1]@);
            assert(views_of(ts@)[2] == ts@[2]@);
            assert(views_of(ts@)[3] == ts@[3]@);
            assert(views_of(ts@)[4] == ts@[4]@);
            lemma_num_from_range(ts@[1]@, 0, 0);
            lemma_num_from_range(ts@[2]@, 0, 0);
            lemma_num_from_range(ts@[3]@, 0, 0);
            lemma_num_from_range(ts@[4]@, 0, 0);
            vstd::arithmetic::div_mod::lemma_mod_division_less_than_divisor(
                token_value(ts@[1]@) + token_value(ts@[2]@),
                counter_modulus(),
            );
            vstd::arithmetic::div_mod::lemma_div_of0(counter_modulus());
            vstd::arithmetic::div_mod::lemma_div_is_ordered(
                0,
                token_value(ts@[1]@) + token_value(ts@[2]@),
                counter_modulus(),
            );
        }
        let user_ticks = token_value_exec(&ts[1]);
        let nice_ticks = token_value_exec(&ts[2]);
        let system_ticks = token_value_exec(&ts[3]);
        let idle_ticks = token_value_exec(&ts[4]);
        let user = ((user_ticks as u128 + nice_ticks as u128)
            % 0x1_0000_0000_0000_0000u128) as u64;
        r.push(LoadCounters { user, system: system_ticks, idle: idle_ticks });
        proof {
            assert(r@ =~= line_counters(line@));
        }
    }
    r
}

/// Parse a per-core counter snapshot out of the kernel's counter text (the
/// host reads the text, one label and its fields per line, and calls this).
/// Each well-formed per-core line yields one `LoadCounters`, in line order;
/// malformed or unrelated lines contribute nothing.
pub fn get_load_counters(stat_text: &Vec<u8>) -> (counters: Vec<LoadCounters>)
    ensures
        counters@ == parse_stat(stat_text@),
{
    let ghost s = stat_text@;
    let mut out: Vec<LoadCounters> = Vec::new();
    let mut cur: Vec<u8> = Vec::new();
    let mut i: usize = 0;
    while i < stat_text.len()
        invariant
            i <= s.len(),
            s == stat_text@,
            parse_stat(s) == out@ + parse_from(s, i as int, cur@),
        decreases s.len() - i,
    {
        let ghost out_old = out@;
        let ghost cur_old = cur@;
        let b = stat_text[i];
        if b == 10 {
            let mut lc = line_counters_exec(&cur);
            out.append(&mut lc);
            cur = Vec::new();
            proof {
                assert((out_old + line_counters(cur_old)) + parse_from(s, i + 1, Seq::empty())
                    =~= out_old + (line_counters(cur_old) + parse_from(s, i + 1, Seq::empty())));
            }
        } else {
            cur.push(b);
        }
        i += 1;
    }
    let mut lc = line_counters_exec(&cur);
    out.append(&mut lc);
    out
}

} // verus!
