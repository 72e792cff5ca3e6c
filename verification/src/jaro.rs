//! Integer-exact implementations of the Jaro, Jaro-Winkler and
//! Sørensen-Dice similarities over comparison keys, as fixed-point
//! fractions of [`SCALE`].  The matching step pairs each element of the
//! target greedily with the first unused equal element of the candidate
//! inside a bounded window; the executable code mirrors the specification
//! recursion step for step.

use crate::candidate::SCALE;
use crate::text::{is_ws, ws_char};
use vstd::arithmetic::div_mod::{lemma_div_is_ordered, lemma_div_multiples_vanish, lemma_div_pos_is_pos};
use vstd::arithmetic::mul::{lemma_mul_inequality, lemma_mul_nonnegative};
use vstd::prelude::*;

verus! {

/// Jaro similarities above this fixed-point value get the Winkler
/// common-prefix boost.
pub const JW_BOOST_FLOOR: u32 = 700000;

/// A flag sequence of length `n`, all clear.
pub open spec fn false_seq(n: int) -> Seq<bool> {
    Seq::new(n as nat, |i: int| false)
}

/// First index in `[lo, hi)` that holds an unused occurrence of `c`, or
/// `-1` when there is none.
pub open spec fn ffm<T>(b: Seq<T>, used: Seq<bool>, c: T, lo: int, hi: int) -> int
    decreases hi - lo,
{
    if lo < 0 || lo >= hi || lo >= b.len() || lo >= used.len() {
        -1
    } else if !used[lo] && b[lo] == c {
        lo
    } else {
        ffm(b, used, c, lo + 1, hi)
    }
}

pub proof fn lemma_ffm_props<T>(b: Seq<T>, used: Seq<bool>, c: T, lo: int, hi: int)
    ensures
        ffm(b, used, c, lo, hi) == -1 || {
            let j = ffm(b, used, c, lo, hi);
            &&& lo <= j < hi
            &&& 0 <= j < b.len()
            &&& j < used.len()
            &&& !used[j]
            &&& b[j] == c
        },
    decreases hi - lo,
{
    if !(lo < 0 || lo >= hi || lo >= b.len() || lo >= used.len()) && !(!used[lo] && b[lo] == c) {
        lemma_ffm_props(b, used, c, lo + 1, hi);
    }
}

/// Greedy matching from position `i` on: for each element of `a` the
/// first unused equal element of `b` inside the window is claimed.
/// Returns the matched elements of `a` in order, and the final flags
/// over `b`.
pub open spec fn jmatch<T>(a: Seq<T>, b: Seq<T>, rng: int, i: int, used: Seq<bool>) -> (Seq<T>,
    Seq<bool>)
    decreases a.len() - i,
{
    if i < 0 || i >= a.len() {
        (Seq::empty(), used)
    } else {
        let lo = if i > rng {
            i - rng
        } else {
            0
        };
        let hi = if i + rng + 1 < b.len() {
            i + rng + 1
        } else {
            b.len() as int
        };
        let j = ffm(b, used, a[i], lo, hi);
        if j >= 0 {
            let rest = jmatch(a, b, rng, i + 1, used.update(j, true));
            (seq![a[i]] + rest.0, rest.1)
        } else {
            jmatch(a, b, rng, i + 1, used)
        }
    }
}

/// Number of set flags from position `j` on.
pub open spec fn count_true(s: Seq<bool>, j: int) -> int
    decreases s.len() - j,
{
    if j < 0 || j >= s.len() {
        0
    } else {
        (if s[j] {
            1int
        } else {
            0
        }) + count_true(s, j + 1)
    }
}

proof fn lemma_count_true_le(s: Seq<bool>, j: int)
    ensures
        0 <= count_true(s, j),
        count_true(s, j) <= s.len(),
        0 <= j <= s.len() ==> count_true(s, j) <= s.len() - j,
    decreases s.len() - j,
{
    if !(j < 0 || j >= s.len()) {
        lemma_count_true_le(s, j + 1);
    }
}

proof fn lemma_count_true_false_seq(n: int, j: int)
    requires
        0 <= n,
    ensures
        count_true(false_seq(n), j) == 0,
    decreases n - j,
{
    assert(false_seq(n).len() == n);
    if !(j < 0 || j >= n) {
        lemma_count_true_false_seq(n, j + 1);
    }
}

proof fn lemma_count_true_update(s: Seq<bool>, k: int, j: int)
    requires
        0 <= k < s.len(),
        !s[k],
        0 <= j,
    ensures
        count_true(s.update(k, true), j) == count_true(s, j) + if j <= k {
            1int
        } else {
            0
        },
    decreases s.len() - j,
{
    if !(j >= s.len()) {
        lemma_count_true_update(s, k, j + 1);
    }
}

pub proof fn lemma_jmatch_props<T>(a: Seq<T>, b: Seq<T>, rng: int, i: int, used: Seq<bool>)
    requires
        used.len() == b.len(),
        0 <= i <= a.len(),
    ensures
        ({
            let r = jmatch(a, b, rng, i, used);
            &&& r.1.len() == b.len()
            &&& r.0.len() + count_true(used, 0) == count_true(r.1, 0)
            &&& r.0.len() <= a.len() - i
            &&& r.0.len() >= 0
        }),
    decreases a.len() - i,
{
    if i < a.len() {
        let lo = if i > rng {
            i - rng
        } else {
            0
        };
        let hi = if i + rng + 1 < b.len() {
            i + rng + 1
        } else {
            b.len() as int
        };
        let j = ffm(b, used, a[i], lo, hi);
        lemma_ffm_props(b, used, a[i], lo, hi);
        if j >= 0 {
            lemma_count_true_update(used, j, 0);
            lemma_jmatch_props(a, b, rng, i + 1, used.update(j, true));
        } else {
            lemma_jmatch_props(a, b, rng, i + 1, used);
        }
    }
}

/// The number of matched elements never exceeds either length.
pub proof fn lemma_jmatch_counts<T>(a: Seq<T>, b: Seq<T>, rng: int)
    ensures
        ({
            let r = jmatch(a, b, rng, 0, false_seq(b.len() as int));
            &&& 0 <= r.0.len() <= a.len()
            &&& r.0.len() <= b.len()
            &&& r.1.len() == b.len()
        }),
{
    let used = false_seq(b.len() as int);
    lemma_count_true_false_seq(b.len() as int, 0);
    lemma_jmatch_props(a, b, rng, 0, used);
    let r = jmatch(a, b, rng, 0, used);
    lemma_count_true_le(r.1, 0);
}

/// The flagged elements of `b`, in index order, from position `j` on.
pub open spec fn bmc<T>(b: Seq<T>, used: Seq<bool>, j: int) -> Seq<T>
    decreases b.len() - j,
{
    if j < 0 || j >= b.len() || j >= used.len() {
        Seq::empty()
    } else if used[j] {
        seq![b[j]] + bmc(b, used, j + 1)
    } else {
        bmc(b, used, j + 1)
    }
}

/// Positions where two sequences disagree, up to the shorter length.
pub open spec fn diff_cnt<T>(x: Seq<T>, y: Seq<T>, i: int) -> int
    decreases x.len() - i,
{
    if i < 0 || i >= x.len() || i >= y.len() {
        0
    } else {
        (if x[i] == y[i] {
            0int
        } else {
            1
        }) + diff_cnt(x, y, i + 1)
    }
}

pub proof fn lemma_diff_cnt_le<T>(x: Seq<T>, y: Seq<T>, i: int)
    ensures
        0 <= diff_cnt(x, y, i),
        diff_cnt(x, y, i) <= x.len(),
        0 <= i ==> diff_cnt(x, y, i) <= x.len() - i || x.len() < i,
    decreases x.len() - i,
{
    if !(i < 0 || i >= x.len() || i >= y.len()) {
        lemma_diff_cnt_le(x, y, i + 1);
    }
}

/// The Jaro matching window: half the longer length, less one.
pub open spec fn jaro_range(al: int, bl: int) -> int {
    let mx = if al >= bl {
        al
    } else {
        bl
    };
    if mx / 2 >= 1 {
        mx / 2 - 1
    } else {
        0
    }
}

/// The Jaro similarity as a fixed-point fraction of [`SCALE`]: the mean
/// of the matched share of each string and the share of matches in
/// order, zero when nothing matches, [`SCALE`] when both are empty.
pub open spec fn jaro_ppm(a: Seq<char>, b: Seq<char>) -> int {
    if a.len() == 0 && b.len() == 0 {
        SCALE as int
    } else if a.len() == 0 || b.len() == 0 {
        0
    } else {
        let r = jmatch(a, b, jaro_range(a.len() as int, b.len() as int), 0, false_seq(
            b.len() as int,
        ));
        let m = r.0.len() as int;
        if m == 0 {
            0
        } else {
            let x = diff_cnt(r.0, bmc(b, r.1, 0), 0);
            let t = x / 2;
            (m * (SCALE as int) / (a.len() as int) + m * (SCALE as int) / (b.len() as int) + (m
                - t) * (SCALE as int) / m) / 3
        }
    }
}

/// Length of the common prefix of `a` and `b` from `i`, capped at `limit`.
pub open spec fn common_prefix(a: Seq<char>, b: Seq<char>, i: int, limit: int) -> int
    decreases limit - i,
{
    if i < 0 || i >= limit || i >= a.len() || i >= b.len() {
        0
    } else if a[i] == b[i] {
        1 + common_prefix(a, b, i + 1, limit)
    } else {
        0
    }
}

proof fn lemma_common_prefix_le(a: Seq<char>, b: Seq<char>, i: int, limit: int)
    ensures
        0 <= common_prefix(a, b, i, limit),
        0 <= i ==> common_prefix(a, b, i, limit) <= limit - i || limit < i,
    decreases limit - i,
{
    if !(i < 0 || i >= limit || i >= a.len() || i >= b.len()) {
        lemma_common_prefix_le(a, b, i + 1, limit);
    }
}

/// Jaro-Winkler: Jaro, boosted towards [`SCALE`] by a tenth per shared
/// prefix character (at most four) when Jaro clears the boost floor.
pub open spec fn jaro_winkler_ppm(a: Seq<char>, b: Seq<char>) -> int {
    let j = jaro_ppm(a, b);
    if j > JW_BOOST_FLOOR {
        j + common_prefix(a, b, 0, 4) * ((SCALE as int) - j) / 10
    } else {
        j
    }
}

/// The sequence with its whitespace removed, from position `i` on.
pub open spec fn fil_ws(s: Seq<char>, i: int) -> Seq<char>
    decreases s.len() - i,
{
    if i < 0 || i >= s.len() {
        Seq::empty()
    } else if is_ws(s[i]) {
        fil_ws(s, i + 1)
    } else {
        seq![s[i]] + fil_ws(s, i + 1)
    }
}

/// Adjacent character pairs.
pub open spec fn bigrams(s: Seq<char>) -> Seq<(char, char)> {
    if s.len() < 2 {
        Seq::empty()
    } else {
        Seq::new((s.len() - 1) as nat, |i: int| (s[i], s[i + 1]))
    }
}

/// Sørensen-Dice: twice the matched bigrams over the total bigrams of
/// both whitespace-free keys; [`SCALE`] when the keys agree, zero when
/// either has fewer than two characters.
pub open spec fn dice_ppm(a: Seq<char>, b: Seq<char>) -> int {
    let af = fil_ws(a, 0);
    let bf = fil_ws(b, 0);
    if af == bf {
        SCALE as int
    } else if af.len() < 2 || bf.len() < 2 {
        0
    } else {
        let ba = bigrams(af);
        let bb = bigrams(bf);
        let inter = jmatch(ba, bb, dice_range(ba.len() as int, bb.len() as int), 0, false_seq(
            bb.len() as int,
        )).0.len();
        2 * (inter as int) * (SCALE as int) / ((ba.len() as int) + (bb.len() as int))
    }
}

/// A share `p` of `q` scaled by [`SCALE`] stays inside `[0, SCALE]`.
pub proof fn lemma_frac_bounds(p: int, q: int)
    requires
        0 <= p <= q,
        1 <= q,
    ensures
        0 <= p * (SCALE as int) / q <= SCALE as int,
{
    lemma_mul_nonnegative(p, SCALE as int);
    lemma_div_pos_is_pos(p * (SCALE as int), q);
    lemma_mul_inequality(p, q, SCALE as int);
    lemma_div_is_ordered(p * (SCALE as int), q * (SCALE as int), q);
    lemma_div_multiples_vanish(SCALE as int, q);
    assert(q * (SCALE as int) == (SCALE as int) * q) by {
        vstd::arithmetic::mul::lemma_mul_is_commutative(q, SCALE as int);
    }
}

/// The Jaro score is a valid fixed-point similarity.
pub proof fn lemma_jaro_bounds(a: Seq<char>, b: Seq<char>)
    ensures
        0 <= jaro_ppm(a, b) <= SCALE as int,
{
    if a.len() == 0 && b.len() == 0 {
    } else if a.len() == 0 || b.len() == 0 {
    } else {
        let rng = jaro_range(a.len() as int, b.len() as int);
        let r = jmatch(a, b, rng, 0, false_seq(b.len() as int));
        let m = r.0.len() as int;
        lemma_jmatch_counts(a, b, rng);
        if m == 0 {
        } else {
            let bm = bmc(b, r.1, 0);
            let x = diff_cnt(r.0, bm, 0);
            let t = x / 2;
            lemma_diff_cnt_le(r.0, bm, 0);
            assert(0 <= x <= m);
            assert(0 <= t <= m) by {
                lemma_div_is_ordered(0, x, 2);
                lemma_div_is_ordered(x, m, 2);
                lemma_div_is_ordered(m, 2 * m, 2);
                lemma_div_multiples_vanish(m, 2);
            }
            let t1 = m * (SCALE as int) / (a.len() as int);
            let t2 = m * (SCALE as int) / (b.len() as int);
            let t3 = (m - t) * (SCALE as int) / m;
            lemma_frac_bounds(m, a.len() as int);
            lemma_frac_bounds(m, b.len() as int);
            lemma_frac_bounds(m - t, m);
            lemma_div_is_ordered(0, t1 + t2 + t3, 3);
            lemma_div_is_ordered(t1 + t2 + t3, 3 * (SCALE as int), 3);
            lemma_div_multiples_vanish(SCALE as int, 3);
        }
    }
}

/// The Jaro-Winkler score is a valid fixed-point similarity.
pub proof fn lemma_jaro_winkler_bounds(a: Seq<char>, b: Seq<char>)
    ensures
        0 <= jaro_winkler_ppm(a, b) <= SCALE as int,
{
    lemma_jaro_bounds(a, b);
    let j = jaro_ppm(a, b);
    if j > JW_BOOST_FLOOR {
        let p = common_prefix(a, b, 0, 4);
        lemma_common_prefix_le(a, b, 0, 4);
        lemma_mul_nonnegative(p, (SCALE as int) - j);
        lemma_div_pos_is_pos(p * ((SCALE as int) - j), 10);
        lemma_mul_inequality(p, 10, (SCALE as int) - j);
        lemma_div_is_ordered(p * ((SCALE as int) - j), 10 * ((SCALE as int) - j), 10);
        lemma_div_multiples_vanish((SCALE as int) - j, 10);
        assert(10 * ((SCALE as int) - j) / 10 == (SCALE as int) - j);
    }
}

/// The Sørensen-Dice score is a valid fixed-point similarity.
pub proof fn lemma_dice_bounds(a: Seq<char>, b: Seq<char>)
    ensures
        0 <= dice_ppm(a, b) <= SCALE as int,
{
    let af = fil_ws(a, 0);
    let bf = fil_ws(b, 0);
    if af == bf {
    } else if af.len() < 2 || bf.len() < 2 {
    } else {
        let ba = bigrams(af);
        let bb = bigrams(bf);
        let rng = dice_range(ba.len() as int, bb.len() as int);
        lemma_jmatch_counts(ba, bb, rng);
        let inter = jmatch(ba, bb, rng, 0, false_seq(bb.len() as int)).0.len() as int;
        assert(0 <= 2 * inter <= (ba.len() as int) + (bb.len() as int));
        lemma_frac_bounds(2 * inter, (ba.len() as int) + (bb.len() as int));
    }
}

/// Fractions fed to [`scaled_div`] keep their denominator below this, so
/// the fixed-point scaling never overflows.
pub const FRAC_CAP: u128 = 0x20000000000000000;

/// Runtime flag vector of length `n`, all clear.
fn mk_false(n: usize) -> (v: Vec<bool>)
    ensures
        v@ == false_seq(n as int),
{
    let mut v: Vec<bool> = Vec::new();
    let mut i: usize = 0;
    while i < n
        invariant
            i <= n,
            v@ == false_seq(i as int),
        decreases n - i,
    {
        v.push(false);
        proof {
            assert(false_seq(i as int).push(false) =~= false_seq(i + 1));
        }
        i = i + 1;
    }
    v
}

/// Runtime twin of [`ffm`].
fn ffm_x(b: &Vec<char>, used: &Vec<bool>, c: char, lo: usize, hi: usize) -> (r: Option<usize>)
    ensures
        r is None ==> ffm(b@, used@, c, lo as int, hi as int) == -1,
        r matches Some(j) ==> ffm(b@, used@, c, lo as int, hi as int) == j as int,
    decreases hi - lo,
{
    if lo >= hi || lo >= b.len() || lo >= used.len() {
        None
    } else if !used[lo] && b[lo] == c {
        Some(lo)
    } else {
        ffm_x(b, used, c, lo + 1, hi)
    }
}

/// The window end `min(b_len, i + rng + 1)`, computed without overflow.
fn window_end(b_len: usize, i: usize, rng: usize) -> (hi: usize)
    ensures
        hi as int == if i as int + rng as int + 1 < b_len as int {
            i as int + rng as int + 1
        } else {
            b_len as int
        },
{
    if rng >= b_len || i >= b_len {
        b_len
    } else if b_len - i <= rng + 1 {
        b_len
    } else {
        i + rng + 1
    }
}

/// Runtime twin of [`jmatch`] for characters.
fn jmatch_x(a: &Vec<char>, b: &Vec<char>, rng: usize, i: usize, used: Vec<bool>) -> (r: (
    Vec<char>,
    Vec<bool>,
))
    requires
        used@.len() == b@.len(),
        i <= a@.len(),
    ensures
        r.0@ == jmatch(a@, b@, rng as int, i as int, used@).0,
        r.1@ == jmatch(a@, b@, rng as int, i as int, used@).1,
    decreases a@.len() - i,
{
    if i >= a.len() {
        (Vec::new(), used)
    } else {
        let lo = if i > rng {
            i - rng
        } else {
            0
        };
        let hi = window_end(b.len(), i, rng);
        let mc = ffm_x(b, &used, a[i], lo, hi);
        proof {
            lemma_ffm_props(b@, used@, a@[i as int], lo as int, hi as int);
        }
        match mc {
            Some(j) => {
                let c = a[i];
                let mut used2 = used;
                used2[j] = true;
                let rest = jmatch_x(a, b, rng, i + 1, used2);
                let mut am = rest.0;
                am.insert(0, c);
                proof {
                    assert(am@ =~= seq![a@[i as int]] + jmatch(
                        a@,
                        b@,
                        rng as int,
                        i as int + 1,
                        used@.update(j as int, true),
                    ).0);
                }
                (am, rest.1)
            },
            None => jmatch_x(a, b, rng, i + 1, used),
        }
    }
}

/// Runtime twin of [`bmc`].
fn bmc_x(b: &Vec<char>, used: &Vec<bool>, j: usize) -> (r: Vec<char>)
    ensures
        r@ == bmc(b@, used@, j as int),
    decreases b@.len() - j,
{
    if j >= b.len() || j >= used.len() {
        Vec::new()
    } else if used[j] {
        let mut rest = bmc_x(b, used, j + 1);
        rest.insert(0, b[j]);
        proof {
            assert(rest@ =~= seq![b@[j as int]] + bmc(b@, used@, j as int + 1));
        }
        rest
    } else {
        bmc_x(b, used, j + 1)
    }
}

/// Runtime twin of [`diff_cnt`].
fn diff_cnt_x(x: &Vec<char>, y: &Vec<char>, i: usize) -> (r: usize)
    ensures
        r as int == diff_cnt(x@, y@, i as int),
    decreases x@.len() - i,
{
    if i >= x.len() || i >= y.len() {
        0
    } else {
        let rest = diff_cnt_x(x, y, i + 1);
        proof {
            lemma_diff_cnt_le(x@, y@, i as int + 1);
        }
        if x[i] == y[i] {
            rest
        } else {
            rest + 1
        }
    }
}

/// Runtime twin of [`common_prefix`].
fn prefix_x(a: &Vec<char>, b: &Vec<char>, i: usize, limit: usize) -> (r: usize)
    ensures
        r as int == common_prefix(a@, b@, i as int, limit as int),
    decreases limit - i,
{
    if i >= limit || i >= a.len() || i >= b.len() {
        0
    } else if a[i] == b[i] {
        proof {
            lemma_common_prefix_le(a@, b@, i as int + 1, limit as int);
        }
        1 + prefix_x(a, b, i + 1, limit)
    } else {
        0
    }
}

/// Scales the fraction `p / q` by [`SCALE`], rounding down.
pub(crate) fn scaled_div(p: u128, q: u128) -> (r: u32)
    requires
        1 <= q,
        p <= q,
        q <= FRAC_CAP,
    ensures
        r as int == (p as int) * (SCALE as int) / (q as int),
        r <= SCALE,
{
    proof {
        lemma_mul_inequality(p as int, FRAC_CAP as int, SCALE as int);
        lemma_frac_bounds(p as int, q as int);
    }
    ((p * (SCALE as u128)) / q) as u32
}

/// Runtime Jaro score, equal to [`jaro_ppm`] of the character views.
pub fn jaro_ppm_x(a: &Vec<char>, b: &Vec<char>) -> (r: u32)
    ensures
        r as int == jaro_ppm(a@, b@),
        r <= SCALE,
{
    proof {
        lemma_jaro_bounds(a@, b@);
    }
    if a.len() == 0 && b.len() == 0 {
        SCALE
    } else if a.len() == 0 || b.len() == 0 {
        0
    } else {
        let mx = if a.len() >= b.len() {
            a.len()
        } else {
            b.len()
        };
        let half = mx / 2;
        let rng = if half >= 1 {
            half - 1
        } else {
            0
        };
        let used0 = mk_false(b.len());
        let mt = jmatch_x(a, b, rng, 0, used0);
        let m = mt.0.len();
        proof {
            lemma_jmatch_counts(a@, b@, rng as int);
        }
        if m == 0 {
            0
        } else {
            let bm = bmc_x(b, &mt.1, 0);
            let x = diff_cnt_x(&mt.0, &bm, 0);
            let t = x / 2;
            proof {
                lemma_diff_cnt_le(mt.0@, bm@, 0);
                assert(t <= x) by {
                    lemma_div_is_ordered(0, x as int, 2);
                    assert(x as int / 2 <= x as int) by (nonlinear_arith);
                }
            }
            let p3 = m - t;
            let t1 = scaled_div(m as u128, a.len() as u128);
            let t2 = scaled_div(m as u128, b.len() as u128);
            let t3 = scaled_div(p3 as u128, m as u128);
            (t1 + t2 + t3) / 3
        }
    }
}

/// Runtime Jaro-Winkler score, equal to [`jaro_winkler_ppm`] of the views.
pub fn jaro_winkler_ppm_x(a: &Vec<char>, b: &Vec<char>) -> (r: u32)
    ensures
        r as int == jaro_winkler_ppm(a@, b@),
        r <= SCALE,
{
    proof {
        lemma_jaro_winkler_bounds(a@, b@);
    }
    let j = jaro_ppm_x(a, b);
    if j > JW_BOOST_FLOOR {
        let p = prefix_x(a, b, 0, 4);
        proof {
            lemma_common_prefix_le(a@, b@, 0, 4);
        }
        let boost = (p as u32) * (SCALE - j) / 10;
        j + boost
    } else {
        j
    }
}

/// Runtime twin of [`fil_ws`].
fn fil_ws_x(s: &Vec<char>, i: usize) -> (r: Vec<char>)
    ensures
        r@ == fil_ws(s@, i as int),
    decreases s@.len() - i,
{
    if i >= s.len() {
        Vec::new()
    } else if ws_char(s[i]) {
        fil_ws_x(s, i + 1)
    } else {
        let mut rest = fil_ws_x(s, i + 1);
        rest.insert(0, s[i]);
        proof {
            assert(rest@ =~= seq![s@[i as int]] + fil_ws(s@, i as int + 1));
        }
        rest
    }
}

/// Character-sequence equality at runtime.
fn chars_eq(x: &Vec<char>, y: &Vec<char>) -> (r: bool)
    ensures
        r == (x@ == y@),
{
    if x.len() != y.len() {
        proof {
            assert(x@ != y@);
        }
        return false;
    }
    let mut i: usize = 0;
    while i < x.len()
        invariant
            i <= x@.len(),
            x@.len() == y@.len(),
            forall|k: int| 0 <= k < i ==> x@[k] == y@[k],
        decreases x@.len() - i,
    {
        if x[i] != y[i] {
            proof {
                assert(x@ != y@);
            }
            return false;
        }
        i = i + 1;
    }
    proof {
        assert(x@ =~= y@);
    }
    true
}

/// Runtime twin of [`bigrams`].
fn bigrams_x(s: &Vec<char>) -> (r: Vec<(char, char)>)
    ensures
        r@ == bigrams(s@),
{
    let mut r: Vec<(char, char)> = Vec::new();
    if s.len() < 2 {
        proof {
            assert(r@ =~= bigrams(s@));
        }
        return r;
    }
    let mut i: usize = 0;
    while i < s.len() - 1
        invariant
            s@.len() >= 2,
            i <= s@.len() - 1,
            r@ == bigrams(s@).subrange(0, i as int),
        decreases s@.len() - 1 - i,
    {
        r.push((s[i], s[i + 1]));
        proof {
            assert(bigrams(s@).subrange(0, i + 1) =~= bigrams(s@).subrange(0, i as int).push(
                (s@[i as int], s@[i as int + 1]),
            ));
        }
        i = i + 1;
    }
    proof {
        assert(bigrams(s@).subrange(0, (s@.len() - 1) as int) =~= bigrams(s@));
    }
    r
}

/// Runtime twin of [`ffm`] for bigram pairs.
fn pffm_x(b: &Vec<(char, char)>, used: &Vec<bool>, c: (char, char), lo: usize, hi: usize) -> (r:
    Option<usize>)
    ensures
        r is None ==> ffm(b@, used@, c, lo as int, hi as int) == -1,
        r matches Some(j) ==> ffm(b@, used@, c, lo as int, hi as int) == j as int,
    decreases hi - lo,
{
    if lo >= hi || lo >= b.len() || lo >= used.len() {
        None
    } else if !used[lo] && b[lo].0 == c.0 && b[lo].1 == c.1 {
        Some(lo)
    } else {
        proof {
            assert(!(!used@[lo as int] && b@[lo as int] == c));
        }
        pffm_x(b, used, c, lo + 1, hi)
    }
}

/// Runtime twin of [`jmatch`] for bigram pairs, keeping only the count.
fn pjmatch_cnt_x(a: &Vec<(char, char)>, b: &Vec<(char, char)>, rng: usize, i: usize, used: Vec<
    bool,
>) -> (r: usize)
    requires
        used@.len() == b@.len(),
        i <= a@.len(),
    ensures
        r as int == jmatch(a@, b@, rng as int, i as int, used@).0.len(),
    decreases a@.len() - i,
{
    if i >= a.len() {
        0
    } else {
        let lo = if i > rng {
            i - rng
        } else {
            0
        };
        let hi = window_end(b.len(), i, rng);
        let mc = pffm_x(b, &used, a[i], lo, hi);
        proof {
            lemma_ffm_props(b@, used@, a@[i as int], lo as int, hi as int);
        }
        match mc {
            Some(j) => {
                let mut used2 = used;
                used2[j] = true;
                proof {
                    lemma_jmatch_props(a@, b@, rng as int, i as int + 1, used2@);
                }
                1 + pjmatch_cnt_x(a, b, rng, i + 1, used2)
            },
            None => pjmatch_cnt_x(a, b, rng, i + 1, used),
        }
    }
}

/// The matching window for bigram intersection: wide enough to cover
/// everything.
pub open spec fn dice_range(al: int, bl: int) -> int {
    if al >= bl {
        al
    } else {
        bl
    }
}

/// Runtime Sørensen-Dice score, equal to [`dice_ppm`] of the views.
pub fn dice_ppm_x(a: &Vec<char>, b: &Vec<char>) -> (r: u32)
    ensures
        r as int == dice_ppm(a@, b@),
        r <= SCALE,
{
    proof {
        lemma_dice_bounds(a@, b@);
    }
    let af = fil_ws_x(a, 0);
    let bf = fil_ws_x(b, 0);
    if chars_eq(&af, &bf) {
        SCALE
    } else if af.len() < 2 || bf.len() < 2 {
        0
    } else {
        let ba = bigrams_x(&af);
        let bb = bigrams_x(&bf);
        let rng = if ba.len() >= bb.len() {
            ba.len()
        } else {
            bb.len()
        };
        let used0 = mk_false(bb.len());
        let inter = pjmatch_cnt_x(&ba, &bb, rng, 0, used0);
        proof {
            lemma_jmatch_counts(ba@, bb@, rng as int);
        }
        let num = 2u128 * (inter as u128);
        let den = (ba.len() as u128) + (bb.len() as u128);
        scaled_div(num, den)
    }
}

} // verus!
