//! The selectable string-similarity metrics.  Each maps a pair of
//! comparison keys to a fixed-point score in `[0, SCALE]`, where `SCALE`
//! means identical keys.  The edit-distance metrics call into the
//! `strsim` crate; the Jaro family and Sørensen-Dice are computed here.

use crate::candidate::{to_chars, SCALE};
use crate::jaro::{
    dice_ppm, dice_ppm_x, jaro_ppm, jaro_ppm_x, jaro_winkler_ppm, jaro_winkler_ppm_x,
    lemma_dice_bounds, lemma_frac_bounds, lemma_jaro_bounds, lemma_jaro_winkler_bounds,
    scaled_div, FRAC_CAP,
};
use vstd::prelude::*;
use vstd::string::StrSliceExecFns;

verus! {

/// The closed set of similarity metrics a caller can select.
#[derive(Debug, Clone, Copy, PartialEq, Eq, Structural)]
pub enum StringMetric {
    Levenshtein,
    DamerauLevenshtein,
    /// The same as Jaro, but gives a boost to keys with a common prefix.
    JaroWinkler,
    Jaro,
    SorensenDice,
    Osa,
}

impl Default for StringMetric {
    /// Levenshtein is the default metric.
    fn default() -> (m: StringMetric)
        ensures
            m == StringMetric::Levenshtein,
    {
        StringMetric::Levenshtein
    }
}

pub open spec fn min3(a: int, b: int, c: int) -> int {
    if a <= b && a <= c {
        a
    } else if b <= c {
        b
    } else {
        c
    }
}

/// The Levenshtein edit distance: the minimum number of character
/// insertions, deletions and substitutions turning `a` into `b`.
pub open spec fn spec_levenshtein(a: Seq<char>, b: Seq<char>) -> int
    decreases a.len() + b.len(),
{
    if a.len() == 0 {
        b.len() as int
    } else if b.len() == 0 {
        a.len() as int
    } else {
        min3(
            spec_levenshtein(a.drop_last(), b) + 1,
            spec_levenshtein(a, b.drop_last()) + 1,
            spec_levenshtein(a.drop_last(), b.drop_last()) + if a.last() == b.last() {
                0int
            } else {
                1
            },
        )
    }
}

/// The optimal-string-alignment distance: like Levenshtein with adjacent
/// transpositions at cost one, where no substring is edited twice.
pub open spec fn spec_osa(a: Seq<char>, b: Seq<char>) -> int
    decreases a.len() + b.len(),
{
    if a.len() == 0 {
        b.len() as int
    } else if b.len() == 0 {
        a.len() as int
    } else {
        let base = min3(
            spec_osa(a.drop_last(), b) + 1,
            spec_osa(a, b.drop_last()) + 1,
            spec_osa(a.drop_last(), b.drop_last()) + if a.last() == b.last() {
                0int
            } else {
                1
            },
        );
        if a.len() >= 2 && b.len() >= 2 && a.last() != b.last() && a.last() == b[b.len() - 2]
            && b.last() == a[a.len() - 2] {
            let tr = spec_osa(a.take(a.len() - 2), b.take(b.len() - 2)) + 1;
            if tr < base {
                tr
            } else {
                base
            }
        } else {
            base
        }
    }
}

/// What `strsim::damerau_levenshtein` returns: the unrestricted
/// Damerau-Levenshtein distance of the two character sequences.
pub uninterp spec fn damerau_of(a: Seq<char>, b: Seq<char>) -> nat;

/// Relies on `strsim::levenshtein`: the minimum number of character
/// insertions, deletions and substitutions turning one string into the
/// other, which is the textbook recurrence [`spec_levenshtein`].
pub assume_specification [ strsim::levenshtein ](a: &str, b: &str) -> (r: usize)
    ensures
        r as int == spec_levenshtein(a@, b@),
;

/// Relies on `strsim::osa_distance`: the optimal-string-alignment
/// distance of the two strings, which is the recurrence [`spec_osa`].
pub assume_specification [ strsim::osa_distance ](a: &str, b: &str) -> (r: usize)
    ensures
        r as int == spec_osa(a@, b@),
;

/// Relies on `strsim::damerau_levenshtein`: the unrestricted
/// Damerau-Levenshtein distance, named [`damerau_of`]; equal strings
/// need zero operations.
pub assume_specification [ strsim::damerau_levenshtein ](a: &str, b: &str) -> (r: usize)
    ensures
        r as int == damerau_of(a@, b@),
        a@ == b@ ==> r == 0,
;

proof fn lemma_lev_nonneg(a: Seq<char>, b: Seq<char>)
    ensures
        spec_levenshtein(a, b) >= 0,
    decreases a.len() + b.len(),
{
    if a.len() > 0 && b.len() > 0 {
        lemma_lev_nonneg(a.drop_last(), b);
        lemma_lev_nonneg(a, b.drop_last());
        lemma_lev_nonneg(a.drop_last(), b.drop_last());
    }
}

proof fn lemma_osa_nonneg(a: Seq<char>, b: Seq<char>)
    ensures
        spec_osa(a, b) >= 0,
    decreases a.len() + b.len(),
{
    if a.len() > 0 && b.len() > 0 {
        lemma_osa_nonneg(a.drop_last(), b);
        lemma_osa_nonneg(a, b.drop_last());
        lemma_osa_nonneg(a.drop_last(), b.drop_last());
        if a.len() >= 2 && b.len() >= 2 {
            lemma_osa_nonneg(a.take(a.len() - 2), b.take(b.len() - 2));
        }
    }
}

/// The length of the longer sequence.
pub open spec fn max_len(a: Seq<char>, b: Seq<char>) -> int {
    if a.len() >= b.len() {
        a.len() as int
    } else {
        b.len() as int
    }
}

/// Normalized score of an edit distance `d` over keys whose longer
/// length is `l`: the remaining share of `l`, full scale when both keys
/// are empty.
pub open spec fn dist_score(d: int, l: int) -> int {
    if l == 0 {
        SCALE as int
    } else if d >= l {
        0
    } else {
        (l - d) * (SCALE as int) / l
    }
}

pub proof fn lemma_dist_score_bounds(d: int, l: int)
    requires
        0 <= d,
        0 <= l,
    ensures
        0 <= dist_score(d, l) <= SCALE as int,
{
    if l != 0 && d < l {
        lemma_frac_bounds(l - d, l);
    }
}

/// The score of the selected metric over two comparison keys.
pub open spec fn score_of(metric: StringMetric, a: Seq<char>, b: Seq<char>) -> int {
    match metric {
        StringMetric::Levenshtein => dist_score(spec_levenshtein(a, b), max_len(a, b)),
        StringMetric::DamerauLevenshtein => dist_score(damerau_of(a, b) as int, max_len(a, b)),
        StringMetric::Osa => dist_score(spec_osa(a, b), max_len(a, b)),
        StringMetric::Jaro => jaro_ppm(a, b),
        StringMetric::JaroWinkler => jaro_winkler_ppm(a, b),
        StringMetric::SorensenDice => dice_ppm(a, b),
    }
}

/// Every metric yields a valid fixed-point similarity.
pub proof fn lemma_score_bounds(metric: StringMetric, a: Seq<char>, b: Seq<char>)
    ensures
        0 <= score_of(metric, a, b) <= SCALE as int,
{
    match metric {
        StringMetric::Levenshtein => {
            lemma_lev_nonneg(a, b);
            lemma_dist_score_bounds(spec_levenshtein(a, b), max_len(a, b));
        },
        StringMetric::DamerauLevenshtein => {
            lemma_dist_score_bounds(damerau_of(a, b) as int, max_len(a, b));
        },
        StringMetric::Osa => {
            lemma_osa_nonneg(a, b);
            lemma_dist_score_bounds(spec_osa(a, b), max_len(a, b));
        },
        StringMetric::Jaro => {
            lemma_jaro_bounds(a, b);
        },
        StringMetric::JaroWinkler => {
            lemma_jaro_winkler_bounds(a, b);
        },
        StringMetric::SorensenDice => {
            lemma_dice_bounds(a, b);
        },
    }
}

/// Runtime twin of [`dist_score`].
fn dist_score_x(d: usize, l: usize) -> (r: u32)
    ensures
        r as int == dist_score(d as int, l as int),
        r <= SCALE,
{
    if l == 0 {
        SCALE
    } else if d >= l {
        0
    } else {
        scaled_div((l - d) as u128, l as u128)
    }
}

/// Scores `a` against `b` with the selected metric; the result is the
/// fixed-point score [`score_of`] of the two character sequences.
pub fn metric_score(metric: StringMetric, a: &str, b: &str) -> (r: u32)
    ensures
        r as int == score_of(metric, a@, b@),
        r <= SCALE,
{
    match metric {
        StringMetric::Levenshtein => {
            let d = strsim::levenshtein(a, b);
            let la = a.unicode_len();
            let lb = b.unicode_len();
            let l = if la >= lb {
                la
            } else {
                lb
            };
            dist_score_x(d, l)
        },
        StringMetric::DamerauLevenshtein => {
            let d = strsim::damerau_levenshtein(a, b);
            let la = a.unicode_len();
            let lb = b.unicode_len();
            let l = if la >= lb {
                la
            } else {
                lb
            };
            dist_score_x(d, l)
        },
        StringMetric::Osa => {
            let d = strsim::osa_distance(a, b);
            let la = a.unicode_len();
            let lb = b.unicode_len();
            let l = if la >= lb {
                la
            } else {
                lb
            };
            dist_score_x(d, l)
        },
        StringMetric::Jaro => {
            let va = to_chars(a);
            let vb = to_chars(b);
            jaro_ppm_x(&va, &vb)
        },
        StringMetric::JaroWinkler => {
            let va = to_chars(a);
            let vb = to_chars(b);
            jaro_winkler_ppm_x(&va, &vb)
        },
        StringMetric::SorensenDice => {
            let va = to_chars(a);
            let vb = to_chars(b);
            dice_ppm_x(&va, &vb)
        },
    }
}

} // verus!
