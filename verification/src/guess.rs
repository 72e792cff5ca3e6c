//! Street-address matching against the official street corpus: the
//! address-specific rewriting grammar (abbreviation expansion,
//! house-number reordering, multi-number truncation), location
//! resolution, per-street corpus files, and the top-level orchestrator.

use crate::candidate::{
    cand_views, chars_to_string, is_topk, lemma_topk_best, lemma_topk_empty, to_chars, Candidate,
    CandidateView, Error, Sens, SimResult, Text, SCALE,
};
use crate::metrics::StringMetric;
use crate::text::{is_ws, lemma_lower_seq_push, lower_seq, normalize_key, to_lower, ws_char};
use crate::text_sim::{
    accepted_views, cmp_with_arr, default_cfg, fast_cmp_with_arr, views_of, Config,
    DEFAULT_WORKERS,
};
use vstd::prelude::*;

verus! {

/// Decimal digits, as the address grammar understands them.
pub open spec fn is_digit(c: char) -> bool {
    '0' <= c && c <= '9'
}

/// Runtime test for a decimal digit.
pub fn digit_char(c: char) -> (b: bool)
    ensures
        b == is_digit(c),
{
    '0' <= c && c <= '9'
}

/// ASCII letters, as the trailing-letter rules understand them.
pub open spec fn is_alpha(c: char) -> bool {
    ('a' <= c && c <= 'z') || ('A' <= c && c <= 'Z')
}

/// Runtime test for an ASCII letter.
pub fn alpha_char(c: char) -> (b: bool)
    ensures
        b == is_alpha(c),
{
    ('a' <= c && c <= 'z') || ('A' <= c && c <= 'Z')
}

/// Word characters: letters (including the Latin-1 range), digits and
/// the underscore.
pub open spec fn is_word(c: char) -> bool {
    is_digit(c) || is_alpha(c) || c == '_' || ('À' <= c && c <= 'Þ' && c != '×') || ('ß' <= c
        && c <= 'ÿ' && c != '÷')
}

/// Runtime test for a word character.
pub fn word_char(c: char) -> (b: bool)
    ensures
        b == is_word(c),
{
    digit_char(c) || alpha_char(c) || c == '_' || ('À' <= c && c <= 'Þ' && c != '×') || ('ß' <= c
        && c <= 'ÿ' && c != '÷')
}

/// The separators that end a street-name fragment.
pub open spec fn is_sep(c: char) -> bool {
    c == '.' || c == '/' || c == ',' || c == '-' || c == '+' || c == '–' || c == '\\' || is_ws(c)
}

/// Runtime test for a fragment separator.
pub fn sep_char(c: char) -> (b: bool)
    ensures
        b == is_sep(c),
{
    c == '.' || c == '/' || c == ',' || c == '-' || c == '+' || c == '–' || c == '\\' || ws_char(c)
}

/// The sequence without leading whitespace.
pub open spec fn trim_front(s: Seq<char>) -> Seq<char>
    decreases s.len(),
{
    if s.len() == 0 {
        s
    } else if is_ws(s[0]) {
        trim_front(s.drop_first())
    } else {
        s
    }
}

/// The sequence without trailing whitespace.
pub open spec fn trim_back(s: Seq<char>) -> Seq<char>
    decreases s.len(),
{
    if s.len() == 0 {
        s
    } else if is_ws(s.last()) {
        trim_back(s.drop_last())
    } else {
        s
    }
}

/// The sequence without leading and trailing whitespace.
pub open spec fn spec_trim(s: Seq<char>) -> Seq<char> {
    trim_back(trim_front(s))
}

proof fn lemma_trim_front_skip(s: Seq<char>, k: int)
    requires
        0 <= k <= s.len(),
        forall|t: int| 0 <= t < k ==> is_ws(#[trigger] s[t]),
        k < s.len() ==> !is_ws(s[k as int]),
    ensures
        trim_front(s) == s.skip(k),
    decreases k,
{
    if k == 0 {
        assert(s.skip(0) =~= s);
    } else {
        assert(is_ws(s[0]));
        let d = s.drop_first();
        assert forall|t: int| 0 <= t < k - 1 implies is_ws(#[trigger] d[t]) by {
            assert(d[t] == s[t + 1]);
        }
        lemma_trim_front_skip(d, k - 1);
        assert(d.skip(k - 1) =~= s.skip(k));
    }
}

proof fn lemma_trim_back_take(s: Seq<char>, m: int)
    requires
        0 <= m <= s.len(),
        forall|t: int| m <= t < s.len() ==> is_ws(#[trigger] s[t]),
        m > 0 ==> !is_ws(s[m - 1]),
    ensures
        trim_back(s) == s.take(m),
    decreases s.len() - m,
{
    if m == s.len() {
        assert(s.take(m) =~= s);
    } else {
        assert(is_ws(s.last()));
        let d = s.drop_last();
        assert forall|t: int| m <= t < d.len() implies is_ws(#[trigger] d[t]) by {
            assert(d[t] == s[t]);
        }
        lemma_trim_back_take(d, m);
        assert(d.take(m) =~= s.take(m));
    }
}

/// Runtime trim over a character vector.
fn trim_x(s: &Vec<char>) -> (r: Vec<char>)
    ensures
        r@ == spec_trim(s@),
{
    let n = s.len();
    let mut b: usize = 0;
    while b < n && ws_char(s[b])
        invariant
            b <= n,
            n == s@.len(),
            forall|t: int| 0 <= t < b ==> is_ws(#[trigger] s@[t]),
        decreases n - b,
    {
        b = b + 1;
    }
    let mut e: usize = n;
    while e > b && ws_char(s[e - 1])
        invariant
            b <= e <= n,
            n == s@.len(),
            forall|t: int| e <= t < n ==> is_ws(#[trigger] s@[t]),
        decreases e,
    {
        e = e - 1;
    }
    let mut r: Vec<char> = Vec::new();
    let mut i = b;
    while i < e
        invariant
            b <= i <= e <= n,
            n == s@.len(),
            r@ == s@.subrange(b as int, i as int),
        decreases e - i,
    {
        r.push(s[i]);
        proof {
            assert(s@.subrange(b as int, i + 1) =~= s@.subrange(b as int, i as int).push(
                s@[i as int],
            ));
        }
        i = i + 1;
    }
    proof {
        lemma_trim_front_skip(s@, b as int);
        let f = s@.skip(b as int);
        if e == b {
            lemma_trim_back_take(f, 0);
        } else {
            assert forall|t: int| e - b <= t < f.len() implies is_ws(#[trigger] f[t]) by {
                assert(f[t] == s@[t + b]);
            }
            assert(!is_ws(f[e - b - 1]));
            lemma_trim_back_take(f, e - b);
        }
        assert(f.take(e - b) =~= s@.subrange(b as int, e as int));
    }
    r
}

/// Every occurrence of `p` in `s` replaced by `r`, scanning left to
/// right without rescanning what was substituted.
pub open spec fn replace_all(s: Seq<char>, p: Seq<char>, r: Seq<char>) -> Seq<char>
    decreases s.len(),
{
    if p.len() == 0 || s.len() < p.len() {
        s
    } else if s.take(p.len() as int) == p {
        r + replace_all(s.skip(p.len() as int), p, r)
    } else {
        seq![s[0]] + replace_all(s.drop_first(), p, r)
    }
}

/// Whether `p` occurs in `s` at position `i`.
fn match_at(s: &Vec<char>, i: usize, p: &Vec<char>) -> (b: bool)
    requires
        i + p@.len() <= s@.len(),
    ensures
        b == (s@.subrange(i as int, i + p@.len()) == p@),
{
    let n = s.len();
    let mut j: usize = 0;
    while j < p.len()
        invariant
            j <= p@.len(),
            i + p@.len() <= s@.len(),
            n == s@.len(),
            forall|t: int| 0 <= t < j ==> s@[i + t] == p@[t],
        decreases p@.len() - j,
    {
        if s[i + j] != p[j] {
            proof {
                assert(s@.subrange(i as int, i + p@.len())[j as int] != p@[j as int]);
            }
            return false;
        }
        j = j + 1;
    }
    proof {
        assert(s@.subrange(i as int, i + p@.len()) =~= p@);
    }
    true
}

/// Copies `s[from..to]`.
fn slice_vec(s: &Vec<char>, from: usize, to: usize) -> (r: Vec<char>)
    requires
        from <= to <= s@.len(),
    ensures
        r@ == s@.subrange(from as int, to as int),
{
    let mut r: Vec<char> = Vec::new();
    let mut i = from;
    while i < to
        invariant
            from <= i <= to <= s@.len(),
            r@ == s@.subrange(from as int, i as int),
        decreases to - i,
    {
        r.push(s[i]);
        proof {
            assert(s@.subrange(from as int, i + 1) =~= s@.subrange(from as int, i as int).push(
                s@[i as int],
            ));
        }
        i = i + 1;
    }
    r
}

/// Runtime twin of [`replace_all`], from position `i` on.
fn replace_all_x(s: &Vec<char>, i: usize, p: &Vec<char>, r: &Vec<char>) -> (out: Vec<char>)
    requires
        i <= s@.len(),
    ensures
        out@ == replace_all(s@.skip(i as int), p@, r@),
    decreases s@.len() - i,
{
    let ghost tail = s@.skip(i as int);
    if p.len() == 0 || s.len() - i < p.len() {
        let out = slice_vec(s, i, s.len());
        proof {
            assert(out@ =~= tail);
        }
        out
    } else if match_at(s, i, p) {
        proof {
            assert(tail.take(p@.len() as int) =~= s@.subrange(i as int, i + p@.len()));
        }
        let mut out = slice_vec(r, 0, r.len());
        proof {
            assert(out@ =~= r@);
        }
        let mut rest = replace_all_x(s, i + p.len(), p, r);
        out.append(&mut rest);
        proof {
            assert(tail.skip(p@.len() as int) =~= s@.skip(i + p@.len()));
            assert(out@ =~= r@ + replace_all(s@.skip(i + p@.len()), p@, r@));
        }
        out
    } else {
        proof {
            assert(tail.take(p@.len() as int) =~= s@.subrange(i as int, i + p@.len()));
        }
        let mut rest = replace_all_x(s, i + 1, p, r);
        rest.insert(0, s[i]);
        proof {
            assert(tail.drop_first() =~= s@.skip(i + 1));
            assert(tail[0] == s@[i as int]);
            assert(rest@ =~= seq![tail[0]] + replace_all(s@.skip(i + 1), p@, r@));
        }
        rest
    }
}

/// Length of the digit run starting at `i`.
pub open spec fn digit_run(s: Seq<char>, i: int) -> int
    decreases s.len() - i,
{
    if i < 0 || i >= s.len() || !is_digit(s[i]) {
        0
    } else {
        1 + digit_run(s, i + 1)
    }
}

proof fn lemma_digit_run_le(s: Seq<char>, i: int)
    requires
        0 <= i <= s.len(),
    ensures
        0 <= digit_run(s, i) <= s.len() - i,
    decreases s.len() - i,
{
    if !(i >= s.len() || !is_digit(s[i])) {
        lemma_digit_run_le(s, i + 1);
    }
}

/// Runtime twin of [`digit_run`].
fn digit_run_x(s: &Vec<char>, i: usize) -> (r: usize)
    requires
        i <= s@.len(),
    ensures
        r as int == digit_run(s@, i as int),
        i + r <= s@.len(),
    decreases s@.len() - i,
{
    proof {
        lemma_digit_run_le(s@, i as int);
    }
    if i >= s.len() || !digit_char(s[i]) {
        0
    } else {
        1 + digit_run_x(s, i + 1)
    }
}

/// A street that begins with a house number: an all-digit token, or a
/// word character followed by digits, each optionally followed by a
/// comma, then whitespace (the all-digit form also needs something
/// after the whitespace).
pub open spec fn starts_with_number(s: Seq<char>) -> bool {
    let da = digit_run(s, 0);
    let ja = if da < s.len() && s[da] == ',' {
        da + 1
    } else {
        da
    };
    let db = digit_run(s, 1);
    let jb = if 1 + db < s.len() && s[1 + db] == ',' {
        1 + db + 1
    } else {
        1 + db
    };
    ||| (da >= 1 && ja < s.len() && is_ws(s[ja]) && ja + 1 < s.len())
    ||| (s.len() >= 1 && is_word(s[0]) && db >= 1 && jb < s.len() && is_ws(s[jb]))
}

/// Runtime twin of [`starts_with_number`].
pub fn starts_with_number_x(s: &Vec<char>) -> (b: bool)
    ensures
        b == starts_with_number(s@),
{
    let n = s.len();
    let da = digit_run_x(s, 0);
    let ja = if da < n && s[da] == ',' {
        da + 1
    } else {
        da
    };
    let case_a = da >= 1 && ja < n && ws_char(s[ja]) && ja + 1 < n;
    if case_a {
        return true;
    }
    if n >= 1 && word_char(s[0]) {
        let db = digit_run_x(s, 1);
        let jb = if 1 + db < n && s[1 + db] == ',' {
            1 + db + 1
        } else {
            1 + db
        };
        db >= 1 && jb < n && ws_char(s[jb])
    } else {
        false
    }
}

/// First index holding a plain space, from `i` on, or `-1`.
pub open spec fn first_space(s: Seq<char>, i: int) -> int
    decreases s.len() - i,
{
    if i < 0 || i >= s.len() {
        -1
    } else if s[i] == ' ' {
        i
    } else {
        first_space(s, i + 1)
    }
}

proof fn lemma_first_space_props(s: Seq<char>, i: int)
    ensures
        first_space(s, i) == -1 || (i <= first_space(s, i) < s.len() && s[first_space(s, i)]
            == ' '),
    decreases s.len() - i,
{
    if !(i < 0 || i >= s.len()) && s[i] != ' ' {
        lemma_first_space_props(s, i + 1);
    }
}

/// Runtime twin of [`first_space`].
fn first_space_x(s: &Vec<char>, i: usize) -> (r: Option<usize>)
    ensures
        r is None ==> first_space(s@, i as int) == -1,
        r matches Some(j) ==> first_space(s@, i as int) == j as int && (j as int) < s@.len(),
    decreases s@.len() - i,
{
    if i >= s.len() {
        None
    } else if s[i] == ' ' {
        Some(i)
    } else {
        first_space_x(s, i + 1)
    }
}

/// A leading house-number token is moved to the back: the part after the
/// first space, a space, then the number token.
pub open spec fn reorder(s: Seq<char>) -> Seq<char> {
    if starts_with_number(s) && first_space(s, 0) >= 0 {
        let sp = first_space(s, 0);
        s.skip(sp + 1) + seq![' '] + s.take(sp)
    } else {
        s
    }
}

/// Runtime twin of [`reorder`].
fn reorder_x(s: &Vec<char>) -> (r: Vec<char>)
    ensures
        r@ == reorder(s@),
{
    if starts_with_number_x(s) {
        match first_space_x(s, 0) {
            Some(sp) => {
                let n = s.len();
                proof {
                    lemma_first_space_props(s@, 0);
                    assert(sp < n);
                }
                let mut out = slice_vec(s, sp + 1, n);
                out.push(' ');
                let mut front = slice_vec(s, 0, sp);
                out.append(&mut front);
                proof {
                    assert(out@ =~= s@.skip(sp + 1) + seq![' '] + s@.take(sp as int));
                }
                out
            },
            None => {
                let out = slice_vec(s, 0, s.len());
                proof {
                    assert(out@ =~= s@);
                }
                out
            },
        }
    } else {
        let out = slice_vec(s, 0, s.len());
        proof {
            assert(out@ =~= s@);
        }
        out
    }
}

/// Where the number-token pattern can complete right after the digits at
/// position `q`: optional whitespace, optional letter, then a separator;
/// the cut point (just before the separator), or `-1`.
pub open spec fn try_suffix(s: Seq<char>, q: int) -> int {
    if q >= 0 && q < s.len() && is_ws(s[q]) && q + 1 < s.len() && is_alpha(s[q + 1]) && q + 2
        < s.len() && is_sep(s[q + 2]) {
        q + 2
    } else if q >= 0 && q < s.len() && is_ws(s[q]) && q + 1 < s.len() && is_sep(s[q + 1]) {
        q + 1
    } else if q >= 0 && q < s.len() && is_alpha(s[q]) && q + 1 < s.len() && is_sep(s[q + 1]) {
        q + 1
    } else if q >= 0 && q < s.len() && is_sep(s[q]) {
        q
    } else {
        -1
    }
}

/// Runtime twin of [`try_suffix`].
fn try_suffix_x(s: &Vec<char>, q: usize) -> (r: Option<usize>)
    ensures
        r is None ==> try_suffix(s@, q as int) == -1,
        r matches Some(e) ==> try_suffix(s@, q as int) == e as int && q <= e <= s@.len(),
{
    let n = s.len();
    if q < n && ws_char(s[q]) && q + 1 < n && alpha_char(s[q + 1]) && q + 2 < n && sep_char(
        s[q + 2],
    ) {
        Some(q + 2)
    } else if q < n && ws_char(s[q]) && q + 1 < n && sep_char(s[q + 1]) {
        Some(q + 1)
    } else if q < n && alpha_char(s[q]) && q + 1 < n && sep_char(s[q + 1]) {
        Some(q + 1)
    } else if q < n && sep_char(s[q]) {
        Some(q)
    } else {
        None
    }
}

/// The match end after consuming as few digits as possible from `q`, or
/// `-1`: the suffix pattern is tried before each further digit.
pub open spec fn try_digits(s: Seq<char>, q: int) -> int
    decreases s.len() - q,
{
    if q < 0 || q > s.len() {
        -1
    } else {
        let t = try_suffix(s, q);
        if t >= 0 {
            t
        } else if q < s.len() && is_digit(s[q]) {
            try_digits(s, q + 1)
        } else {
            -1
        }
    }
}

proof fn lemma_try_digits_props(s: Seq<char>, q: int)
    ensures
        try_digits(s, q) == -1 || (q <= try_digits(s, q) <= s.len()),
    decreases s.len() - q,
{
    if !(q < 0 || q > s.len()) {
        if try_suffix(s, q) < 0 && q < s.len() && is_digit(s[q]) {
            lemma_try_digits_props(s, q + 1);
        }
    }
}

/// Runtime twin of [`try_digits`].
fn try_digits_x(s: &Vec<char>, q: usize) -> (r: Option<usize>)
    requires
        q <= s@.len(),
    ensures
        r is None ==> try_digits(s@, q as int) == -1,
        r matches Some(e) ==> try_digits(s@, q as int) == e as int && q <= e <= s@.len(),
    decreases s@.len() - q,
{
    let t = try_suffix_x(s, q);
    match t {
        Some(e) => Some(e),
        None => {
            if q < s.len() && digit_char(s[q]) {
                try_digits_x(s, q + 1)
            } else {
                None
            }
        },
    }
}

/// The end of the street-name fragment match whose separating
/// whitespace stands at `p`, or `-1`.
pub open spec fn trunc_at(s: Seq<char>, p: int) -> int {
    if 0 <= p && p < s.len() && is_ws(s[p]) {
        try_digits(s, p + 1)
    } else {
        -1
    }
}

/// The end of the leftmost, shortest fragment match scanning from `p`,
/// or `-1` when the pattern matches nowhere.
pub open spec fn find_trunc(s: Seq<char>, p: int) -> int
    decreases s.len() - p,
{
    if p < 0 || p >= s.len() {
        -1
    } else {
        let e = trunc_at(s, p);
        if e >= 0 {
            e
        } else {
            find_trunc(s, p + 1)
        }
    }
}

/// Runtime twin of [`find_trunc`].
fn find_trunc_x(s: &Vec<char>, p: usize) -> (r: Option<usize>)
    ensures
        r is None ==> find_trunc(s@, p as int) == -1,
        r matches Some(e) ==> find_trunc(s@, p as int) == e as int && p < e <= s@.len(),
    decreases s@.len() - p,
{
    if p >= s.len() {
        None
    } else {
        if ws_char(s[p]) {
            match try_digits_x(s, p + 1) {
                Some(e) => Some(e),
                None => find_trunc_x(s, p + 1),
            }
        } else {
            find_trunc_x(s, p + 1)
        }
    }
}

/// The street ends in whitespace, digits, whitespace and a single
/// letter — the form whose trailing letter belongs to the house number,
/// where truncation is suppressed.
pub open spec fn ends_num_letter(s: Seq<char>) -> bool {
    &&& s.len() >= 3
    &&& is_alpha(s.last())
    &&& is_ws(s[s.len() - 2])
    &&& exists|j: int|
        0 <= j <= s.len() - 3 && is_ws(#[trigger] s[j]) && (forall|t: int|
            j < t <= s.len() - 3 ==> is_digit(#[trigger] s[t]))
}

/// Runtime twin of [`ends_num_letter`].
fn ends_num_letter_x(s: &Vec<char>) -> (b: bool)
    ensures
        b == ends_num_letter(s@),
{
    let n = s.len();
    if n < 3 || !alpha_char(s[n - 1]) || !ws_char(s[n - 2]) {
        proof {
            if n >= 3 {
                assert(!ends_num_letter(s@));
            }
        }
        return false;
    }
    let mut j = n - 3;
    loop
        invariant
            n == s@.len(),
            n >= 3,
            is_alpha(s@[n - 1]),
            is_ws(s@[n - 2]),
            j <= n - 3,
            forall|t: int| j < t <= n - 3 ==> is_digit(#[trigger] s@[t]),
        decreases j,
    {
        if ws_char(s[j]) {
            proof {
                assert(ends_num_letter(s@));
            }
            return true;
        }
        if !digit_char(s[j]) || j == 0 {
            proof {
                assert forall|jj: int|
                    0 <= jj <= n - 3 implies !(is_ws(#[trigger] s@[jj]) && (forall|t: int|
                    jj < t <= n - 3 ==> is_digit(#[trigger] s@[t]))) by {
                    if jj > j {
                        assert(is_digit(s@[jj]));
                        assert(!is_ws(s@[jj]));
                    } else if jj == j {
                        assert(!is_ws(s@[j as int]));
                    } else {
                        if is_digit(s@[j as int]) {
                            assert(j == 0);
                            assert(jj < j);
                            assert(false);
                        } else {
                            assert(jj < j <= (n - 3) as int);
                            assert(!is_digit(s@[j as int]));
                        }
                    }
                }
            }
            return false;
        }
        j = j - 1;
    }
}

/// Truncates the street just before the separator that ends its first
/// name-and-number fragment — discarding trailing repeated numbers,
/// ranges or parenthetical suffixes — unless the street ends in a
/// number and a lone letter.
pub open spec fn truncate_frag(s: Seq<char>) -> Seq<char> {
    let e = find_trunc(s, 0);
    if e >= 0 && !ends_num_letter(s) {
        s.take(e)
    } else {
        s
    }
}

/// Runtime twin of [`truncate_frag`].
fn truncate_frag_x(s: &Vec<char>) -> (r: Vec<char>)
    ensures
        r@ == truncate_frag(s@),
{
    match find_trunc_x(s, 0) {
        Some(e) => {
            if !ends_num_letter_x(s) {
                slice_vec(s, 0, e)
            } else {
                let out = slice_vec(s, 0, s.len());
                proof {
                    assert(out@ =~= s@);
                }
                out
            }
        },
        None => {
            let out = slice_vec(s, 0, s.len());
            proof {
                assert(out@ =~= s@);
            }
            out
        },
    }
}

/// Lowercases a character vector.
fn lower_vec(s: &Vec<char>) -> (r: Vec<char>)
    ensures
        r@ == lower_seq(s@),
{
    let mut r: Vec<char> = Vec::new();
    let mut i: usize = 0;
    proof {
        assert(s@.take(0) =~= Seq::<char>::empty());
        assert(r@ =~= lower_seq(s@.take(0)));
    }
    while i < s.len()
        invariant
            i <= s@.len(),
            r@ == lower_seq(s@.take(i as int)),
        decreases s@.len() - i,
    {
        r.push(to_lower(s[i]));
        proof {
            assert(s@.take(i + 1) =~= s@.take(i as int).push(s@[i as int]));
            lemma_lower_seq_push(s@.take(i as int), s@[i as int]);
        }
        i = i + 1;
    }
    proof {
        assert(s@.take(s@.len() as int) =~= s@);
    }
    r
}

/// There is a digit somewhere in the sequence.
pub open spec fn contains_digit(s: Seq<char>) -> bool {
    exists|i: int| 0 <= i < s.len() && is_digit(#[trigger] s[i])
}

/// The full cleaning pass of the street grammar: trim, lowercase, the
/// ordered abbreviation table, house-number reordering, fragment
/// truncation.
pub open spec fn clean_spec(s: Seq<char>) -> Seq<char> {
    let t = lower_seq(spec_trim(s));
    let t1 = replace_all(t, "str."@, "strasse"@);
    let t2 = replace_all(t1, "av. "@, "avenue "@);
    let t3 = replace_all(t2, "rt "@, "route "@);
    let t4 = replace_all(t3, "st."@, "saint"@);
    let t5 = replace_all(t4, "st-"@, "saint"@);
    truncate_frag(reorder(t5))
}

/// Runtime twin of [`replace_all`] over whole vectors.
fn replace_full(s: &Vec<char>, p: &Vec<char>, r: &Vec<char>) -> (out: Vec<char>)
    ensures
        out@ == replace_all(s@, p@, r@),
{
    let out = replace_all_x(s, 0, p, r);
    proof {
        assert(s@.skip(0) =~= s@);
    }
    out
}

/// String equality at runtime, by character sequence.
fn string_eq(a: &String, b: &String) -> (r: bool)
    ensures
        r == (a@ == b@),
{
    a.eq(b)
}

/// Lexicographic order on character sequences, by scalar value.
pub open spec fn lex_le(a: Seq<char>, b: Seq<char>) -> bool
    decreases a.len(),
{
    if a.len() == 0 {
        true
    } else if b.len() == 0 {
        false
    } else if a[0] == b[0] {
        lex_le(a.drop_first(), b.drop_first())
    } else {
        a[0] < b[0]
    }
}

/// Strictly before, lexicographically.
pub open spec fn lex_lt(a: Seq<char>, b: Seq<char>) -> bool {
    lex_le(a, b) && a != b
}

proof fn lemma_lex_total(a: Seq<char>, b: Seq<char>)
    ensures
        lex_le(a, b) || lex_le(b, a),
        lex_le(a, b) && lex_le(b, a) ==> a == b,
    decreases a.len(),
{
    if a.len() == 0 {
        if lex_le(b, a) {
            assert(b.len() == 0);
            assert(a =~= b);
        }
    } else if b.len() > 0 && a[0] == b[0] {
        lemma_lex_total(a.drop_first(), b.drop_first());
        if lex_le(a, b) && lex_le(b, a) {
            assert(a.drop_first() == b.drop_first());
            assert(a.len() == b.len());
            assert forall|i: int| 0 <= i < a.len() implies a[i] == b[i] by {
                if i >= 1 {
                    assert(a.drop_first()[i - 1] == b.drop_first()[i - 1]);
                }
            }
            assert(a =~= b);
        }
    }
}

proof fn lemma_lex_trans(a: Seq<char>, b: Seq<char>, c: Seq<char>)
    requires
        lex_le(a, b),
        lex_le(b, c),
    ensures
        lex_le(a, c),
    decreases a.len(),
{
    if a.len() > 0 && b.len() > 0 && c.len() > 0 {
        if a[0] == b[0] && b[0] == c[0] {
            lemma_lex_trans(a.drop_first(), b.drop_first(), c.drop_first());
        }
    }
}

proof fn lemma_lex_skip(a: Seq<char>, b: Seq<char>, i: int)
    requires
        0 <= i <= a.len(),
        i <= b.len(),
        forall|t: int| 0 <= t < i ==> a[t] == b[t],
    ensures
        lex_le(a, b) == lex_le(a.skip(i), b.skip(i)),
    decreases i,
{
    if i > 0 {
        assert(a.len() > 0 && b.len() > 0 && a[0] == b[0]);
        let da = a.drop_first();
        let db = b.drop_first();
        assert forall|t: int| 0 <= t < i - 1 implies da[t] == db[t] by {
            assert(da[t] == a[t + 1] && db[t] == b[t + 1]);
        }
        lemma_lex_skip(da, db, i - 1);
        assert(da.skip(i - 1) =~= a.skip(i));
        assert(db.skip(i - 1) =~= b.skip(i));
    } else {
        assert(a.skip(0) =~= a);
        assert(b.skip(0) =~= b);
    }
}

/// Runtime lexicographic comparison of two strings.
fn str_lex_le(a: &String, b: &String) -> (r: bool)
    ensures
        r == lex_le(a@, b@),
{
    let ac = to_chars(a.as_str());
    let bc = to_chars(b.as_str());
    let mut i: usize = 0;
    while i < ac.len() && i < bc.len() && ac[i] == bc[i]
        invariant
            i <= ac@.len(),
            i <= bc@.len(),
            ac@ == a@,
            bc@ == b@,
            forall|t: int| 0 <= t < i ==> a@[t] == b@[t],
        decreases ac@.len() - i,
    {
        i = i + 1;
    }
    proof {
        lemma_lex_skip(a@, b@, i as int);
    }
    if i >= ac.len() {
        proof {
            assert(a@.skip(i as int).len() == 0);
        }
        true
    } else if i >= bc.len() {
        proof {
            assert(b@.skip(i as int).len() == 0);
            assert(a@.skip(i as int).len() > 0);
        }
        false
    } else {
        proof {
            assert(a@.skip(i as int)[0] == a@[i as int]);
            assert(b@.skip(i as int)[0] == b@[i as int]);
        }
        ac[i] < bc[i]
    }
}

/// A place name, already resolved to its canonical form (or empty when
/// nothing in the dictionary came close enough).
#[derive(Debug, Clone)]
pub struct Place(pub String);

/// A postal code, used verbatim as a corpus partition key.
#[derive(Debug, Clone)]
pub struct Plz(pub String);

/// The location hint of a search: a place name or a postal code.
#[derive(Debug, Clone)]
pub enum Location {
    Place(Place),
    Plz(Plz),
}

/// The corpus partition key of a location.
pub open spec fn key_view(l: Location) -> Seq<char> {
    match l {
        Location::Place(p) => p.0@,
        Location::Plz(z) => z.0@,
    }
}

/// The sensitivity of the place-dictionary lookup.
pub const PLACE_SENS: u32 = 600000;

/// The configuration of the place-dictionary lookup: single best
/// candidate by Jaro-Winkler above [`PLACE_SENS`].
pub open spec fn place_cfg() -> Config {
    Config {
        sens: Sens(PLACE_SENS),
        num_to_keep: 1,
        metric: StringMetric::JaroWinkler,
        num_of_threads: DEFAULT_WORKERS,
    }
}

impl Place {
    /// Resolves a free-form place name against the place dictionary: the
    /// best candidate above the threshold wins; with no candidate the
    /// place silently degrades to the empty value, which downstream code
    /// treats as "no location hint".
    pub fn new(value: &str, places: &Vec<String>) -> (p: Place)
        ensures
            ({
                let acc = accepted_views(views_of(places@), normalize_key(value@), place_cfg());
                &&& (acc.len() == 0 ==> p.0@ == Seq::<char>::empty())
                &&& (acc.len() > 0 ==> exists|c: CandidateView|
                    {
                        &&& #[trigger] acc.to_multiset().count(c) > 0
                        &&& p.0@ == c.text
                        &&& forall|x: CandidateView|
                            #[trigger] acc.to_multiset().count(x) > 0 ==> c.similarity
                                >= x.similarity
                    })
            }),
    {
        let t = Text::new(value.to_owned());
        let cfg = Config::new(Sens(PLACE_SENS), 1, StringMetric::JaroWinkler, None);
        proof {
            assert(cfg == place_cfg());
        }
        let r = fast_cmp_with_arr(places, &t, &cfg);
        match r {
            Ok(mut v) => {
                proof {
                    lemma_topk_best(
                        accepted_views(views_of(places@), normalize_key(value@), place_cfg()),
                        cand_views(v@),
                        1,
                    );
                }
                let c = v.remove(0);
                Place(c.text)
            },
            Err(_) => Place(String::new()),
        }
    }

    /// The canonical place string.
    pub fn key_string(&self) -> (s: String)
        ensures
            s@ == self.0@,
    {
        self.0.clone()
    }
}

/// The decimal digit character of a value below ten.
pub open spec fn digit_char_of(d: int) -> char {
    if d == 0 { '0' } else if d == 1 { '1' } else if d == 2 { '2' } else if d == 3 { '3' }
    else if d == 4 { '4' } else if d == 5 { '5' } else if d == 6 { '6' } else if d == 7 { '7' }
    else if d == 8 { '8' } else { '9' }
}

/// The decimal digit string of a nonnegative number.
pub open spec fn dec_str(n: int) -> Seq<char>
    decreases n,
{
    if n < 10 {
        seq![digit_char_of(n)]
    } else {
        dec_str(n / 10).push(digit_char_of(n % 10))
    }
}

fn digit_char_x(d: usize) -> (c: char)
    requires
        d < 10,
    ensures
        c == digit_char_of(d as int),
{
    if d == 0 { '0' } else if d == 1 { '1' } else if d == 2 { '2' } else if d == 3 { '3' }
    else if d == 4 { '4' } else if d == 5 { '5' } else if d == 6 { '6' } else if d == 7 { '7' }
    else if d == 8 { '8' } else { '9' }
}

/// Runtime decimal rendering of a number.
fn dec_x(n: usize) -> (v: Vec<char>)
    ensures
        v@ == dec_str(n as int),
    decreases n,
{
    if n < 10 {
        let mut v: Vec<char> = Vec::new();
        v.push(digit_char_x(n));
        proof {
            assert(v@ =~= seq![digit_char_of(n as int)]);
        }
        v
    } else {
        let mut v = dec_x(n / 10);
        v.push(digit_char_x(n % 10));
        v
    }
}

impl Plz {
    /// A postal code key: the decimal rendering of the code, used
    /// verbatim with no fuzzy step.
    pub fn new(value: usize) -> (p: Plz)
        ensures
            p.0@ == dec_str(value as int),
    {
        let v = dec_x(value);
        Plz(chars_to_string(&v))
    }

    /// The postal code string.
    pub fn key_string(&self) -> (s: String)
        ensures
            s@ == self.0@,
    {
        self.0.clone()
    }
}

impl Location {
    /// The corpus partition key of this location.
    pub fn key_string(&self) -> (s: String)
        ensures
            s@ == key_view(*self),
    {
        match self {
            Location::Place(p) => p.key_string(),
            Location::Plz(z) => z.key_string(),
        }
    }
}

impl PartialEq for Place {
    fn eq(&self, other: &Place) -> (r: bool) {
        string_eq(&self.0, &other.0)
    }
}

impl vstd::std_specs::cmp::PartialEqSpecImpl for Place {
    open spec fn obeys_eq_spec() -> bool {
        true
    }

    open spec fn eq_spec(&self, other: &Place) -> bool {
        self.0@ == other.0@
    }
}

impl PartialEq for Plz {
    fn eq(&self, other: &Plz) -> (r: bool) {
        string_eq(&self.0, &other.0)
    }
}

impl vstd::std_specs::cmp::PartialEqSpecImpl for Plz {
    open spec fn obeys_eq_spec() -> bool {
        true
    }

    open spec fn eq_spec(&self, other: &Plz) -> bool {
        self.0@ == other.0@
    }
}

impl PartialEq for Location {
    fn eq(&self, other: &Location) -> (r: bool) {
        match (self, other) {
            (Location::Place(a), Location::Place(b)) => string_eq(&a.0, &b.0),
            (Location::Plz(a), Location::Plz(b)) => string_eq(&a.0, &b.0),
            _ => false,
        }
    }
}

impl vstd::std_specs::cmp::PartialEqSpecImpl for Location {
    open spec fn obeys_eq_spec() -> bool {
        true
    }

    open spec fn eq_spec(&self, other: &Location) -> bool {
        match (*self, *other) {
            (Location::Place(a), Location::Place(b)) => a.0@ == b.0@,
            (Location::Plz(a), Location::Plz(b)) => a.0@ == b.0@,
            _ => false,
        }
    }
}

/// A per-street-name corpus file: an ordered table from location key to
/// the canonical street strings recorded for that location.
#[derive(Debug)]
pub struct StreetFile {
    pub entries: Vec<(String, Vec<String>)>,
}

/// Index of the first entry with the given key, from `i` on, or `-1`.
pub open spec fn find_key(entries: Seq<(String, Vec<String>)>, key: Seq<char>, i: int) -> int
    decreases entries.len() - i,
{
    if i < 0 || i >= entries.len() {
        -1
    } else if entries[i].0@ == key {
        i
    } else {
        find_key(entries, key, i + 1)
    }
}

proof fn lemma_find_key_props(entries: Seq<(String, Vec<String>)>, key: Seq<char>, i: int)
    ensures
        find_key(entries, key, i) == -1 || (i <= find_key(entries, key, i) < entries.len()
            && entries[find_key(entries, key, i)].0@ == key),
    decreases entries.len() - i,
{
    if !(i < 0 || i >= entries.len()) && entries[i].0@ != key {
        lemma_find_key_props(entries, key, i + 1);
    }
}

/// All street views of all entries, in file order.
pub open spec fn all_streets_flat(entries: Seq<(String, Vec<String>)>) -> Seq<Seq<char>> {
    entries.map_values(|e: (String, Vec<String>)| views_of(e.1@)).flatten()
}

/// Strictly ascending lexicographically, hence duplicate-free.
pub open spec fn strict_sorted(s: Seq<Seq<char>>) -> bool {
    forall|i: int, j: int| 0 <= i < j < s.len() ==> lex_lt(#[trigger] s[i], #[trigger] s[j])
}

/// Inserts a street into a sorted, duplicate-free list, keeping it so.
#[verifier::rlimit(50)]
fn insert_unique(out: &mut Vec<String>, s: String)
    requires
        strict_sorted(views_of(old(out)@)),
    ensures
        strict_sorted(views_of(final(out)@)),
        views_of(final(out)@).to_set() == views_of(old(out)@).to_set().insert(s@),
{
    let ghost ov = views_of(out@);
    let mut idx: usize = 0;
    while idx < out.len()
        invariant
            idx <= out@.len(),
            out@ == old(out)@,
            ov == views_of(out@),
            forall|j: int| 0 <= j < idx ==> lex_lt(#[trigger] ov[j], s@),
        ensures
            idx <= out@.len(),
            out@ == old(out)@,
            forall|j: int| 0 <= j < idx ==> lex_lt(#[trigger] ov[j], s@),
            idx < out@.len() ==> !lex_lt(ov[idx as int], s@),
        decreases out@.len() - idx,
    {
        let le = str_lex_le(&out[idx], &s);
        let eq = string_eq(&out[idx], &s);
        if !(le && !eq) {
            break;
        }
        idx = idx + 1;
    }
    if idx < out.len() && string_eq(&out[idx], &s) {
        proof {
            assert(ov.contains(s@)) by {
                assert(ov[idx as int] == s@);
            }
            assert(views_of(out@).to_set() =~= views_of(old(out)@).to_set().insert(s@));
        }
    } else {
        proof {
            if idx < out@.len() {
                lemma_lex_total(ov[idx as int], s@);
                assert(lex_lt(s@, ov[idx as int]));
            }
        }
        out.insert(idx, s);
        proof {
            let nv = views_of(out@);
            assert(nv =~= ov.insert(idx as int, s@));
            ov.insert_ensures(idx as int, s@);
            assert forall|x: int, y: int| 0 <= x < y < nv.len() implies lex_lt(
                #[trigger] nv[x],
                #[trigger] nv[y],
            ) by {
                if y < idx {
                    assert(nv[x] == ov[x] && nv[y] == ov[y]);
                } else if y == idx {
                    assert(nv[x] == ov[x] && nv[y] == s@);
                } else {
                    assert(nv[y] == ov[y - 1]);
                    if x == idx {
                        assert(nv[x] == s@);
                        if idx < ov.len() {
                            if y - 1 == idx {
                                assert(lex_lt(s@, ov[idx as int]));
                            } else {
                                assert(lex_lt(ov[idx as int], ov[y - 1]));
                                lemma_lex_trans(s@, ov[idx as int], ov[y - 1]);
                                assert(s@ != ov[y - 1]) by {
                                    if s@ == ov[y - 1] {
                                        lemma_lex_total(s@, ov[idx as int]);
                                    }
                                }
                            }
                        }
                    } else if x < idx {
                        assert(nv[x] == ov[x]);
                        if y - 1 == x {
                            assert(lex_lt(ov[x], s@));
                        } else {
                            assert(lex_lt(ov[x], ov[y - 1]));
                        }
                    } else {
                        assert(nv[x] == ov[x - 1]);
                        assert(lex_lt(ov[x - 1], ov[y - 1]));
                    }
                }
            }
            assert forall|x: Seq<char>| #[trigger] nv.to_set().contains(x) implies ov.to_set(
            ).insert(s@).contains(x) by {
                let t = choose|t: int| 0 <= t < nv.len() && nv[t] == x;
                if t < idx {
                    assert(ov[t] == x);
                } else if t == idx {
                } else {
                    assert(ov[t - 1] == x);
                }
            }
            assert forall|x: Seq<char>| #[trigger] ov.to_set().insert(s@).contains(x) implies
                nv.to_set().contains(x) by {
                if x == s@ {
                    assert(nv[idx as int] == x);
                } else {
                    let t = choose|t: int| 0 <= t < ov.len() && ov[t] == x;
                    if t < idx {
                        assert(nv[t] == x);
                    } else {
                        assert(nv[t + 1] == x);
                    }
                }
            }
            assert(nv.to_set() =~= ov.to_set().insert(s@));
        }
    }
}

proof fn lemma_concat_to_set<T>(a: Seq<T>, b: Seq<T>)
    ensures
        (a + b).to_set() == a.to_set().union(b.to_set()),
{
    assert forall|x: T| #[trigger] (a + b).to_set().contains(x) implies a.to_set().union(
        b.to_set(),
    ).contains(x) by {
        let t = choose|t: int| 0 <= t < (a + b).len() && (a + b)[t] == x;
        if t < a.len() {
            assert(a[t] == x);
        } else {
            assert(b[t - a.len()] == x);
        }
    }
    assert forall|x: T| #[trigger] a.to_set().union(b.to_set()).contains(x) implies (a
        + b).to_set().contains(x) by {
        if a.to_set().contains(x) {
            let t = choose|t: int| 0 <= t < a.len() && a[t] == x;
            assert((a + b)[t] == x);
        } else {
            let t = choose|t: int| 0 <= t < b.len() && b[t] == x;
            assert((a + b)[a.len() + t] == x);
        }
    }
    assert((a + b).to_set() =~= a.to_set().union(b.to_set()));
}

/// Copies a street list.
fn clone_strings(v: &Vec<String>) -> (r: Vec<String>)
    ensures
        views_of(r@) == views_of(v@),
{
    let mut r: Vec<String> = Vec::new();
    let mut i: usize = 0;
    while i < v.len()
        invariant
            i <= v@.len(),
            r@.len() == i,
            forall|t: int| 0 <= t < i ==> #[trigger] r@[t]@ == v@[t]@,
        decreases v@.len() - i,
    {
        r.push(v[i].clone());
        i = i + 1;
    }
    proof {
        assert(views_of(r@) =~= views_of(v@));
    }
    r
}

impl StreetFile {
    /// A corpus file from its parsed location table.
    pub fn new(entries: Vec<(String, Vec<String>)>) -> (f: StreetFile)
        ensures
            f.entries == entries,
    {
        StreetFile { entries }
    }

    /// Index of the entry whose key equals `key`.
    fn find_entry(&self, key: &String) -> (r: Option<usize>)
        ensures
            r is None ==> find_key(self.entries@, key@, 0) == -1,
            r matches Some(i) ==> find_key(self.entries@, key@, 0) == i as int,
    {
        let mut i: usize = 0;
        while i < self.entries.len()
            invariant
                i <= self.entries@.len(),
                find_key(self.entries@, key@, 0) == find_key(self.entries@, key@, i as int),
            decreases self.entries@.len() - i,
        {
            if string_eq(&self.entries[i].0, key) {
                return Some(i);
            }
            i = i + 1;
        }
        None
    }

    /// The deduplicated, lexicographically sorted union of every
    /// location's street list.
    fn get_all_streets(&self) -> (r: Vec<String>)
        ensures
            strict_sorted(views_of(r@)),
            views_of(r@).to_set() == all_streets_flat(self.entries@).to_set(),
    {
        let mut out: Vec<String> = Vec::new();
        let mut e: usize = 0;
        proof {
            assert(self.entries@.take(0).map_values(
                |en: (String, Vec<String>)| views_of(en.1@),
            ) =~= Seq::<Seq<Seq<char>>>::empty());
            assert(views_of(out@) =~= Seq::<Seq<char>>::empty());
            assert(views_of(out@).to_set() =~= all_streets_flat(self.entries@.take(0)).to_set());
        }
        while e < self.entries.len()
            invariant
                e <= self.entries@.len(),
                strict_sorted(views_of(out@)),
                views_of(out@).to_set() == all_streets_flat(self.entries@.take(e as int)).to_set(),
            decreases self.entries@.len() - e,
        {
            let ghost entry_views = views_of(self.entries@[e as int].1@);
            let mut j: usize = 0;
            proof {
                assert(entry_views.take(0) =~= Seq::<Seq<char>>::empty());
                assert(views_of(out@).to_set() =~= all_streets_flat(
                    self.entries@.take(e as int),
                ).to_set().union(entry_views.take(0).to_set()));
            }
            while j < self.entries[e].1.len()
                invariant
                    e < self.entries@.len(),
                    j <= self.entries@[e as int].1@.len(),
                    entry_views == views_of(self.entries@[e as int].1@),
                    strict_sorted(views_of(out@)),
                    views_of(out@).to_set() == all_streets_flat(
                        self.entries@.take(e as int),
                    ).to_set().union(entry_views.take(j as int).to_set()),
                decreases self.entries@[e as int].1@.len() - j,
            {
                let s = self.entries[e].1[j].clone();
                insert_unique(&mut out, s);
                proof {
                    assert(entry_views.take(j + 1) =~= entry_views.take(j as int).push(
                        entry_views[j as int],
                    ));
                    assert(entry_views.take(j + 1).to_set() =~= entry_views.take(
                        j as int,
                    ).to_set().insert(entry_views[j as int])) by {
                        let pre = entry_views.take(j as int);
                        let post = entry_views.take(j + 1);
                        assert forall|x: Seq<char>| #[trigger] post.to_set().contains(x) implies
                            pre.to_set().insert(entry_views[j as int]).contains(x) by {
                            let t = choose|t: int| 0 <= t < post.len() && post[t] == x;
                            if t < j {
                                assert(pre[t] == x);
                            }
                        }
                        assert forall|x: Seq<char>|
                            #[trigger] pre.to_set().insert(entry_views[j as int]).contains(
                            x,
                        ) implies post.to_set().contains(x) by {
                            if x == entry_views[j as int] {
                                assert(post[j as int] == x);
                            } else {
                                let t = choose|t: int| 0 <= t < pre.len() && pre[t] == x;
                                assert(post[t] == x);
                            }
                        }
                    }
                    assert(views_of(out@).to_set() =~= all_streets_flat(
                        self.entries@.take(e as int),
                    ).to_set().union(entry_views.take(j + 1).to_set()));
                }
                j = j + 1;
            }
            proof {
                assert(entry_views.take(entry_views.len() as int) =~= entry_views);
                let m0 = self.entries@.take(e as int).map_values(
                    |en: (String, Vec<String>)| views_of(en.1@),
                );
                let m1 = self.entries@.take(e + 1).map_values(
                    |en: (String, Vec<String>)| views_of(en.1@),
                );
                assert(m1 =~= m0.push(entry_views));
                m0.lemma_flatten_push(entry_views);
                lemma_concat_to_set(m0.flatten(), entry_views);
                assert(views_of(out@).to_set() =~= all_streets_flat(
                    self.entries@.take(e + 1),
                ).to_set());
            }
            e = e + 1;
        }
        proof {
            assert(self.entries@.take(self.entries@.len() as int) =~= self.entries@);
        }
        out
    }

    /// The candidate street set of a search, written as a relation: the
    /// hinted location's own list when its key is present, else the
    /// sorted, deduplicated union of all locations.
    pub open spec fn cand_set_ok(
        entries: Seq<(String, Vec<String>)>,
        location: Option<Location>,
        cands: Seq<Seq<char>>,
    ) -> bool {
        if StreetFile::scoped_of(entries, location) {
            cands == views_of(entries[find_key(entries, key_view(location->Some_0), 0)].1@)
        } else {
            strict_sorted(cands) && cands.to_set() == all_streets_flat(entries).to_set()
        }
    }

    /// Whether the hinted location scopes the search to its own list.
    pub open spec fn scoped_of(
        entries: Seq<(String, Vec<String>)>,
        location: Option<Location>,
    ) -> bool {
        match location {
            Some(l) => find_key(entries, key_view(l), 0) >= 0,
            None => false,
        }
    }

    /// The candidate street set of a search: the hinted location's own
    /// list when its key is present (a scoped search), else the sorted,
    /// deduplicated union of all locations.
    pub fn get_streets_by(&self, location: Option<&Location>) -> (r: (Vec<String>, bool))
        ensures
            ({
                let scoped = match location {
                    Some(l) => find_key(self.entries@, key_view(*l), 0) >= 0,
                    None => false,
                };
                &&& r.1 == scoped
                &&& (scoped ==> views_of(r.0@) == views_of(
                    self.entries@[find_key(
                        self.entries@,
                        key_view(*(location->Some_0)),
                        0,
                    )].1@,
                ))
                &&& (!scoped ==> strict_sorted(views_of(r.0@)) && views_of(r.0@).to_set()
                    == all_streets_flat(self.entries@).to_set())
            }),
    {
        match location {
            Some(l) => {
                let key = l.key_string();
                proof {
                    lemma_find_key_props(self.entries@, key@, 0);
                }
                match self.find_entry(&key) {
                    Some(i) => {
                        let list = clone_strings(&self.entries[i].1);
                        (list, true)
                    },
                    None => (self.get_all_streets(), false),
                }
            },
            None => (self.get_all_streets(), false),
        }
    }
}

/// How many coarse-pass winners are handed to the fine pass of the
/// street-name resolution.
pub const NUM_TO_KEEP_FILTERED_STREETS: usize = 500;

/// The coarse shortlist configuration: the caller's threshold and
/// workers, but the fast Jaro metric and a wide keep count.
pub open spec fn filter_cfg_of(cfg: Config) -> Config {
    Config {
        sens: cfg.sens,
        num_to_keep: NUM_TO_KEEP_FILTERED_STREETS,
        metric: StringMetric::Jaro,
        num_of_threads: cfg.num_of_threads,
    }
}

/// The raw texts of a candidate view sequence.
pub open spec fn texts_of(s: Seq<CandidateView>) -> Seq<Seq<char>> {
    s.map_values(|c: CandidateView| c.text)
}

/// The two-stage street-name resolution relation: some coarse Jaro
/// shortlist of the corpus names admits `v` as the fine-ranked winners
/// of a nonempty accepted set.
pub open spec fn street_name_stages(
    names: Seq<Seq<char>>,
    key: Seq<char>,
    cfg: Config,
    v: Seq<CandidateView>,
) -> bool {
    exists|sl: Seq<CandidateView>|
        {
            &&& #[trigger] is_topk(
                accepted_views(names, key, filter_cfg_of(cfg)),
                sl,
                NUM_TO_KEEP_FILTERED_STREETS as int,
            )
            &&& accepted_views(texts_of(sl), key, cfg).len() > 0
            &&& is_topk(accepted_views(texts_of(sl), key, cfg), v, cfg.num_to_keep as int)
        }
}

/// The resolution failed: the shortlist the coarse pass produced has no
/// candidate above the fine threshold.
pub open spec fn street_name_failed(names: Seq<Seq<char>>, key: Seq<char>, cfg: Config) -> bool {
    exists|sl: Seq<CandidateView>|
        {
            &&& #[trigger] is_topk(
                accepted_views(names, key, filter_cfg_of(cfg)),
                sl,
                NUM_TO_KEEP_FILTERED_STREETS as int,
            )
            &&& accepted_views(texts_of(sl), key, cfg).len() == 0
        }
}

/// Resolves the corpus file name of a cleaned street: a coarse Jaro pass
/// keeps a wide shortlist of the master name list, and the caller's
/// metric ranks that shortlist.
pub fn find_street_name(street: &Text, names: &Vec<String>, cfg: &Config) -> (r: SimResult)
    requires
        cfg.wf(),
    ensures
        r matches Ok(v) ==> street_name_stages(views_of(names@), street.cleaned@, *cfg, cand_views(
            v@,
        )) && (cfg.num_to_keep >= 1 ==> v@.len() >= 1),
        r is Err ==> r == Err::<Vec<Candidate>, Error>(Error::NotFound) && street_name_failed(
            views_of(names@),
            street.cleaned@,
            *cfg,
        ),
{
    let ghost key = street.cleaned@;
    let ghost acc1 = accepted_views(views_of(names@), key, filter_cfg_of(*cfg));
    let filter_cfg = Config {
        sens: cfg.sens,
        num_to_keep: NUM_TO_KEEP_FILTERED_STREETS,
        metric: StringMetric::Jaro,
        num_of_threads: cfg.num_of_threads,
    };
    proof {
        assert(filter_cfg == filter_cfg_of(*cfg));
    }
    let shortlist = fast_cmp_with_arr(names, street, &filter_cfg);
    let mut filtered: Vec<String> = Vec::new();
    let ghost mut sl_views: Seq<CandidateView> = Seq::empty();
    match shortlist {
        Ok(v) => {
            proof {
                sl_views = cand_views(v@);
            }
            let mut v = v;
            let ghost mut done: int = 0;
            proof {
                assert(texts_of(sl_views).take(0) =~= Seq::<Seq<char>>::empty());
                assert(views_of(filtered@) =~= texts_of(sl_views).take(0));
            }
            while v.len() > 0
                invariant
                    0 <= done <= sl_views.len(),
                    cand_views(v@) == sl_views.skip(done),
                    views_of(filtered@) == texts_of(sl_views).take(done),
                decreases v@.len(),
            {
                let ghost old_filtered = filtered@;
                let ghost old_v = v@;
                let c = v.remove(0);
                filtered.push(c.text);
                proof {
                    assert(done < sl_views.len()) by {
                        assert(cand_views(old_v).len() == sl_views.skip(done).len());
                    }
                    assert(sl_views.skip(done)[0] == c@) by {
                        assert(cand_views(old_v)[0] == old_v[0]@);
                    }
                    assert(v@ =~= old_v.skip(1));
                    assert(cand_views(v@) =~= cand_views(old_v).skip(1));
                    assert(sl_views.skip(done).skip(1) =~= sl_views.skip(done + 1));
                    assert(views_of(filtered@) =~= views_of(old_filtered).push(c@.text));
                    assert(texts_of(sl_views)[done] == sl_views[done].text);
                    assert(texts_of(sl_views).take(done + 1) =~= texts_of(sl_views).take(
                        done,
                    ).push(sl_views[done].text));
                    done = done + 1;
                }
            }
            proof {
                assert(texts_of(sl_views).take(sl_views.len() as int) =~= texts_of(sl_views));
            }
        },
        Err(_) => {
            proof {
                assert(acc1.len() == 0);
                lemma_topk_empty(acc1, NUM_TO_KEEP_FILTERED_STREETS as int);
                assert(views_of(filtered@) =~= texts_of(sl_views));
            }
        },
    }
    proof {
        assert(views_of(filtered@) == texts_of(sl_views));
        assert(is_topk(acc1, sl_views, NUM_TO_KEEP_FILTERED_STREETS as int));
    }
    let r = cmp_with_arr(&filtered, street, cfg);
    proof {
        let acc2 = accepted_views(texts_of(sl_views), key, *cfg);
        if r is Ok {
            assert(street_name_stages(views_of(names@), key, *cfg, cand_views(r->Ok_0@)));
        } else {
            assert(street_name_failed(views_of(names@), key, *cfg));
        }
    }
    r
}

/// A validated street: its cleaned text and the corpus file name it was
/// resolved to.
#[derive(Debug)]
pub struct Street {
    pub value: Text,
    pub name: String,
}

/// The street's resolved corpus name heads some two-stage resolution of
/// the cleaned street against the master name list.
pub open spec fn resolved_street_ok(
    names: Seq<Seq<char>>,
    street: Seq<char>,
    used: Config,
    st: Street,
) -> bool {
    exists|v: Seq<CandidateView>|
        {
            &&& #[trigger] street_name_stages(names, normalize_key(clean_spec(street)), used, v)
            &&& v.len() >= 1
            &&& st.name@ == v[0].text
        }
}

impl Street {
    /// The cleaned street string, per the street grammar.
    pub fn clean(street: &str) -> (r: String)
        ensures
            r@ == clean_spec(street@),
    {
        let cs = to_chars(street);
        let t0 = trim_x(&cs);
        let t = lower_vec(&t0);
        let p1 = to_chars("str.");
        let r1 = to_chars("strasse");
        let t1 = replace_full(&t, &p1, &r1);
        let p2 = to_chars("av. ");
        let r2 = to_chars("avenue ");
        let t2 = replace_full(&t1, &p2, &r2);
        let p3 = to_chars("rt ");
        let r3 = to_chars("route ");
        let t3 = replace_full(&t2, &p3, &r3);
        let p4 = to_chars("st.");
        let r4 = to_chars("saint");
        let t4 = replace_full(&t3, &p4, &r4);
        let p5 = to_chars("st-");
        let r5 = to_chars("saint");
        let t5 = replace_full(&t4, &p5, &r5);
        let t6 = reorder_x(&t5);
        let t7 = truncate_frag_x(&t6);
        chars_to_string(&t7)
    }

    /// Whether the raw street holds a house number.
    pub fn contains_numbers(street: &str) -> (b: bool)
        ensures
            b == contains_digit(street@),
    {
        let cs = to_chars(street);
        let mut i: usize = 0;
        while i < cs.len()
            invariant
                i <= cs@.len(),
                cs@ == street@,
                forall|t: int| 0 <= t < i ==> !is_digit(#[trigger] street@[t]),
            decreases cs@.len() - i,
        {
            if digit_char(cs[i]) {
                return true;
            }
            i = i + 1;
        }
        false
    }

    /// Validates a raw street string (it must hold a house number),
    /// cleans it, and resolves the corpus file it belongs to.  A street
    /// without a digit is invalid input; a street no corpus name comes
    /// close to is not found.
    #[verifier::rlimit(50)]
    pub fn new(street: &str, names: &Vec<String>, cfg: Option<&Config>) -> (r: Result<
        Street,
        Error,
    >)
        requires
            match cfg {
                Some(c) => c.wf() && c.num_to_keep >= 1,
                None => true,
            },
        ensures
            r == Err::<Street, Error>(Error::InvalidInput) <==> !contains_digit(street@),
            r is Ok ==> r->Ok_0.value.wf() && r->Ok_0.value.init@ == clean_spec(street@)
                && resolved_street_ok(
                views_of(names@),
                street@,
                match cfg {
                    Some(c) => *c,
                    None => default_cfg(),
                },
                r->Ok_0,
            ),
            r == Err::<Street, Error>(Error::NotFound) ==> street_name_failed(
                views_of(names@),
                normalize_key(clean_spec(street@)),
                match cfg {
                    Some(c) => *c,
                    None => default_cfg(),
                },
            ),
            r is Err ==> r == Err::<Street, Error>(Error::InvalidInput) || r == Err::<
                Street,
                Error,
            >(Error::NotFound),
    {
        if !Street::contains_numbers(street) {
            return Err(Error::InvalidInput);
        }
        let cleaned = Street::clean(street);
        let value = Text::new(cleaned);
        let used_cfg: Config = match cfg {
            Some(c) => *c,
            None => Config::default(),
        };
        proof {
            assert(value.cleaned@ == normalize_key(clean_spec(street@)));
            match cfg {
                Some(c) => {
                    assert(used_cfg == *c);
                },
                None => {
                    assert(used_cfg == default_cfg());
                },
            }
        }
        match find_street_name(&value, names, &used_cfg) {
            Ok(mut v) => {
                let ghost vv = cand_views(v@);
                proof {
                    assert(street_name_stages(
                        views_of(names@),
                        normalize_key(clean_spec(street@)),
                        used_cfg,
                        vv,
                    ));
                    assert(vv.len() >= 1);
                }
                let c = v.remove(0);
                proof {
                    assert(vv[0] == c@);
                }
                let st = Street { value, name: c.text };
                proof {
                    let used_spec = match cfg {
                        Some(cc) => *cc,
                        None => default_cfg(),
                    };
                    assert(used_spec == used_cfg);
                    assert(st.name@ == vv[0].text);
                    assert(resolved_street_ok(views_of(names@), street@, used_spec, st)) by {
                        assert(street_name_stages(
                            views_of(names@),
                            normalize_key(clean_spec(street@)),
                            used_spec,
                            vv,
                        ));
                    }
                }
                Ok(st)
            },
            Err(e) => Err(e),
        }
    }
}

/// Per-call street search configuration: an optional location hint and
/// the matching configuration.
#[derive(Debug)]
pub struct StreetConfig {
    pub location: Option<Location>,
    pub cfg: Config,
}

impl Default for StreetConfig {
    /// No location hint, default matching configuration.
    fn default() -> (s: StreetConfig)
        ensures
            s.location is None,
            s.cfg == default_cfg(),
    {
        StreetConfig { location: None, cfg: Config::default() }
    }
}

impl StreetConfig {
    /// A configuration from a raw sensitivity; a sensitivity outside the
    /// scale is invalid input.
    pub fn new(location: Option<Location>, sens: u32, num_to_keep: usize, algo: StringMetric) -> (r:
        Result<StreetConfig, Error>)
        ensures
            sens > SCALE ==> r == Err::<StreetConfig, Error>(Error::InvalidInput),
            sens <= SCALE ==> (r matches Ok(sc) && sc.location == location && sc.cfg.sens.0
                == sens && sc.cfg.num_to_keep == num_to_keep && sc.cfg.metric == algo
                && sc.cfg.wf()),
    {
        match Sens::new(sens) {
            Ok(s) => Ok(StreetConfig { location, cfg: Config::new(s, num_to_keep, algo, None) }),
            Err(e) => Err(e),
        }
    }

    /// The default configuration scoped to a location hint.
    pub fn default_with(location: Location) -> (s: StreetConfig)
        ensures
            s.location == Some(location),
            s.cfg == default_cfg(),
    {
        StreetConfig { location: Some(location), cfg: Config::default() }
    }
}

/// The best candidate of an accepted set: present exactly when the set
/// is nonempty, drawn from it, and scoring at least every member.
pub open spec fn best_of(acc: Seq<CandidateView>, o: Option<Candidate>) -> bool {
    &&& (o is None <==> acc.len() == 0)
    &&& (o matches Some(c) ==> acc.to_multiset().count(c@) > 0 && (forall|x: CandidateView|
        #[trigger] acc.to_multiset().count(x) > 0 ==> c@.similarity >= x.similarity))
}

/// Searches the opened corpus file for the street: scoped to the hinted
/// location when its key is present in the file, else over the whole
/// file.  Returns the best accepted candidate (or none) and the location
/// hint exactly when the search was scoped — an unused hint is reported
/// as no location, like an absent one.
pub fn find_matches(street: &Street, file: &StreetFile, street_cfg: StreetConfig) -> (r: (
    Option<Candidate>,
    Option<Location>,
))
    requires
        street_cfg.cfg.num_to_keep >= 1,
    ensures
        ({
            let scoped = StreetFile::scoped_of(file.entries@, street_cfg.location);
            &&& r.1 == (if scoped {
                street_cfg.location
            } else {
                None::<Location>
            })
            &&& exists|cands: Seq<Seq<char>>|
                {
                    &&& #[trigger] StreetFile::cand_set_ok(
                        file.entries@,
                        street_cfg.location,
                        cands,
                    )
                    &&& best_of(
                        accepted_views(cands, street.value.cleaned@, street_cfg.cfg),
                        r.0,
                    )
                }
        }),
{
    let cfg = street_cfg.cfg;
    let pair = file.get_streets_by(street_cfg.location.as_ref());
    let cands = pair.0;
    let scoped = pair.1;
    let ghost cands_v = views_of(cands@);
    let m = cmp_with_arr(&cands, &street.value, &cfg);
    let best = match m {
        Ok(mut v) => {
            proof {
                lemma_topk_best(
                    accepted_views(cands_v, street.value.cleaned@, cfg),
                    cand_views(v@),
                    cfg.num_to_keep as int,
                );
                assert(cand_views(v@)[0] == v@[0]@);
            }
            Some(v.remove(0))
        },
        Err(_) => None,
    };
    let loc = if scoped {
        street_cfg.location
    } else {
        None
    };
    proof {
        assert(StreetFile::cand_set_ok(file.entries@, street_cfg.location, cands_v));
        assert(best_of(accepted_views(cands_v, street.value.cleaned@, cfg), best));
    }
    (best, loc)
}

/// The reference corpus handed to the orchestrator: the master list of
/// street names, and the per-name corpus files keyed by that name.
#[derive(Debug)]
pub struct Corpus {
    pub names: Vec<String>,
    pub files: Vec<(String, StreetFile)>,
}

/// Index of the first corpus file with the given name, or `-1`.
pub open spec fn find_file(files: Seq<(String, StreetFile)>, name: Seq<char>, i: int) -> int
    decreases files.len() - i,
{
    if i < 0 || i >= files.len() {
        -1
    } else if files[i].0@ == name {
        i
    } else {
        find_file(files, name, i + 1)
    }
}

/// What one match call returns: the matched canonical street string, if
/// any, and the location key that scoped the search, if one did.
#[derive(Debug)]
pub struct MatchResult {
    pub street: Option<String>,
    pub location: Option<String>,
}

/// The outcome of searching one corpus file: the reported location is
/// the hint exactly when the hint's key scoped the search, and the
/// reported street is the best accepted candidate of the searched set.
pub open spec fn searched_file_ok(
    file: StreetFile,
    location: Option<Location>,
    key: Seq<char>,
    cfg: Config,
    m: MatchResult,
) -> bool {
    &&& (m.location matches Some(ls) ==> StreetFile::scoped_of(file.entries@, location) && ls@
        == key_view(location->Some_0))
    &&& (m.location is None ==> !StreetFile::scoped_of(file.entries@, location))
    &&& exists|cands: Seq<Seq<char>>|
        {
            &&& #[trigger] StreetFile::cand_set_ok(file.entries@, location, cands)
            &&& best_text_of(accepted_views(cands, key, cfg), m.street)
        }
}

/// The best candidate text of an accepted set.
pub open spec fn best_text_of(acc: Seq<CandidateView>, o: Option<String>) -> bool {
    &&& (o is None <==> acc.len() == 0)
    &&& (o matches Some(s) ==> exists|c: CandidateView|
        {
            &&& #[trigger] acc.to_multiset().count(c) > 0
            &&& s@ == c.text
            &&& forall|x: CandidateView|
                #[trigger] acc.to_multiset().count(x) > 0 ==> c.similarity >= x.similarity
        })
}

/// The single entry point of the matcher: validates and cleans the
/// street, resolves which corpus file to search, runs the
/// location-scoped search (falling back to the whole file when the hint
/// is absent, unresolved or unknown), and reports the best match and the
/// location key actually used.  A street without a digit is invalid
/// input; a street no corpus name comes close to is not found; a
/// resolved name without a corpus file is a corpus fault.
pub fn find_match(street: &str, street_cfg: StreetConfig, corpus: &Corpus) -> (r: Result<
    MatchResult,
    Error,
>)
    requires
        street_cfg.cfg.wf(),
        street_cfg.cfg.num_to_keep >= 1,
    ensures
        (r == Err::<MatchResult, Error>(Error::InvalidInput) <==> !contains_digit(street@)),
        r == Err::<MatchResult, Error>(Error::NotFound) ==> street_name_failed(
            views_of(corpus.names@),
            normalize_key(clean_spec(street@)),
            street_cfg.cfg,
        ),
        r == Err::<MatchResult, Error>(Error::Io) ==> exists|v: Seq<CandidateView>|
            {
                &&& #[trigger] street_name_stages(
                    views_of(corpus.names@),
                    normalize_key(clean_spec(street@)),
                    street_cfg.cfg,
                    v,
                )
                &&& v.len() >= 1
                &&& find_file(corpus.files@, v[0].text, 0) == -1
            },
        r is Ok ==> exists|v: Seq<CandidateView>|
            {
                &&& #[trigger] street_name_stages(
                    views_of(corpus.names@),
                    normalize_key(clean_spec(street@)),
                    street_cfg.cfg,
                    v,
                )
                &&& v.len() >= 1
                &&& find_file(corpus.files@, v[0].text, 0) >= 0
                &&& searched_file_ok(
                    corpus.files@[find_file(corpus.files@, v[0].text, 0)].1,
                    street_cfg.location,
                    normalize_key(clean_spec(street@)),
                    street_cfg.cfg,
                    r->Ok_0,
                )
            },
{
    let cfg = street_cfg.cfg;
    let st = match Street::new(street, &corpus.names, Some(&cfg)) {
        Ok(st) => st,
        Err(e) => {
            return Err(e);
        },
    };
    let ghost key = normalize_key(clean_spec(street@));
    let ghost stages_v = choose|v: Seq<CandidateView>|
        {
            &&& #[trigger] street_name_stages(views_of(corpus.names@), key, cfg, v)
            &&& v.len() >= 1
            &&& st.name@ == v[0].text
        };
    let mut fi: usize = 0;
    let nf = corpus.files.len();
    while fi < nf && !string_eq(&corpus.files[fi].0, &st.name)
        invariant
            fi <= nf,
            nf == corpus.files@.len(),
            find_file(corpus.files@, st.name@, 0) == find_file(corpus.files@, st.name@, fi as int),
        decreases nf - fi,
    {
        fi = fi + 1;
    }
    if fi >= nf {
        proof {
            assert(find_file(corpus.files@, st.name@, 0) == -1);
            assert(street_name_stages(
                views_of(corpus.names@),
                normalize_key(clean_spec(street@)),
                street_cfg.cfg,
                stages_v,
            ));
        }
        return Err(Error::Io);
    }
    proof {
        assert(find_file(corpus.files@, st.name@, 0) == fi as int);
    }
    let file = &corpus.files[fi].1;
    let used = StreetConfig { location: street_cfg.location, cfg };
    let ghost used_loc = used.location;
    let (best, loc) = find_matches(&st, file, used);
    let ghost best_g = best;
    let ghost best_view = match &best {
        Some(c) => Some(c@),
        None => None::<CandidateView>,
    };
    let street_out = match best {
        Some(c) => Some(c.text),
        None => None,
    };
    let loc_out = match loc {
        Some(l) => Some(l.key_string()),
        None => None,
    };
    let res = MatchResult { street: street_out, location: loc_out };
    proof {
        let v = stages_v;
        let fidx = find_file(corpus.files@, v[0].text, 0);
        assert(st.name@ == v[0].text);
        assert(fidx == fi as int);
        let sfile = corpus.files@[fidx].1;
        assert(used_loc == street_cfg.location);
        let cands = choose|cands: Seq<Seq<char>>|
            {
                &&& #[trigger] StreetFile::cand_set_ok(sfile.entries@, used_loc, cands)
                &&& best_of(accepted_views(cands, st.value.cleaned@, cfg), best_g)
            };
        assert(st.value.cleaned@ == key);
        assert(best_text_of(accepted_views(cands, key, cfg), res.street)) by {
            let acc = accepted_views(cands, key, cfg);
            if best_view is Some {
                let c = best_view->Some_0;
                assert(acc.to_multiset().count(c) > 0 && res.street->Some_0@ == c.text && (
                forall|x: CandidateView|
                    #[trigger] acc.to_multiset().count(x) > 0 ==> c.similarity >= x.similarity));
            }
        }
        assert(searched_file_ok(sfile, street_cfg.location, key, cfg, res));
        assert(street_name_stages(views_of(corpus.names@), key, street_cfg.cfg, v));
    }
    Ok(res)
}

} // verus!
