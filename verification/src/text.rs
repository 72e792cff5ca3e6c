//! Character-level normalization for comparison keys: a fixed lowercase
//! mapping over the ASCII and Latin-1 letters, and stripping of a fixed
//! punctuation set.  Keys built this way are used only for scoring, never
//! for display.

use vstd::prelude::*;

verus! {

/// The punctuation characters that are removed from a comparison key.
pub open spec fn is_punct(c: char) -> bool {
    ||| c == '_'
    ||| c == '\\'
    ||| c == '('
    ||| c == ')'
    ||| c == ','
    ||| c == '"'
    ||| c == ';'
    ||| c == ':'
    ||| c == '\''
    ||| c == '-'
    ||| c == '/'
    ||| c == '+'
    ||| c == '–'
    ||| c == ' '
}

/// Whitespace, as the address grammar and the metrics understand it.
pub open spec fn is_ws(c: char) -> bool {
    c == ' ' || c == '\t' || c == '\n' || c == '\r' || c == '\x0b' || c == '\x0c'
}

/// Runtime test for the whitespace class.
pub fn ws_char(c: char) -> (b: bool)
    ensures
        b == is_ws(c),
{
    c == ' ' || c == '\t' || c == '\n' || c == '\r' || c == '\x0b' || c == '\x0c'
}

/// Runtime test for the punctuation set.
pub fn punct_char(c: char) -> (b: bool)
    ensures
        b == is_punct(c),
{
    c == '_' || c == '\\' || c == '(' || c == ')' || c == ',' || c == '"' || c == ';' || c == ':'
        || c == '\'' || c == '-' || c == '/' || c == '+' || c == '–' || c == ' '
}

/// The lowercase mapping used for comparison keys: ASCII letters and the
/// uppercase Latin-1 letters are folded; every other character maps to
/// itself.
pub open spec fn lower_char(c: char) -> char {
    if 'A' <= c && c <= 'Z' {
        spec_ascii_lower(c)
    } else if 'À' <= c && c <= 'Þ' && c != '×' {
        spec_latin1_lower(c)
    } else {
        c
    }
}

/// Lowercase image of an ASCII uppercase letter.
pub open spec fn spec_ascii_lower(c: char) -> char {
    if c == 'A' { 'a' } else if c == 'B' { 'b' } else if c == 'C' { 'c' }
    else if c == 'D' { 'd' } else if c == 'E' { 'e' } else if c == 'F' { 'f' }
    else if c == 'G' { 'g' } else if c == 'H' { 'h' } else if c == 'I' { 'i' }
    else if c == 'J' { 'j' } else if c == 'K' { 'k' } else if c == 'L' { 'l' }
    else if c == 'M' { 'm' } else if c == 'N' { 'n' } else if c == 'O' { 'o' }
    else if c == 'P' { 'p' } else if c == 'Q' { 'q' } else if c == 'R' { 'r' }
    else if c == 'S' { 's' } else if c == 'T' { 't' } else if c == 'U' { 'u' }
    else if c == 'V' { 'v' } else if c == 'W' { 'w' } else if c == 'X' { 'x' }
    else if c == 'Y' { 'y' } else if c == 'Z' { 'z' } else { c }
}

/// Lowercase image of an uppercase Latin-1 letter.
pub open spec fn spec_latin1_lower(c: char) -> char {
    if c == 'À' { 'à' } else if c == 'Á' { 'á' } else if c == 'Â' { 'â' }
    else if c == 'Ã' { 'ã' } else if c == 'Ä' { 'ä' } else if c == 'Å' { 'å' }
    else if c == 'Æ' { 'æ' } else if c == 'Ç' { 'ç' } else if c == 'È' { 'è' }
    else if c == 'É' { 'é' } else if c == 'Ê' { 'ê' } else if c == 'Ë' { 'ë' }
    else if c == 'Ì' { 'ì' } else if c == 'Í' { 'í' } else if c == 'Î' { 'î' }
    else if c == 'Ï' { 'ï' } else if c == 'Ð' { 'ð' } else if c == 'Ñ' { 'ñ' }
    else if c == 'Ò' { 'ò' } else if c == 'Ó' { 'ó' } else if c == 'Ô' { 'ô' }
    else if c == 'Õ' { 'õ' } else if c == 'Ö' { 'ö' } else if c == 'Ø' { 'ø' }
    else if c == 'Ù' { 'ù' } else if c == 'Ú' { 'ú' } else if c == 'Û' { 'û' }
    else if c == 'Ü' { 'ü' } else if c == 'Ý' { 'ý' } else if c == 'Þ' { 'þ' }
    else { c }
}

/// Runtime lowercase mapping, equal to [`lower_char`].
pub fn to_lower(c: char) -> (r: char)
    ensures
        r == lower_char(c),
{
    if 'A' <= c && c <= 'Z' {
        if c == 'A' { 'a' } else if c == 'B' { 'b' } else if c == 'C' { 'c' }
        else if c == 'D' { 'd' } else if c == 'E' { 'e' } else if c == 'F' { 'f' }
        else if c == 'G' { 'g' } else if c == 'H' { 'h' } else if c == 'I' { 'i' }
        else if c == 'J' { 'j' } else if c == 'K' { 'k' } else if c == 'L' { 'l' }
        else if c == 'M' { 'm' } else if c == 'N' { 'n' } else if c == 'O' { 'o' }
        else if c == 'P' { 'p' } else if c == 'Q' { 'q' } else if c == 'R' { 'r' }
        else if c == 'S' { 's' } else if c == 'T' { 't' } else if c == 'U' { 'u' }
        else if c == 'V' { 'v' } else if c == 'W' { 'w' } else if c == 'X' { 'x' }
        else if c == 'Y' { 'y' } else { 'z' }
    } else if 'À' <= c && c <= 'Þ' && c != '×' {
        if c == 'À' { 'à' } else if c == 'Á' { 'á' } else if c == 'Â' { 'â' }
        else if c == 'Ã' { 'ã' } else if c == 'Ä' { 'ä' } else if c == 'Å' { 'å' }
        else if c == 'Æ' { 'æ' } else if c == 'Ç' { 'ç' } else if c == 'È' { 'è' }
        else if c == 'É' { 'é' } else if c == 'Ê' { 'ê' } else if c == 'Ë' { 'ë' }
        else if c == 'Ì' { 'ì' } else if c == 'Í' { 'í' } else if c == 'Î' { 'î' }
        else if c == 'Ï' { 'ï' } else if c == 'Ð' { 'ð' } else if c == 'Ñ' { 'ñ' }
        else if c == 'Ò' { 'ò' } else if c == 'Ó' { 'ó' } else if c == 'Ô' { 'ô' }
        else if c == 'Õ' { 'õ' } else if c == 'Ö' { 'ö' } else if c == 'Ø' { 'ø' }
        else if c == 'Ù' { 'ù' } else if c == 'Ú' { 'ú' } else if c == 'Û' { 'û' }
        else if c == 'Ü' { 'ü' } else if c == 'Ý' { 'ý' } else { 'þ' }
    } else {
        c
    }
}

/// The lowercase mapping applied to every character of a sequence.
pub open spec fn lower_seq(s: Seq<char>) -> Seq<char>
    decreases s.len(),
{
    if s.len() == 0 {
        Seq::empty()
    } else {
        seq![lower_char(s[0])] + lower_seq(s.drop_first())
    }
}

/// The sequence with every punctuation character removed.
pub open spec fn strip_punct(s: Seq<char>) -> Seq<char>
    decreases s.len(),
{
    if s.len() == 0 {
        Seq::empty()
    } else if is_punct(s[0]) {
        strip_punct(s.drop_first())
    } else {
        seq![s[0]] + strip_punct(s.drop_first())
    }
}

/// The comparison key of a raw character sequence: lowercased, then with
/// the punctuation set removed.
pub open spec fn normalize_key(s: Seq<char>) -> Seq<char> {
    strip_punct(lower_seq(s))
}

pub proof fn lemma_lower_seq_len(s: Seq<char>)
    ensures
        lower_seq(s).len() == s.len(),
        forall|i: int| 0 <= i < s.len() ==> lower_seq(s)[i] == lower_char(s[i]),
    decreases s.len(),
{
    if s.len() > 0 {
        lemma_lower_seq_len(s.drop_first());
    }
}

pub proof fn lemma_lower_seq_push(s: Seq<char>, c: char)
    ensures
        lower_seq(s.push(c)) == lower_seq(s).push(lower_char(c)),
    decreases s.len(),
{
    if s.len() == 0 {
        assert(s.push(c) =~= seq![c]);
        assert(seq![c][0] == c);
        assert(seq![c].drop_first() =~= Seq::<char>::empty());
        assert(lower_seq(Seq::<char>::empty()) =~= Seq::<char>::empty());
        assert(lower_seq(seq![c]) =~= seq![lower_char(c)]);
        assert(lower_seq(s).push(lower_char(c)) =~= seq![lower_char(c)]);
    } else {
        assert(s.push(c)[0] == s[0]);
        assert(s.push(c).drop_first() =~= s.drop_first().push(c));
        lemma_lower_seq_push(s.drop_first(), c);
        assert(lower_seq(s.push(c)) == seq![lower_char(s[0])] + lower_seq(
            s.drop_first(),
        ).push(lower_char(c)));
        assert(seq![lower_char(s[0])] + lower_seq(s.drop_first()).push(lower_char(c))
            =~= (seq![lower_char(s[0])] + lower_seq(s.drop_first())).push(lower_char(c)));
    }
}

pub proof fn lemma_strip_punct_push(s: Seq<char>, c: char)
    ensures
        strip_punct(s.push(c)) == if is_punct(c) {
            strip_punct(s)
        } else {
            strip_punct(s).push(c)
        },
    decreases s.len(),
{
    if s.len() == 0 {
        assert(s.push(c) =~= seq![c]);
        assert(seq![c][0] == c);
        assert(seq![c].drop_first() =~= Seq::<char>::empty());
        assert(strip_punct(Seq::<char>::empty()) =~= Seq::<char>::empty());
        if is_punct(c) {
            assert(strip_punct(seq![c]) =~= Seq::<char>::empty());
            assert(strip_punct(s) =~= Seq::<char>::empty());
        } else {
            assert(strip_punct(seq![c]) =~= seq![c]);
            assert(strip_punct(s).push(c) =~= seq![c]);
        }
    } else {
        assert(s.push(c)[0] == s[0]);
        assert(s.push(c).len() == s.len() + 1);
        assert(s.push(c).drop_first() =~= s.drop_first().push(c));
        lemma_strip_punct_push(s.drop_first(), c);
        if is_punct(s[0]) {
            assert(strip_punct(s.push(c)) == strip_punct(s.drop_first().push(c)));
        } else {
            assert(strip_punct(s.push(c)) == seq![s[0]] + strip_punct(s.drop_first().push(c)));
            if !is_punct(c) {
                assert(seq![s[0]] + strip_punct(s.drop_first()).push(c) =~= (seq![s[0]]
                    + strip_punct(s.drop_first())).push(c));
            }
        }
    }
}

/// The fixed lowercase mapping is idempotent on characters.
pub proof fn lemma_lower_char_idempotent(c: char)
    ensures
        lower_char(lower_char(c)) == lower_char(c),
{
}

/// Every character of a lowered sequence is fixed by the lowercase mapping.
proof fn lemma_lower_seq_stable(s: Seq<char>)
    ensures
        forall|i: int|
            0 <= i < lower_seq(s).len() ==> lower_char(#[trigger] lower_seq(s)[i]) == lower_seq(
                s,
            )[i],
{
    lemma_lower_seq_len(s);
    assert forall|i: int|
        0 <= i < lower_seq(s).len() implies lower_char(#[trigger] lower_seq(s)[i]) == lower_seq(
        s,
    )[i] by {
        lemma_lower_char_idempotent(s[i]);
    }
}

/// Stripping keeps only characters of the original sequence, so pointwise
/// properties survive it.
proof fn lemma_strip_punct_chars(s: Seq<char>)
    ensures
        forall|i: int|
            0 <= i < strip_punct(s).len() ==> !is_punct(#[trigger] strip_punct(s)[i]),
        forall|i: int|
            0 <= i < strip_punct(s).len() ==> exists|j: int|
                0 <= j < s.len() && #[trigger] strip_punct(s)[i] == s[j],
    decreases s.len(),
{
    if s.len() > 0 {
        lemma_strip_punct_chars(s.drop_first());
        assert forall|i: int| 0 <= i < strip_punct(s).len() implies exists|j: int|
            0 <= j < s.len() && #[trigger] strip_punct(s)[i] == s[j] by {
            if is_punct(s[0]) {
                let jj = choose|j: int|
                    0 <= j < s.drop_first().len() && strip_punct(s.drop_first())[i] == s.drop_first()[j];
                assert(strip_punct(s)[i] == s[jj + 1]);
            } else {
                if i == 0 {
                    assert(strip_punct(s)[i] == s[0]);
                } else {
                    let jj = choose|j: int|
                        0 <= j < s.drop_first().len() && strip_punct(s.drop_first())[i - 1]
                            == s.drop_first()[j];
                    assert(strip_punct(s)[i] == s[jj + 1]);
                }
            }
        }
    }
}

/// Lowering fixes a sequence whose characters are all fixed by the mapping.
proof fn lemma_lower_seq_identity(s: Seq<char>)
    requires
        forall|i: int| 0 <= i < s.len() ==> lower_char(#[trigger] s[i]) == s[i],
    ensures
        lower_seq(s) == s,
    decreases s.len(),
{
    if s.len() == 0 {
        assert(lower_seq(s) =~= s);
    } else {
        lemma_lower_seq_identity(s.drop_first());
        assert(lower_seq(s) =~= s);
    }
}

/// Stripping fixes a sequence that holds no punctuation.
proof fn lemma_strip_punct_identity(s: Seq<char>)
    requires
        forall|i: int| 0 <= i < s.len() ==> !is_punct(#[trigger] s[i]),
    ensures
        strip_punct(s) == s,
    decreases s.len(),
{
    if s.len() == 0 {
        assert(strip_punct(s) =~= s);
    } else {
        lemma_strip_punct_identity(s.drop_first());
        assert(strip_punct(s) =~= s);
    }
}

/// Building a comparison key is idempotent: normalizing an already
/// normalized key changes nothing.
pub proof fn lemma_normalize_key_idempotent(s: Seq<char>)
    ensures
        normalize_key(normalize_key(s)) == normalize_key(s),
{
    let k = normalize_key(s);
    lemma_lower_seq_stable(s);
    lemma_strip_punct_chars(lower_seq(s));
    assert forall|i: int| 0 <= i < k.len() implies lower_char(#[trigger] k[i]) == k[i] by {
        let jj = choose|j: int|
            0 <= j < lower_seq(s).len() && k[i] == lower_seq(s)[j];
        lemma_lower_seq_len(s);
    }
    lemma_lower_seq_identity(k);
    lemma_strip_punct_identity(k);
}

} // verus!
