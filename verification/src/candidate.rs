//! Core value types of the matcher: comparison text, sensitivity, scored
//! candidates, and top-k selection of scored candidates.

use crate::text::{
    lemma_lower_seq_push, lemma_strip_punct_push, lower_char, lower_seq, normalize_key,
    punct_char, strip_punct, to_lower,
};
use vstd::multiset::Multiset;
use vstd::prelude::*;
use vstd::string::StrSliceExecFns;

verus! {

broadcast use vstd::seq_lib::group_to_multiset_ensures, vstd::multiset::group_multiset_axioms, vstd::seq_lib::lemma_multiset_commutative;

/// Similarity scores and sensitivities are fixed-point fractions of this
/// scale: a score of `SCALE` means the comparison keys are identical, a
/// score of 0 means no similarity at all.
pub const SCALE: u32 = 1000000;

/// The default sensitivity threshold (seven tenths of [`SCALE`]).
pub const DEFAULT_SENS: u32 = 700000;

/// Failure taxonomy: invalid caller input, no candidate above the
/// threshold (a normal, recoverable outcome), or a corpus handed over in
/// an unusable shape.
#[derive(Debug, PartialEq, Eq, Structural, Clone, Copy)]
pub enum Error {
    InvalidInput,
    NotFound,
    Io,
}

/// Result of a similarity query: the retained candidates, best first.
pub type SimResult = Result<Vec<Candidate>, Error>;

/// Builds the character sequence of a string slice.
pub fn to_chars(s: &str) -> (v: Vec<char>)
    ensures
        v@ == s@,
{
    let n = s.unicode_len();
    let mut v: Vec<char> = Vec::new();
    let mut i: usize = 0;
    while i < n
        invariant
            i <= n,
            n == s@.len(),
            v@ == s@.take(i as int),
        decreases n - i,
    {
        let c = s.get_char(i);
        v.push(c);
        proof {
            assert(s@.take(i + 1) =~= s@.take(i as int).push(s@[i as int]));
        }
        i = i + 1;
    }
    proof {
        assert(s@.take(n as int) =~= s@);
    }
    v
}

/// Relies on `String`'s `FromIterator<char>` implementation: collecting
/// characters yields a string whose character sequence is exactly the
/// collected one.
#[verifier::external_body]
pub fn chars_to_string(v: &Vec<char>) -> (s: String)
    ensures
        s@ == v@,
{
    v.iter().collect()
}

/// A string kept in two forms: the original for display and the
/// normalized comparison key for scoring.
#[derive(Debug)]
pub struct Text {
    pub init: String,
    pub cleaned: String,
}

impl Text {
    /// The comparison key is always the normalization of the original.
    pub open spec fn wf(self) -> bool {
        self.cleaned@ == normalize_key(self.init@)
    }

    /// Builds the comparison key: lowercases and strips the punctuation
    /// set, keeping the original string untouched.
    pub fn new(text: String) -> (t: Text)
        ensures
            t.wf(),
            t.init == text,
    {
        let chars = to_chars(text.as_str());
        let mut key: Vec<char> = Vec::new();
        let mut i: usize = 0;
        while i < chars.len()
            invariant
                i <= chars@.len(),
                chars@ == text@,
                key@ == strip_punct(lower_seq(chars@.take(i as int))),
            decreases chars@.len() - i,
        {
            let c = to_lower(chars[i]);
            proof {
                assert(chars@.take(i + 1) =~= chars@.take(i as int).push(chars@[i as int]));
                lemma_lower_seq_push(chars@.take(i as int), chars@[i as int]);
                lemma_strip_punct_push(
                    lower_seq(chars@.take(i as int)),
                    lower_char(chars@[i as int]),
                );
            }
            if !punct_char(c) {
                key.push(c);
            }
            i = i + 1;
        }
        proof {
            assert(chars@.take(chars@.len() as int) =~= chars@);
        }
        let cleaned = chars_to_string(&key);
        Text { init: text, cleaned }
    }
}

/// A sensitivity threshold: candidates are kept only when their score
/// strictly exceeds it.  Held as a fixed-point fraction of [`SCALE`].
#[derive(Debug, Clone, Copy)]
pub struct Sens(pub u32);

impl Sens {
    /// Accepts exactly the values inside `[0, SCALE]`; anything larger is
    /// rejected as invalid input rather than aborting.
    pub fn new(sens: u32) -> (r: Result<Sens, Error>)
        ensures
            sens <= SCALE ==> r == Ok::<Sens, Error>(Sens(sens)),
            sens > SCALE ==> r == Err::<Sens, Error>(Error::InvalidInput),
    {
        if sens <= SCALE {
            Ok(Sens(sens))
        } else {
            Err(Error::InvalidInput)
        }
    }
}

impl Default for Sens {
    /// The default threshold [`DEFAULT_SENS`].
    fn default() -> (s: Sens)
        ensures
            s.0 == DEFAULT_SENS,
    {
        Sens(DEFAULT_SENS)
    }
}

/// The mathematical content of a candidate: its text and its score.
pub struct CandidateView {
    pub text: Seq<char>,
    pub similarity: u32,
}

/// A candidate string together with the similarity score it reached
/// against the target.
#[derive(Debug)]
pub struct Candidate {
    pub text: String,
    pub similarity: u32,
}

impl View for Candidate {
    type V = CandidateView;

    open spec fn view(&self) -> CandidateView {
        CandidateView { text: self.text@, similarity: self.similarity }
    }
}

impl Candidate {
    /// A candidate with the given text and no score yet.
    pub fn from(text: &str) -> (c: Candidate)
        ensures
            c@.text == text@,
            c@.similarity == 0,
    {
        Candidate { text: text.to_owned(), similarity: 0 }
    }
}

impl PartialEq for Candidate {
    /// Candidates are equal when their texts are equal; scores are
    /// ignored, so deduplication and assertions act on the text alone.
    fn eq(&self, other: &Candidate) -> (r: bool) {
        self.text == other.text
    }
}

impl vstd::std_specs::cmp::PartialEqSpecImpl for Candidate {
    open spec fn obeys_eq_spec() -> bool {
        true
    }

    open spec fn eq_spec(&self, other: &Candidate) -> bool {
        self.text@ == other.text@
    }
}

/// The views of a candidate sequence.
pub open spec fn cand_views(s: Seq<Candidate>) -> Seq<CandidateView> {
    s.map_values(|c: Candidate| c@)
}

/// Scores never increase along the sequence.
pub open spec fn sorted_desc(s: Seq<CandidateView>) -> bool {
    forall|i: int, j: int|
        0 <= i < j < s.len() ==> #[trigger] s[i].similarity >= #[trigger] s[j].similarity
}

/// Every retained candidate scores at least `bound`.
pub open spec fn lower_bound(s: Seq<CandidateView>, bound: u32) -> bool {
    forall|i: int| 0 <= i < s.len() ==> #[trigger] s[i].similarity >= bound
}

/// `r` is a top-`k` selection of `all`: as many entries as `k` allows,
/// sorted by descending score, drawn from `all` without inventing or
/// duplicating entries, and no entry left out scores above a kept one.
pub open spec fn is_topk(all: Seq<CandidateView>, r: Seq<CandidateView>, k: int) -> bool {
    &&& r.len() == if k <= all.len() {
        k as int
    } else {
        all.len() as int
    }
    &&& sorted_desc(r)
    &&& r.to_multiset().subset_of(all.to_multiset())
    &&& (r.len() == all.len() ==> r.to_multiset() == all.to_multiset())
    &&& forall|c: CandidateView|
        #[trigger] all.to_multiset().count(c) > r.to_multiset().count(c) ==> lower_bound(
            r,
            c.similarity,
        )
}

/// A submultiset is never larger.
pub proof fn lemma_subset_len<V>(m1: Multiset<V>, m2: Multiset<V>)
    requires
        m1.subset_of(m2),
    ensures
        m1.len() <= m2.len(),
{
    let d = m2.sub(m1);
    assert(m1.add(d) =~= m2);
    assert(m2.len() == m1.len() + d.len());
}

/// A submultiset of equal size is the whole multiset.
pub proof fn lemma_subset_equal_len<V>(m1: Multiset<V>, m2: Multiset<V>)
    requires
        m1.subset_of(m2),
        m1.len() == m2.len(),
    ensures
        m1 == m2,
{
    let d = m2.sub(m1);
    assert(m1.add(d) =~= m2);
    assert(d.len() == 0);
    vstd::multiset::lemma_multiset_empty_len::<V>(d);
    assert(m1 =~= m2);
}

/// How many candidates score at least `t`.
pub open spec fn count_ge(m: Multiset<CandidateView>, t: int) -> nat {
    m.filter(|c: CandidateView| c.similarity >= t).len()
}

/// How many candidates score exactly `v`.
pub open spec fn count_eq(m: Multiset<CandidateView>, v: int) -> nat {
    m.filter(|c: CandidateView| c.similarity == v).len()
}

proof fn lemma_count_eq_decomposes(m: Multiset<CandidateView>, v: int)
    ensures
        count_ge(m, v) == count_eq(m, v) + count_ge(m, v + 1),
{
    let fe = m.filter(|c: CandidateView| c.similarity == v);
    let fg = m.filter(|c: CandidateView| c.similarity >= v + 1);
    assert(m.filter(|c: CandidateView| c.similarity >= v) =~= fe.add(fg));
}

/// A top-k selection keeps, for every threshold, as many candidates at
/// or above it as the candidate set offers, clipped at the selection
/// size.
pub proof fn lemma_topk_count_ge(all: Seq<CandidateView>, r: Seq<CandidateView>, k: int, t: int)
    ensures
        is_topk(all, r, k) ==> count_ge(r.to_multiset(), t) == vstd::math::min(
            r.len() as int,
            count_ge(all.to_multiset(), t) as int,
        ),
{
    if is_topk(all, r, k) {
        let rm = r.to_multiset();
        let am = all.to_multiset();
        let fr = rm.filter(|c: CandidateView| c.similarity >= t);
        let fa = am.filter(|c: CandidateView| c.similarity >= t);
        assert(fr.subset_of(fa));
        lemma_subset_len(fr, fa);
        assert(fr.subset_of(rm));
        lemma_subset_len(fr, rm);
        assert(rm.len() == r.len());
        if fr.len() < r.len() && fr.len() < fa.len() {
            let d = fa.sub(fr);
            assert(fr.add(d) =~= fa);
            assert(d.len() > 0);
            vstd::multiset::lemma_multiset_empty_len::<CandidateView>(d);
            let v = choose|v: CandidateView| 0 < d.count(v);
            assert(fa.count(v) > fr.count(v));
            assert(v.similarity >= t);
            assert(am.count(v) > rm.count(v));
            assert(lower_bound(r, v.similarity));
            assert(fr =~= rm) by {
                assert forall|x: CandidateView| fr.count(x) == rm.count(x) by {
                    if x.similarity < t {
                        if rm.count(x) > 0 {
                            assert(r.contains(x));
                            let idx = choose|idx: int| 0 <= idx < r.len() && r[idx] == x;
                            assert(r[idx].similarity >= v.similarity);
                            assert(false);
                        }
                    }
                }
            }
            assert(false);
        }
    }
}

/// Any two top-k selections of one candidate set keep the same scores:
/// for every score value they hold equally many candidates with it.
/// Tie-break order, and which of several equally scored texts survives,
/// is all that may differ — so a merged scan and a sequential ranking
/// agree up to ties.
pub proof fn lemma_topk_scores_agree(
    all: Seq<CandidateView>,
    r1: Seq<CandidateView>,
    r2: Seq<CandidateView>,
    k: int,
)
    requires
        is_topk(all, r1, k),
        is_topk(all, r2, k),
    ensures
        forall|v: int|
            #![trigger count_eq(r1.to_multiset(), v)]
            count_eq(r1.to_multiset(), v) == count_eq(r2.to_multiset(), v),
{
    assert forall|v: int|
        #![trigger count_eq(r1.to_multiset(), v)]
        count_eq(r1.to_multiset(), v) == count_eq(r2.to_multiset(), v) by {
        lemma_topk_count_ge(all, r1, k, v);
        lemma_topk_count_ge(all, r2, k, v);
        lemma_topk_count_ge(all, r1, k, v + 1);
        lemma_topk_count_ge(all, r2, k, v + 1);
        lemma_count_eq_decomposes(r1.to_multiset(), v);
        lemma_count_eq_decomposes(r2.to_multiset(), v);
    }
}

/// An empty selection is a top-k of an empty candidate set.
pub proof fn lemma_topk_empty(all: Seq<CandidateView>, k: int)
    requires
        all.len() == 0,
        k >= 0,
    ensures
        is_topk(all, Seq::<CandidateView>::empty(), k),
{
    assert(Seq::<CandidateView>::empty().to_multiset() =~= Multiset::<CandidateView>::empty());
    assert(all.to_multiset().len() == all.len());
    vstd::multiset::lemma_multiset_empty_len::<CandidateView>(all.to_multiset());
    assert(all.to_multiset() =~= Multiset::<CandidateView>::empty());
}

/// The head of a nonempty top-k selection is drawn from the candidate
/// set and scores at least as high as every member of it.
pub proof fn lemma_topk_best(all: Seq<CandidateView>, r: Seq<CandidateView>, k: int)
    requires
        is_topk(all, r, k),
        r.len() >= 1,
    ensures
        all.to_multiset().count(r[0]) > 0,
        forall|x: CandidateView|
            #[trigger] all.to_multiset().count(x) > 0 ==> r[0].similarity >= x.similarity,
{
    assert(r.contains(r[0]));
    assert(r.to_multiset().count(r[0]) > 0);
    assert forall|x: CandidateView|
        #[trigger] all.to_multiset().count(x) > 0 implies r[0].similarity >= x.similarity by {
        if all.to_multiset().count(x) > r.to_multiset().count(x) {
            assert(lower_bound(r, x.similarity));
            assert(r[0].similarity >= x.similarity);
        } else {
            assert(r.to_multiset().count(x) > 0);
            assert(r.contains(x));
            let idx = choose|idx: int| 0 <= idx < r.len() && r[idx] == x;
            if idx > 0 {
                assert(r[0].similarity >= r[idx].similarity);
            }
        }
    }
}

/// First position whose score is below `sim`, in a sequence sorted by
/// descending score.
fn find_insert_pos(sorted: &Vec<Candidate>, sim: u32) -> (idx: usize)
    ensures
        idx <= sorted@.len(),
        forall|j: int| 0 <= j < idx ==> #[trigger] sorted@[j]@.similarity >= sim,
        idx < sorted@.len() ==> sorted@[idx as int]@.similarity < sim,
{
    let mut i: usize = 0;
    while i < sorted.len() && sorted[i].similarity >= sim
        invariant
            i <= sorted@.len(),
            forall|j: int| 0 <= j < i ==> #[trigger] sorted@[j]@.similarity >= sim,
        decreases sorted@.len() - i,
    {
        i = i + 1;
    }
    i
}

/// Sorts the candidates by descending score and keeps at most
/// `num_to_keep` of them; an empty input is the `NotFound` outcome.
pub fn try_sort_and_keep(values: Vec<Candidate>, num_to_keep: usize) -> (r: SimResult)
    ensures
        r is Err <==> values@.len() == 0,
        values@.len() == 0 ==> r == Err::<Vec<Candidate>, Error>(Error::NotFound),
        r matches Ok(v) ==> is_topk(cand_views(values@), cand_views(v@), num_to_keep as int),
{
    if values.len() == 0 {
        return Err(Error::NotFound);
    }
    let ghost all = cand_views(values@);
    let mut input = values;
    let mut sorted: Vec<Candidate> = Vec::new();
    proof {
        assert(cand_views(sorted@) =~= Seq::<CandidateView>::empty());
        assert(cand_views(sorted@).to_multiset().add(cand_views(input@).to_multiset())
            =~= all.to_multiset());
    }
    while input.len() > 0
        invariant
            sorted_desc(cand_views(sorted@)),
            cand_views(sorted@).to_multiset().add(cand_views(input@).to_multiset())
                == all.to_multiset(),
        decreases input@.len(),
    {
        let ghost old_input = input@;
        let ghost old_sorted = sorted@;
        let c = input.pop().unwrap();
        proof {
            assert(cand_views(old_input).last() == c@);
            assert(cand_views(input@) =~= cand_views(old_input).drop_last());
            assert(cand_views(old_input).drop_last() =~= cand_views(old_input).remove(
                cand_views(old_input).len() - 1,
            ));
        }
        let idx = find_insert_pos(&sorted, c.similarity);
        sorted.insert(idx, c);
        proof {
            assert(cand_views(sorted@) =~= cand_views(old_sorted).insert(idx as int, c@));
            assert(cand_views(sorted@).to_multiset().add(cand_views(input@).to_multiset())
                =~= all.to_multiset());
            let s = cand_views(sorted@);
            let so = cand_views(old_sorted);
            so.insert_ensures(idx as int, c@);
            assert(s == so.insert(idx as int, c@));
            assert forall|x: int, y: int| 0 <= x < y < s.len() implies #[trigger] s[x].similarity
                >= #[trigger] s[y].similarity by {
                assert(forall|t: int| 0 <= t < so.len() ==> so[t] == old_sorted[t]@);
                if y < idx {
                    assert(s[x] == so[x] && s[y] == so[y]);
                    assert(so[x].similarity >= so[y].similarity);
                } else if y == idx {
                    assert(s[x] == so[x] && s[y] == c@);
                    assert(so[x].similarity >= c@.similarity);
                } else {
                    assert(s[y] == so[y - 1]);
                    assert(so[idx as int].similarity < c@.similarity);
                    assert(so[y - 1].similarity <= so[idx as int].similarity);
                    if x == idx {
                        assert(s[x] == c@);
                    } else if x < idx {
                        assert(s[x] == so[x]);
                        assert(so[x].similarity >= c@.similarity);
                    } else {
                        assert(s[x] == so[x - 1]);
                        assert(so[x - 1].similarity >= so[y - 1].similarity);
                    }
                }
            }
        }
    }
    proof {
        assert(cand_views(input@) =~= Seq::<CandidateView>::empty());
        assert(cand_views(input@).to_multiset() =~= Multiset::<CandidateView>::empty());
        assert(cand_views(sorted@).to_multiset() =~= all.to_multiset());
        assert(cand_views(sorted@).to_multiset().len() == all.to_multiset().len());
        assert(cand_views(sorted@).len() == all.len());
    }
    let ghost full = cand_views(sorted@);
    sorted.truncate(num_to_keep);
    proof {
        let kk = if num_to_keep <= all.len() {
            num_to_keep as int
        } else {
            all.len() as int
        };
        let pre = cand_views(sorted@);
        assert(pre =~= full.subrange(0, kk));
        let suf = full.subrange(kk, full.len() as int);
        assert(full =~= pre + suf);
        assert(full.to_multiset() == pre.to_multiset().add(suf.to_multiset()));
        assert(pre.to_multiset().subset_of(all.to_multiset()));
        if pre.len() == all.len() {
            assert(suf =~= Seq::<CandidateView>::empty());
            assert(suf.to_multiset() =~= Multiset::<CandidateView>::empty());
            assert(pre.to_multiset() =~= all.to_multiset());
        }
        assert forall|c: CandidateView|
            #[trigger] all.to_multiset().count(c) > pre.to_multiset().count(c) implies lower_bound(
            pre,
            c.similarity,
        ) by {
            assert(suf.to_multiset().count(c) > 0);
            assert(suf.contains(c));
            let i = choose|i: int| 0 <= i < suf.len() && suf[i] == c;
            assert(full[kk + i] == c);
            assert forall|j: int| 0 <= j < pre.len() implies #[trigger] pre[j].similarity
                >= c.similarity by {
                assert(full[j] == pre[j]);
                assert(full[j].similarity >= full[kk + i].similarity);
            }
        }
        assert(is_topk(all, pre, num_to_keep as int));
    }
    Ok(sorted)
}

} // verus!
