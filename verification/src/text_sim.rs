//! The similarity engine and the scan-and-merge search: scoring a target
//! against candidate sets, threshold filtering, top-k ranking, and a
//! chunked two-stage scan whose merge loses no global winner.

use crate::candidate::{
    cand_views, is_topk, lemma_subset_equal_len, lemma_subset_len, lower_bound,
    try_sort_and_keep, Candidate, CandidateView, Error, Sens, SimResult, Text, DEFAULT_SENS,
};
use crate::metrics::{metric_score, score_of, StringMetric};
use crate::text::normalize_key;
use vstd::multiset::Multiset;
use vstd::prelude::*;

verus! {

broadcast use vstd::seq_lib::group_to_multiset_ensures, vstd::multiset::group_multiset_axioms, vstd::seq_lib::lemma_multiset_commutative;

/// Worker fan-out used when the caller does not choose one.
pub const DEFAULT_WORKERS: usize = 4;

/// Per-call matching configuration: the threshold, how many winners to
/// keep, which metric scores, and the worker fan-out of the scanner.
#[derive(Debug, Clone, Copy)]
pub struct Config {
    pub sens: Sens,
    pub num_to_keep: usize,
    pub metric: StringMetric,
    pub num_of_threads: usize,
}

impl Config {
    /// A configuration is usable when it has at least one worker.
    pub open spec fn wf(self) -> bool {
        self.num_of_threads >= 1
    }

    /// `sens` is the threshold a score must strictly exceed to be kept;
    /// `num_to_keep` is how many candidates survive ranking; the worker
    /// count is defaulted when absent and never drops below one.
    pub fn new(sens: Sens, num_to_keep: usize, metric: StringMetric, num_of_threads: Option<
        usize,
    >) -> (cfg: Config)
        ensures
            cfg.sens == sens,
            cfg.num_to_keep == num_to_keep,
            cfg.metric == metric,
            cfg.num_of_threads as int == match num_of_threads {
                Some(n) => if n == 0 {
                    1int
                } else {
                    n as int
                },
                None => DEFAULT_WORKERS as int,
            },
            cfg.wf(),
    {
        let threads = match num_of_threads {
            Some(n) => if n == 0 {
                1
            } else {
                n
            },
            None => DEFAULT_WORKERS,
        };
        Config { sens, num_to_keep, metric, num_of_threads: threads }
    }
}

/// The configuration used when the caller supplies none.
pub open spec fn default_cfg() -> Config {
    Config {
        sens: Sens(DEFAULT_SENS),
        num_to_keep: 1,
        metric: StringMetric::Levenshtein,
        num_of_threads: DEFAULT_WORKERS,
    }
}

impl Default for Config {
    /// The default threshold, a single winner, the default metric and
    /// the default worker fan-out.
    fn default() -> (cfg: Config)
        ensures
            cfg == default_cfg(),
            cfg.wf(),
    {
        Config {
            sens: Sens(DEFAULT_SENS),
            num_to_keep: 1,
            metric: StringMetric::Levenshtein,
            num_of_threads: DEFAULT_WORKERS,
        }
    }
}

/// The character sequences of a string sequence.
pub open spec fn views_of(s: Seq<String>) -> Seq<Seq<char>> {
    s.map_values(|x: String| x@)
}

/// A candidate is accepted exactly when its score strictly exceeds the
/// sensitivity threshold.
pub open spec fn accepts(cfg: Config, score: int) -> bool {
    score > cfg.sens.0 as int
}

/// The view of a scored candidate.
pub open spec fn cv_of(raw: Seq<char>, s: int) -> CandidateView {
    CandidateView { text: raw, similarity: s as u32 }
}

/// The accepted candidates of a raw candidate list, in list order, each
/// scored against the target key over its own comparison key.
pub open spec fn accepted_views(cands: Seq<Seq<char>>, tkey: Seq<char>, cfg: Config) -> Seq<
    CandidateView,
>
    decreases cands.len(),
{
    if cands.len() == 0 {
        Seq::empty()
    } else {
        let s = score_of(cfg.metric, tkey, normalize_key(cands[0]));
        let rest = accepted_views(cands.drop_first(), tkey, cfg);
        if accepts(cfg, s) {
            seq![cv_of(cands[0], s)] + rest
        } else {
            rest
        }
    }
}

proof fn lemma_accepted_push(cands: Seq<Seq<char>>, c: Seq<char>, tkey: Seq<char>, cfg: Config)
    ensures
        accepted_views(cands.push(c), tkey, cfg) == accepted_views(cands, tkey, cfg) + (if accepts(
            cfg,
            score_of(cfg.metric, tkey, normalize_key(c)),
        ) {
            seq![cv_of(c, score_of(cfg.metric, tkey, normalize_key(c)))]
        } else {
            Seq::empty()
        }),
    decreases cands.len(),
{
    let tail = if accepts(cfg, score_of(cfg.metric, tkey, normalize_key(c))) {
        seq![cv_of(c, score_of(cfg.metric, tkey, normalize_key(c)))]
    } else {
        Seq::<CandidateView>::empty()
    };
    if cands.len() == 0 {
        assert(cands.push(c) =~= seq![c]);
        assert(seq![c][0] == c);
        assert(seq![c].drop_first() =~= Seq::<Seq<char>>::empty());
        assert(accepted_views(Seq::<Seq<char>>::empty(), tkey, cfg) =~= Seq::<
            CandidateView,
        >::empty());
        assert(accepted_views(cands, tkey, cfg) =~= Seq::<CandidateView>::empty());
        assert(accepted_views(seq![c].drop_first(), tkey, cfg) =~= Seq::<CandidateView>::empty());
        assert(accepted_views(cands.push(c), tkey, cfg) =~= accepted_views(cands, tkey, cfg)
            + tail);
    } else {
        assert(cands.push(c)[0] == cands[0]);
        assert(cands.push(c).drop_first() =~= cands.drop_first().push(c));
        lemma_accepted_push(cands.drop_first(), c, tkey, cfg);
        assert(accepted_views(cands.push(c), tkey, cfg) =~= accepted_views(cands, tkey, cfg)
            + tail);
    }
}

proof fn lemma_accepted_append(s1: Seq<Seq<char>>, s2: Seq<Seq<char>>, tkey: Seq<char>, cfg: Config)
    ensures
        accepted_views(s1 + s2, tkey, cfg) == accepted_views(s1, tkey, cfg) + accepted_views(
            s2,
            tkey,
            cfg,
        ),
    decreases s1.len(),
{
    if s1.len() == 0 {
        assert(s1 + s2 =~= s2);
        assert(accepted_views(s1, tkey, cfg) =~= Seq::<CandidateView>::empty());
        assert(accepted_views(s1, tkey, cfg) + accepted_views(s2, tkey, cfg) =~= accepted_views(
            s2,
            tkey,
            cfg,
        ));
    } else {
        assert((s1 + s2)[0] == s1[0]);
        assert((s1 + s2).len() > 0);
        assert((s1 + s2).drop_first() =~= s1.drop_first() + s2);
        lemma_accepted_append(s1.drop_first(), s2, tkey, cfg);
        assert(accepted_views(s1 + s2, tkey, cfg) =~= accepted_views(s1, tkey, cfg)
            + accepted_views(s2, tkey, cfg));
    }
}

/// Threshold monotonicity: for a fixed target/candidate pair and metric,
/// raising the sensitivity never turns a rejected candidate into an
/// accepted one — whatever clears the higher threshold clears the lower.
pub proof fn lemma_threshold_monotonic(
    metric: StringMetric,
    tkey: Seq<char>,
    cand: Seq<char>,
    c1: Config,
    c2: Config,
)
    requires
        c1.sens.0 <= c2.sens.0,
        c1.metric == c2.metric,
    ensures
        accepts(c2, score_of(metric, tkey, cand)) ==> accepts(c1, score_of(metric, tkey, cand)),
{
}

/// Scores one candidate text against the target and keeps it only when
/// the score clears the threshold.
pub fn cmp_texts(target: &Text, candidate: Text, config: &Config) -> (r: Option<Candidate>)
    requires
        candidate.wf(),
    ensures
        ({
            let s = score_of(config.metric, target.cleaned@, candidate.cleaned@);
            &&& (r is Some <==> accepts(*config, s))
            &&& (r matches Some(c) ==> c@ == cv_of(candidate.init@, s))
        }),
{
    let similarity = metric_score(config.metric, target.cleaned.as_str(), candidate.cleaned.as_str());
    if similarity > config.sens.0 {
        Some(Candidate { text: candidate.init, similarity })
    } else {
        None
    }
}

/// Ranks a candidate list against the target: scores every entry,
/// keeps those above the threshold, sorts them by descending score and
/// returns the best `num_to_keep`; `NotFound` exactly when nothing is
/// accepted.
pub fn cmp_with_arr(candidates: &Vec<String>, text: &Text, cfg: &Config) -> (r: SimResult)
    ensures
        ({
            let acc = accepted_views(views_of(candidates@), text.cleaned@, *cfg);
            &&& (r is Err <==> acc.len() == 0)
            &&& (r is Err ==> r == Err::<Vec<Candidate>, Error>(Error::NotFound))
            &&& (r matches Ok(v) ==> is_topk(acc, cand_views(v@), cfg.num_to_keep as int))
        }),
{
    let mut found: Vec<Candidate> = Vec::new();
    let mut i: usize = 0;
    proof {
        assert(views_of(candidates@.take(0)) =~= Seq::<Seq<char>>::empty());
        assert(cand_views(found@) =~= accepted_views(
            views_of(candidates@.take(0)),
            text.cleaned@,
            *cfg,
        ));
    }
    while i < candidates.len()
        invariant
            i <= candidates@.len(),
            cand_views(found@) == accepted_views(
                views_of(candidates@.take(i as int)),
                text.cleaned@,
                *cfg,
            ),
        decreases candidates@.len() - i,
    {
        let ghost old_found = found@;
        let raw = candidates[i].clone();
        let ct = Text::new(raw);
        let om = cmp_texts(text, ct, cfg);
        proof {
            assert(candidates@.take(i + 1) =~= candidates@.take(i as int).push(
                candidates@[i as int],
            ));
            assert(views_of(candidates@.take(i + 1)) =~= views_of(candidates@.take(i as int)).push(
                candidates@[i as int]@,
            ));
            lemma_accepted_push(
                views_of(candidates@.take(i as int)),
                candidates@[i as int]@,
                text.cleaned@,
                *cfg,
            );
        }
        match om {
            Some(c) => {
                found.push(c);
                proof {
                    assert(cand_views(found@) =~= cand_views(old_found).push(c@));
                    assert(cand_views(found@) =~= accepted_views(
                        views_of(candidates@.take(i + 1)),
                        text.cleaned@,
                        *cfg,
                    ));
                }
            },
            None => {
                proof {
                    assert(cand_views(found@) =~= accepted_views(
                        views_of(candidates@.take(i + 1)),
                        text.cleaned@,
                        *cfg,
                    ));
                }
            },
        }
        i = i + 1;
    }
    proof {
        assert(candidates@.take(candidates@.len() as int) =~= candidates@);
    }
    try_sort_and_keep(found, cfg.num_to_keep)
}

proof fn lemma_merge_aux(accs: Seq<Seq<CandidateView>>, locals: Seq<Seq<CandidateView>>, k: int)
    requires
        k >= 0,
        accs.len() == locals.len(),
        forall|i: int| 0 <= i < accs.len() ==> is_topk(#[trigger] accs[i], locals[i], k),
    ensures
        locals.flatten().to_multiset().subset_of(accs.flatten().to_multiset()),
        locals.flatten().len() <= accs.flatten().len(),
        locals.flatten().len() < k ==> locals.flatten().to_multiset() == accs.flatten(
        ).to_multiset(),
    decreases accs.len(),
{
    if accs.len() == 0 {
        assert(locals.flatten() =~= Seq::<CandidateView>::empty());
        assert(accs.flatten() =~= Seq::<CandidateView>::empty());
    } else {
        let ra = accs.drop_first();
        let rl = locals.drop_first();
        assert forall|i: int| 0 <= i < ra.len() implies is_topk(#[trigger] ra[i], rl[i], k) by {
            assert(accs[i + 1] == ra[i]);
            assert(is_topk(accs[i + 1], locals[i + 1], k));
        }
        lemma_merge_aux(ra, rl, k);
        assert(locals.flatten() == locals[0] + rl.flatten());
        assert(accs.flatten() == accs[0] + ra.flatten());
        assert(is_topk(accs[0], locals[0], k));
        assert(locals.flatten().to_multiset() == locals[0].to_multiset().add(
            rl.flatten().to_multiset(),
        ));
        assert(accs.flatten().to_multiset() == accs[0].to_multiset().add(
            ra.flatten().to_multiset(),
        ));
        assert(locals.flatten().to_multiset().subset_of(accs.flatten().to_multiset()));
        assert(locals[0].to_multiset().len() == locals[0].len());
        assert(accs[0].to_multiset().len() == accs[0].len());
        lemma_subset_len(locals[0].to_multiset(), accs[0].to_multiset());
        if locals.flatten().len() < k {
            assert(locals[0].len() <= locals.flatten().len());
            assert(locals[0].len() < k);
            assert(locals[0].len() == accs[0].len());
            assert(locals[0].to_multiset() == accs[0].to_multiset());
            assert(rl.flatten().len() < k);
            assert(locals.flatten().to_multiset() =~= accs.flatten().to_multiset());
        }
    }
}

proof fn lemma_merge_pick(
    accs: Seq<Seq<CandidateView>>,
    locals: Seq<Seq<CandidateView>>,
    k: int,
    c: CandidateView,
)
    requires
        accs.len() == locals.len(),
        accs.flatten().to_multiset().count(c) > locals.flatten().to_multiset().count(c),
    ensures
        exists|i: int|
            0 <= i < accs.len() && #[trigger] accs[i].to_multiset().count(c)
                > locals[i].to_multiset().count(c) && locals[i].to_multiset().subset_of(
                locals.flatten().to_multiset(),
            ),
    decreases accs.len(),
{
    if accs.len() == 0 {
        assert(locals.flatten() =~= Seq::<CandidateView>::empty());
        assert(accs.flatten() =~= Seq::<CandidateView>::empty());
    } else {
        let ra = accs.drop_first();
        let rl = locals.drop_first();
        assert(locals.flatten() == locals[0] + rl.flatten());
        assert(accs.flatten() == accs[0] + ra.flatten());
        assert(locals.flatten().to_multiset() == locals[0].to_multiset().add(
            rl.flatten().to_multiset(),
        ));
        assert(accs.flatten().to_multiset() == accs[0].to_multiset().add(
            ra.flatten().to_multiset(),
        ));
        if accs[0].to_multiset().count(c) > locals[0].to_multiset().count(c) {
            assert(accs[0].to_multiset().count(c) > locals[0].to_multiset().count(c)
                && locals[0].to_multiset().subset_of(locals.flatten().to_multiset()));
        } else {
            lemma_merge_pick(ra, rl, k, c);
            let i = choose|i: int|
                0 <= i < ra.len() && #[trigger] ra[i].to_multiset().count(c)
                    > rl[i].to_multiset().count(c) && rl[i].to_multiset().subset_of(
                    rl.flatten().to_multiset(),
                );
            assert(accs[i + 1] == ra[i] && locals[i + 1] == rl[i]);
            assert(accs[i + 1].to_multiset().count(c) > locals[i + 1].to_multiset().count(c)
                && locals[i + 1].to_multiset().subset_of(locals.flatten().to_multiset()));
        }
    }
}

/// The two-stage scan is lossless: when each worker returns a top-`k`
/// of its own accepted chunk and the merge step takes a top-`k` of the
/// concatenated worker results, the outcome is a top-`k` of the whole
/// accepted set — exactly what a single sequential ranking yields.
pub proof fn lemma_topk_merge(
    accs: Seq<Seq<CandidateView>>,
    locals: Seq<Seq<CandidateView>>,
    merged: Seq<CandidateView>,
    k: int,
)
    requires
        k >= 0,
        accs.len() == locals.len(),
        forall|i: int| 0 <= i < accs.len() ==> is_topk(#[trigger] accs[i], locals[i], k),
        is_topk(locals.flatten(), merged, k),
    ensures
        is_topk(accs.flatten(), merged, k),
{
    let fl = locals.flatten();
    let fa = accs.flatten();
    lemma_merge_aux(accs, locals, k);
    assert(fl.to_multiset().len() == fl.len());
    assert(fa.to_multiset().len() == fa.len());
    assert(merged.to_multiset().len() == merged.len());
    // result length
    if fl.len() < k {
        assert(fl.to_multiset() == fa.to_multiset());
        assert(fl.len() == fa.len());
    }
    // drawn from the global accepted set
    assert(merged.to_multiset().subset_of(fa.to_multiset()));
    // keeping everything keeps the whole multiset
    if merged.len() == fa.len() {
        assert(fl.len() == fa.len());
        assert(merged.to_multiset() == fl.to_multiset());
        lemma_subset_equal_len(fl.to_multiset(), fa.to_multiset());
    }
    // dominance
    assert forall|c: CandidateView|
        #[trigger] fa.to_multiset().count(c) > merged.to_multiset().count(c) implies lower_bound(
        merged,
        c.similarity,
    ) by {
        if fl.to_multiset().count(c) > merged.to_multiset().count(c) {
            assert(lower_bound(merged, c.similarity));
        } else {
            assert(fa.to_multiset().count(c) > fl.to_multiset().count(c));
            lemma_merge_pick(accs, locals, k, c);
            let i = choose|i: int|
                0 <= i < accs.len() && #[trigger] accs[i].to_multiset().count(c)
                    > locals[i].to_multiset().count(c) && locals[i].to_multiset().subset_of(
                    fl.to_multiset(),
                );
            let ai = accs[i];
            let li = locals[i];
            assert(is_topk(ai, li, k));
            assert(lower_bound(li, c.similarity));
            assert(li.to_multiset().len() == li.len());
            assert(ai.to_multiset().len() == ai.len());
            if li.len() == ai.len() {
                assert(li.to_multiset() == ai.to_multiset());
                assert(false);
            }
            assert(li.len() == k);
            lemma_subset_len(li.to_multiset(), fl.to_multiset());
            assert(fl.len() >= k);
            assert(merged.len() == k);
            assert forall|j: int| 0 <= j < merged.len() implies #[trigger] merged[j].similarity
                >= c.similarity by {
                if merged[j].similarity < c.similarity {
                    let mj = merged[j];
                    assert(merged.contains(mj));
                    assert(merged.to_multiset().count(mj) > 0);
                    if li.to_multiset().subset_of(merged.to_multiset()) {
                        assert(li.to_multiset().count(mj) == 0) by {
                            if li.to_multiset().count(mj) > 0 {
                                assert(li.contains(mj));
                                let idx = choose|idx: int|
                                    0 <= idx < li.len() && li[idx] == mj;
                                assert(li[idx].similarity >= c.similarity);
                                assert(false);
                            }
                        }
                        let m2 = li.to_multiset().insert(mj);
                        assert(m2.subset_of(merged.to_multiset()));
                        lemma_subset_len(m2, merged.to_multiset());
                        assert(m2.len() == li.to_multiset().len() + 1);
                        assert(false);
                    } else {
                        let v = choose|v: CandidateView|
                            li.to_multiset().count(v) > #[trigger] merged.to_multiset().count(v);
                        assert(fl.to_multiset().count(v) >= li.to_multiset().count(v));
                        assert(fl.to_multiset().count(v) > merged.to_multiset().count(v));
                        assert(lower_bound(merged, v.similarity));
                        assert(li.to_multiset().count(v) > 0);
                        assert(li.contains(v));
                        let idx = choose|idx: int| 0 <= idx < li.len() && li[idx] == v;
                        assert(li[idx].similarity >= c.similarity);
                        assert(merged[j].similarity >= v.similarity);
                        assert(false);
                    }
                }
            }
        }
    }
}

/// Ranks like [`cmp_with_arr`], but in two stages: the candidate list is
/// cut into contiguous chunks of `ceil(n / workers)`, each chunk is
/// ranked on its own (a chunk with no accepted candidate contributes
/// nothing), and the concatenated chunk winners are ranked again.  The
/// merge theorem [`lemma_topk_merge`] makes the result a top-`k` of the
/// whole accepted set, as the sequential ranking returns.
pub fn fast_cmp_with_arr(candidates: &Vec<String>, text: &Text, cfg: &Config) -> (r: SimResult)
    requires
        cfg.wf(),
    ensures
        ({
            let acc = accepted_views(views_of(candidates@), text.cleaned@, *cfg);
            &&& (r matches Ok(v) ==> is_topk(acc, cand_views(v@), cfg.num_to_keep as int))
            &&& (r is Err ==> r == Err::<Vec<Candidate>, Error>(Error::NotFound))
            &&& (cfg.num_to_keep >= 1 ==> (r is Err <==> acc.len() == 0))
        }),
{
    let ghost tkey = text.cleaned@;
    let q = candidates.len() / cfg.num_of_threads;
    let chunk_size = if q == usize::MAX {
        q
    } else {
        q + 1
    };
    let mut collected: Vec<Candidate> = Vec::new();
    let ghost mut gaccs: Seq<Seq<CandidateView>> = Seq::empty();
    let ghost mut glocals: Seq<Seq<CandidateView>> = Seq::empty();
    let mut i: usize = 0;
    proof {
        assert(glocals.flatten() =~= cand_views(collected@));
        assert(views_of(candidates@.take(0)) =~= Seq::<Seq<char>>::empty());
        assert(gaccs.flatten() =~= accepted_views(views_of(candidates@.take(0)), tkey, *cfg));
    }
    while i < candidates.len()
        invariant
            1 <= chunk_size,
            i <= candidates@.len(),
            tkey == text.cleaned@,
            gaccs.len() == glocals.len(),
            forall|t: int|
                0 <= t < gaccs.len() ==> is_topk(
                    #[trigger] gaccs[t],
                    glocals[t],
                    cfg.num_to_keep as int,
                ),
            glocals.flatten() == cand_views(collected@),
            gaccs.flatten() == accepted_views(views_of(candidates@.take(i as int)), tkey, *cfg),
        decreases candidates@.len() - i,
    {
        let end = if candidates.len() - i <= chunk_size {
            candidates.len()
        } else {
            i + chunk_size
        };
        let mut chunk: Vec<String> = Vec::new();
        let mut j = i;
        while j < end
            invariant
                i <= j <= end,
                end <= candidates@.len(),
                chunk@.len() == j - i,
                forall|t: int|
                    0 <= t < chunk@.len() ==> #[trigger] chunk@[t]@ == candidates@[i + t]@,
            decreases end - j,
        {
            chunk.push(candidates[j].clone());
            j = j + 1;
        }
        proof {
            assert(views_of(chunk@) =~= views_of(candidates@.subrange(i as int, end as int)));
        }
        let ghost chunk_acc = accepted_views(views_of(chunk@), tkey, *cfg);
        let ghost old_collected = collected@;
        let ghost old_gaccs = gaccs;
        let ghost old_glocals = glocals;
        let ghost mut lelem: Seq<CandidateView> = Seq::empty();
        let local = cmp_with_arr(&chunk, text, cfg);
        match local {
            Ok(v) => {
                let ghost vv = v@;
                let mut v = v;
                collected.append(&mut v);
                proof {
                    lelem = cand_views(vv);
                    gaccs = gaccs.push(chunk_acc);
                    glocals = glocals.push(lelem);
                    assert(is_topk(chunk_acc, lelem, cfg.num_to_keep as int));
                }
            },
            Err(_) => {
                proof {
                    gaccs = gaccs.push(chunk_acc);
                    glocals = glocals.push(lelem);
                    assert(chunk_acc.len() == 0);
                    assert(is_topk(chunk_acc, lelem, cfg.num_to_keep as int)) by {
                        assert(lelem.to_multiset() =~= Multiset::<CandidateView>::empty());
                        assert(chunk_acc.to_multiset().len() == chunk_acc.len());
                        vstd::multiset::lemma_multiset_empty_len::<CandidateView>(
                            chunk_acc.to_multiset(),
                        );
                        assert(chunk_acc.to_multiset() =~= Multiset::<CandidateView>::empty());
                    }
                }
            },
        }
        proof {
            old_gaccs.lemma_flatten_push(chunk_acc);
            old_glocals.lemma_flatten_push(lelem);
            assert(gaccs.flatten() == old_gaccs.flatten() + chunk_acc);
            assert(glocals.flatten() == old_glocals.flatten() + lelem);
            assert(cand_views(collected@) =~= cand_views(old_collected) + lelem);
            lemma_accepted_append(
                views_of(candidates@.take(i as int)),
                views_of(candidates@.subrange(i as int, end as int)),
                tkey,
                *cfg,
            );
            assert(views_of(candidates@.take(i as int)) + views_of(
                candidates@.subrange(i as int, end as int),
            ) =~= views_of(candidates@.take(end as int)));
            assert(gaccs.flatten() == accepted_views(
                views_of(candidates@.take(end as int)),
                tkey,
                *cfg,
            ));
        }
        i = end;
    }
    proof {
        assert(candidates@.take(candidates@.len() as int) =~= candidates@);
    }
    let ghost acc = accepted_views(views_of(candidates@), tkey, *cfg);
    let r = try_sort_and_keep(collected, cfg.num_to_keep);
    proof {
        lemma_merge_aux(gaccs, glocals, cfg.num_to_keep as int);
        if r is Ok {
            lemma_topk_merge(gaccs, glocals, cand_views(r->Ok_0@), cfg.num_to_keep as int);
        } else {
            if cfg.num_to_keep >= 1 {
                assert(glocals.flatten().len() == 0);
                if acc.len() > 0 {
                    assert(glocals.flatten().len() < cfg.num_to_keep as int);
                    assert(glocals.flatten().to_multiset() == gaccs.flatten().to_multiset());
                    assert(gaccs.flatten().to_multiset().len() == gaccs.flatten().len());
                    assert(glocals.flatten().to_multiset().len() == 0);
                    assert(false);
                }
            }
        }
        if cfg.num_to_keep >= 1 && acc.len() == 0 {
            assert(glocals.flatten().len() <= gaccs.flatten().len());
            assert(cand_views(collected@).len() == 0);
        }
    }
    r
}

/// The flattened views of a list of partial results.
pub open spec fn partial_views(p: Seq<Vec<Candidate>>) -> Seq<CandidateView> {
    p.map_values(|v: Vec<Candidate>| cand_views(v@)).flatten()
}

/// Merges the partial results of independent workers into the global
/// top-`num_to_keep`, exactly as the sequential ranking of their
/// concatenation; `NotFound` when every worker came back empty.
pub fn merge_partials(partials: Vec<Vec<Candidate>>, num_to_keep: usize) -> (r: SimResult)
    ensures
        r is Err <==> partial_views(partials@).len() == 0,
        r is Err ==> r == Err::<Vec<Candidate>, Error>(Error::NotFound),
        r matches Ok(v) ==> is_topk(partial_views(partials@), cand_views(v@), num_to_keep as int),
{
    let ghost orig = partials@;
    let mut rest = partials;
    let mut all: Vec<Candidate> = Vec::new();
    let ghost mut done: int = 0;
    proof {
        assert(orig.take(0).map_values(|v: Vec<Candidate>| cand_views(v@)) =~= Seq::<
            Seq<CandidateView>,
        >::empty());
        assert(cand_views(all@) =~= partial_views(orig.take(0)));
    }
    while rest.len() > 0
        invariant
            0 <= done <= orig.len(),
            rest@ == orig.skip(done),
            cand_views(all@) == partial_views(orig.take(done)),
        decreases rest@.len(),
    {
        let ghost old_all = all@;
        let mut head = rest.remove(0);
        let ghost hv = head@;
        all.append(&mut head);
        proof {
            assert(orig.skip(done).remove(0) =~= orig.skip(done + 1));
            assert(orig.skip(done)[0] == orig[done]);
            let m0 = orig.take(done).map_values(|v: Vec<Candidate>| cand_views(v@));
            let m1 = orig.take(done + 1).map_values(|v: Vec<Candidate>| cand_views(v@));
            assert(m1 =~= m0.push(cand_views(orig[done]@)));
            m0.lemma_flatten_push(cand_views(orig[done]@));
            assert(cand_views(all@) =~= cand_views(old_all) + cand_views(hv));
            assert(cand_views(hv) == cand_views(orig[done]@));
            done = done + 1;
        }
    }
    proof {
        assert(orig.take(orig.len() as int) =~= orig);
        assert(cand_views(all@).len() == partial_views(orig).len());
    }
    try_sort_and_keep(all, num_to_keep)
}

} // verus!
