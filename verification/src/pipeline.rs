//! The pipeline around probing: derive probe targets for the chosen
//! candidates, fold the probe outcomes into fitness scores, and rank.
//!
//! Probing itself — one timed network request per candidate, issued
//! concurrently with a per-request timeout, no retries — is I/O and is done by
//! the caller, who hands every candidate's outcome back in candidate order.
//! Results may complete in any order there; nothing here depends on
//! completion order, only on that stable candidate order.  A failed or timed
//! out probe is a `ProbeOutcome::Failed` and quietly drops its candidate:
//! partial success is the expected steady state.

use vstd::prelude::*;
use vstd::string::StringExecFns;
use crate::catalog::Config;
use crate::catalog::MirrorRecord;
use crate::catalog::ProbeOutcome;
use crate::catalog::MAX_INPUT_MILLI;
use crate::filter::Candidate;
use crate::rank::Scored;
use crate::rank::lemma_ranked_pos_bound;
use crate::rank::lemma_ranked_sub;
use crate::rank::rank_scored;
use crate::rank::ranked_spec;
use crate::score::score_spec;
use crate::score::weighted_score;

verus! {

/// The probe target: the base URL with the well-known repository resource
/// appended — exactly once.
pub open spec fn probe_target_spec(url: Seq<char>) -> Seq<char> {
    url + "core/os/x86_64/core.db.tar.gz"@
}

/// Build the URL to fetch when probing a mirror's latency.
pub fn probe_target(url: &str) -> (r: String)
    ensures
        r@ == probe_target_spec(url@),
{
    let mut s = url.to_owned();
    s.append("core/os/x86_64/core.db.tar.gz");
    s
}

/// One output line: the mirror-list directive with the path template the
/// downstream consumer expects (not the probe URL).
pub open spec fn mirror_line_spec(url: Seq<char>) -> Seq<char> {
    "Server = "@ + url + "$repo/os/$arch"@
}

/// Render one ranked mirror's output line.
pub fn mirror_line(url: &str) -> (r: String)
    ensures
        r@ == mirror_line_spec(url@),
{
    let mut s = "Server = ".to_owned();
    s.append(url);
    s.append("$repo/os/$arch");
    s
}

/// A mirror that survived ranking: its rendered mirror-list line and its
/// fitness.
#[derive(Debug)]
pub struct RankedMirror {
    pub line: String,
    pub fitness: u128,
}

/// The scores of the first `n` candidates: one `Scored` per successful probe,
/// in candidate order; failed probes contribute nothing.
pub open spec fn scored_prefix(cands: Seq<Candidate>, outs: Seq<ProbeOutcome>, n: int) -> Seq<
    Scored,
>
    decreases n,
{
    if n <= 0 {
        Seq::empty()
    } else {
        let pre = scored_prefix(cands, outs, n - 1);
        match outs[n - 1] {
            ProbeOutcome::Latency(ms) => pre.push(
                Scored {
                    pos: cands[n - 1].pos,
                    fitness: score_spec(cands[n - 1].reliability_milli as int, ms as int) as u128,
                },
            ),
            ProbeOutcome::Failed => pre,
        }
    }
}

/// The scores of all candidates whose probe succeeded, in candidate order.
pub open spec fn scored_spec(cands: Seq<Candidate>, outs: Seq<ProbeOutcome>) -> Seq<Scored> {
    scored_prefix(cands, outs, outs.len() as int)
}

/// Score every successfully probed candidate; candidates whose probe failed
/// are dropped here, never scored with a sentinel latency.
pub fn score_outcomes(cands: &Vec<Candidate>, outcomes: &Vec<ProbeOutcome>) -> (out: Vec<Scored>)
    requires
        cands@.len() == outcomes@.len(),
        forall|k: int|
            0 <= k < cands@.len() ==> (#[trigger] cands@[k]).reliability_milli <= MAX_INPUT_MILLI,
        forall|k: int|
            0 <= k < outcomes@.len() ==> ((#[trigger] outcomes@[k]) matches ProbeOutcome::Latency(
                ms,
            ) ==> ms <= MAX_INPUT_MILLI),
    ensures
        out@ == scored_spec(cands@, outcomes@),
{
    let mut out: Vec<Scored> = Vec::new();
    let n: usize = outcomes.len();
    let mut i: usize = 0;
    while i < n
        invariant
            n == outcomes@.len(),
            n == cands@.len(),
            0 <= i <= n,
            forall|k: int|
                0 <= k < cands@.len() ==> (#[trigger] cands@[k]).reliability_milli
                    <= MAX_INPUT_MILLI,
            forall|k: int|
                0 <= k < outcomes@.len() ==> ((#[trigger] outcomes@[k]) matches
                ProbeOutcome::Latency(ms) ==> ms <= MAX_INPUT_MILLI),
            out@ == scored_prefix(cands@, outcomes@, i as int),
        decreases n - i,
    {
        match outcomes[i] {
            ProbeOutcome::Latency(ms) => {
                let fitness = weighted_score(cands[i].reliability_milli, ms);
                out.push(Scored { pos: cands[i].pos, fitness });
            },
            ProbeOutcome::Failed => {},
        }
        i = i + 1;
    }
    out
}

/// Candidate positions bound the scored positions.
pub proof fn lemma_scored_prefix_pos(
    cands: Seq<Candidate>,
    outs: Seq<ProbeOutcome>,
    n: int,
    bound: int,
)
    requires
        n <= cands.len(),
        n <= outs.len(),
        forall|j: int| 0 <= j < cands.len() ==> (#[trigger] cands[j]).pos < bound,
    ensures
        forall|i: int|
            0 <= i < scored_prefix(cands, outs, n).len() ==> (#[trigger] scored_prefix(
                cands,
                outs,
                n,
            )[i]).pos < bound,
    decreases n,
{
    if n > 0 {
        lemma_scored_prefix_pos(cands, outs, n - 1, bound);
        let sp = scored_prefix(cands, outs, n);
        let pre = scored_prefix(cands, outs, n - 1);
        match outs[n - 1] {
            ProbeOutcome::Latency(ms) => {
                assert(sp == pre.push(
                    Scored {
                        pos: cands[n - 1].pos,
                        fitness: score_spec(
                            cands[n - 1].reliability_milli as int,
                            ms as int,
                        ) as u128,
                    },
                ));
                assert(cands[n - 1].pos < bound);
                assert forall|i: int| 0 <= i < sp.len() implies (#[trigger] sp[i]).pos < bound by {
                    if i < pre.len() {
                        assert(sp[i] == pre[i]);
                    }
                }
            },
            ProbeOutcome::Failed => {
                assert(sp == pre);
            },
        }
    }
}

/// Every scored entry traces back to a candidate whose probe succeeded.
pub proof fn lemma_scored_prefix_elements(cands: Seq<Candidate>, outs: Seq<ProbeOutcome>, n: int)
    requires
        n <= cands.len(),
        n <= outs.len(),
    ensures
        forall|t: int|
            0 <= t < scored_prefix(cands, outs, n).len() ==> exists|j: int|
                0 <= j < n && outs[j] is Latency && (#[trigger] scored_prefix(cands, outs, n)[t]).pos
                    == cands[j].pos,
    decreases n,
{
    if n > 0 {
        lemma_scored_prefix_elements(cands, outs, n - 1);
        let sp = scored_prefix(cands, outs, n);
        let pre = scored_prefix(cands, outs, n - 1);
        match outs[n - 1] {
            ProbeOutcome::Latency(ms) => {
                assert(sp == pre.push(
                    Scored {
                        pos: cands[n - 1].pos,
                        fitness: score_spec(
                            cands[n - 1].reliability_milli as int,
                            ms as int,
                        ) as u128,
                    },
                ));
            },
            ProbeOutcome::Failed => {
                assert(sp == pre);
            },
        }
        assert forall|t: int| 0 <= t < sp.len() implies exists|j: int|
            0 <= j < n && outs[j] is Latency && (#[trigger] sp[t]).pos == cands[j].pos by {
            if t < pre.len() {
                assert(sp[t] == pre[t]);
                let j = choose|j: int|
                    0 <= j < n - 1 && outs[j] is Latency && (#[trigger] pre[t]).pos == cands[j].pos;
                assert(0 <= j < n && outs[j] is Latency && sp[t].pos == cands[j].pos);
            } else {
                assert(outs[n - 1] is Latency && sp[t].pos == cands[n - 1].pos);
            }
        }
    }
}

/// Scoring keeps the candidates' strictly ascending catalog order, so the
/// ranked list's tie-breaking by position reproduces catalog order exactly.
pub proof fn lemma_scored_prefix_increasing(cands: Seq<Candidate>, outs: Seq<ProbeOutcome>, n: int)
    requires
        n <= cands.len(),
        n <= outs.len(),
        forall|j1: int, j2: int|
            0 <= j1 < j2 < cands.len() ==> (#[trigger] cands[j1]).pos < (#[trigger] cands[j2]).pos,
    ensures
        forall|t1: int, t2: int|
            0 <= t1 < t2 < scored_prefix(cands, outs, n).len() ==> (#[trigger] scored_prefix(
                cands,
                outs,
                n,
            )[t1]).pos < (#[trigger] scored_prefix(cands, outs, n)[t2]).pos,
    decreases n,
{
    if n > 0 {
        lemma_scored_prefix_increasing(cands, outs, n - 1);
        lemma_scored_prefix_elements(cands, outs, n - 1);
        let sp = scored_prefix(cands, outs, n);
        let pre = scored_prefix(cands, outs, n - 1);
        match outs[n - 1] {
            ProbeOutcome::Latency(ms) => {
                assert(sp == pre.push(
                    Scored {
                        pos: cands[n - 1].pos,
                        fitness: score_spec(
                            cands[n - 1].reliability_milli as int,
                            ms as int,
                        ) as u128,
                    },
                ));
                assert forall|t1: int, t2: int| 0 <= t1 < t2 < sp.len() implies (
                #[trigger] sp[t1]).pos < (#[trigger] sp[t2]).pos by {
                    if t2 < pre.len() {
                        assert(sp[t1] == pre[t1] && sp[t2] == pre[t2]);
                    } else {
                        assert(sp[t1] == pre[t1]);
                        let j = choose|j: int|
                            0 <= j < n - 1 && outs[j] is Latency && (#[trigger] pre[t1]).pos
                                == cands[j].pos;
                        assert(cands[j].pos < cands[n - 1].pos);
                    }
                }
            },
            ProbeOutcome::Failed => {
                assert(sp == pre);
            },
        }
    }
}

/// Scoring ignores everything up to a removed candidate alike.
proof fn lemma_scored_prefix_eq_below(
    cands: Seq<Candidate>,
    outs: Seq<ProbeOutcome>,
    i: int,
    n: int,
)
    requires
        0 <= i < cands.len(),
        cands.len() == outs.len(),
        0 <= n <= i,
    ensures
        scored_prefix(cands.remove(i), outs.remove(i), n) == scored_prefix(cands, outs, n),
    decreases n,
{
    if n > 0 {
        lemma_scored_prefix_eq_below(cands, outs, i, n - 1);
        assert(outs.remove(i)[n - 1] == outs[n - 1]);
        assert(cands.remove(i)[n - 1] == cands[n - 1]);
    }
}

/// A failed probe contributes nothing: the scores are the same as if the
/// candidate had not been probed at all.
pub proof fn lemma_failed_probe_dropped(cands: Seq<Candidate>, outs: Seq<ProbeOutcome>, i: int)
    requires
        cands.len() == outs.len(),
        0 <= i < outs.len(),
        outs[i] is Failed,
    ensures
        scored_spec(cands, outs) == scored_spec(cands.remove(i), outs.remove(i)),
{
    lemma_scored_prefix_remove(cands, outs, i, outs.len() as int);
}

proof fn lemma_scored_prefix_remove(cands: Seq<Candidate>, outs: Seq<ProbeOutcome>, i: int, n: int)
    requires
        cands.len() == outs.len(),
        0 <= i < outs.len(),
        outs[i] is Failed,
        i < n <= outs.len(),
    ensures
        scored_prefix(cands, outs, n) == scored_prefix(cands.remove(i), outs.remove(i), n - 1),
    decreases n,
{
    if n - 1 == i {
        lemma_scored_prefix_eq_below(cands, outs, i, i);
    } else {
        lemma_scored_prefix_remove(cands, outs, i, n - 1);
        assert(outs.remove(i)[n - 2] == outs[n - 1]);
        assert(cands.remove(i)[n - 2] == cands[n - 1]);
    }
}

/// A candidate whose probe failed — timed out or errored — never appears in
/// the ranked output, and its absence does not alter the ranking of the
/// others: the output equals the output for the candidate set without it.
pub proof fn lemma_failed_probe_invisible(
    cands: Seq<Candidate>,
    outs: Seq<ProbeOutcome>,
    i: int,
    threshold: u128,
)
    requires
        cands.len() == outs.len(),
        0 <= i < outs.len(),
        outs[i] is Failed,
        forall|j1: int, j2: int|
            0 <= j1 < j2 < cands.len() ==> (#[trigger] cands[j1]).pos != (#[trigger] cands[j2]).pos,
    ensures
        ranked_spec(scored_spec(cands, outs), threshold) == ranked_spec(
            scored_spec(cands.remove(i), outs.remove(i)),
            threshold,
        ),
        forall|k: int|
            0 <= k < ranked_spec(scored_spec(cands, outs), threshold).len() ==> (
            #[trigger] ranked_spec(scored_spec(cands, outs), threshold)[k]).pos != cands[i].pos,
{
    lemma_failed_probe_dropped(cands, outs, i);
    let s = scored_spec(cands, outs);
    let r = ranked_spec(s, threshold);
    lemma_ranked_sub(s, threshold);
    lemma_scored_prefix_elements(cands, outs, outs.len() as int);
    assert forall|k: int| 0 <= k < r.len() implies (#[trigger] r[k]).pos != cands[i].pos by {
        assert(s.contains(r[k]));
        let t = choose|t: int| 0 <= t < s.len() && s[t] == r[k];
        let j = choose|j: int|
            0 <= j < outs.len() && outs[j] is Latency && (#[trigger] s[t]).pos == cands[j].pos;
        assert(j != i);
    }
}

/// Full pipeline after probing: score the successful outcomes, drop the
/// candidates at or below the acceptance threshold, sort by descending
/// fitness with ties in catalog order, and render one mirror-list line per
/// survivor.  The output is pinned exactly by `ranked_spec` over
/// `scored_spec`, so the same outcomes always yield the same list, in rank
/// order.
pub fn rank_mirrors(
    catalog: &Vec<MirrorRecord>,
    cands: &Vec<Candidate>,
    outcomes: &Vec<ProbeOutcome>,
    cfg: &Config,
) -> (out: Vec<RankedMirror>)
    requires
        cands@.len() == outcomes@.len(),
        forall|k: int|
            0 <= k < cands@.len() ==> (#[trigger] cands@[k]).pos < catalog@.len()
                && cands@[k].reliability_milli <= MAX_INPUT_MILLI,
        forall|k: int|
            0 <= k < outcomes@.len() ==> ((#[trigger] outcomes@[k]) matches ProbeOutcome::Latency(
                ms,
            ) ==> ms <= MAX_INPUT_MILLI),
    ensures
        out@.len() == ranked_spec(scored_spec(cands@, outcomes@), cfg.threshold).len(),
        forall|k: int|
            0 <= k < out@.len() ==> (#[trigger] out@[k]).fitness == ranked_spec(
                scored_spec(cands@, outcomes@),
                cfg.threshold,
            )[k].fitness && out@[k].line@ == mirror_line_spec(
                catalog@[ranked_spec(scored_spec(cands@, outcomes@), cfg.threshold)[k].pos as int].url@,
            ),
{
    let scored = score_outcomes(cands, outcomes);
    let ranked = rank_scored(&scored, cfg.threshold);
    proof {
        lemma_scored_prefix_pos(
            cands@,
            outcomes@,
            outcomes@.len() as int,
            catalog@.len() as int,
        );
        lemma_ranked_pos_bound(scored@, cfg.threshold, catalog@.len() as int);
    }
    render_ranked(catalog, &ranked)
}

/// Render each ranked candidate as its mirror-list line, keeping rank order.
pub fn render_ranked(catalog: &Vec<MirrorRecord>, ranked: &Vec<Scored>) -> (out: Vec<RankedMirror>)
    requires
        forall|k: int| 0 <= k < ranked@.len() ==> (#[trigger] ranked@[k]).pos < catalog@.len(),
    ensures
        out@.len() == ranked@.len(),
        forall|k: int|
            0 <= k < out@.len() ==> (#[trigger] out@[k]).fitness == ranked@[k].fitness
                && out@[k].line@ == mirror_line_spec(catalog@[ranked@[k].pos as int].url@),
{
    let mut out: Vec<RankedMirror> = Vec::new();
    let n: usize = ranked.len();
    let mut i: usize = 0;
    while i < n
        invariant
            n == ranked@.len(),
            0 <= i <= n,
            forall|k: int| 0 <= k < ranked@.len() ==> (#[trigger] ranked@[k]).pos < catalog@.len(),
            out@.len() == i,
            forall|k: int|
                0 <= k < i ==> (#[trigger] out@[k]).fitness == ranked@[k].fitness
                    && out@[k].line@ == mirror_line_spec(catalog@[ranked@[k].pos as int].url@),
        decreases n - i,
    {
        let s = ranked[i];
        let line = mirror_line(catalog[s.pos].url.as_str());
        out.push(RankedMirror { line, fitness: s.fitness });
        i = i + 1;
    }
    out
}

} // verus!
