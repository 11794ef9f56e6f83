//! Windowed gapped rescoring of ungapped hits.
use vstd::prelude::*;
use bio::alignment::pairwise::{Aligner, Scoring as PairScoring};
use crate::database::Database;
use crate::index::ProteinId;
use crate::rank::{is_top_ranking, top_ranked};
use crate::ungapped::ExtensionResult;

verus! {

/// Gap-open penalty of the rescoring alignment.
pub const GAP_OPEN: i32 = -10;

/// Gap-extend penalty of the rescoring alignment.
pub const GAP_EXTEND: i32 = -1;

/// Match score of the rescoring alignment.
pub const SW_MATCH: i32 = 1;

/// Mismatch score of the rescoring alignment.
pub const SW_MISMATCH: i32 = -1;

/// Largest magnitude of a score or penalty that `align_sw` accepts.
pub const MAX_ALIGN_SCORE: i32 = 1000;

/// Longest sequence that `align_sw` accepts: with scores of at most
/// `MAX_ALIGN_SCORE`, every intermediate score stays far inside `i32`.
pub const MAX_ALIGN_LEN: usize = 1000000;

/// Score of the best local alignment of `x` and `y` with affine gaps.
pub uninterp spec fn sw_local_score(
    x: Seq<u8>,
    y: Seq<u8>,
    gap_open: i32,
    gap_extend: i32,
    match_score: i32,
    mismatch_score: i32,
) -> i32;

/// Relies on bio's `Aligner::local` under `Scoring::from_scores`: the score of
/// the best local alignment, a function of the arguments alone. Those two
/// panic on a positive gap penalty, a negative match score or a positive
/// mismatch score, and the dynamic programme adds penalties to `MIN_SCORE`
/// (about `0.4 * i32::MIN`) and multiplies the gap-extend penalty by the
/// sequence length in `i32`, so scores and lengths are bounded here.
#[verifier::external_body]
pub fn align_sw(
    query: &[u8],
    target: &[u8],
    gap_open: i32,
    gap_extend: i32,
    match_score: i32,
    mismatch_score: i32,
) -> (r: i32)
    requires
        -MAX_ALIGN_SCORE <= gap_open <= 0,
        -MAX_ALIGN_SCORE <= gap_extend <= 0,
        0 <= match_score <= MAX_ALIGN_SCORE,
        -MAX_ALIGN_SCORE <= mismatch_score <= 0,
        query@.len() <= MAX_ALIGN_LEN,
        target@.len() <= MAX_ALIGN_LEN,
    ensures
        r == sw_local_score(query@, target@, gap_open, gap_extend, match_score, mismatch_score),
{
    let scoring = PairScoring::from_scores(gap_open, gap_extend, match_score, mismatch_score);
    let mut aligner = Aligner::with_scoring(scoring);
    aligner.local(query, target).score
}

/// `(start, end)` of the window of `radius` around `center` in a sequence of
/// length `len`: `start = max(0, center - radius)`, `end = min(len, center +
/// radius)`, and `start` never past `end`.
pub open spec fn window_range(len: int, center: int, radius: int) -> (int, int) {
    let end = if center + radius <= len { center + radius } else { len };
    let lo = if center >= radius { center - radius } else { 0 };
    (if lo <= end { lo } else { end }, end)
}

/// The window of `radius` around `center_pos`, borrowed, and its start.
pub fn extract_window(full_seq: &[u8], center_pos: usize, radius: usize) -> (r: (&[u8], usize))
    ensures
        ({
            let w = window_range(full_seq@.len() as int, center_pos as int, radius as int);
            r.1 == w.0 && r.0@ == full_seq@.subrange(w.0, w.1)
        }),
{
    let len = full_seq.len();
    let end = if center_pos <= len && radius <= len - center_pos { center_pos + radius } else { len };
    let lo = if center_pos >= radius { center_pos - radius } else { 0 };
    let start = if lo <= end { lo } else { end };
    (&full_seq[start..end], start)
}

/// Midpoint of an inclusive span, rounded down.
pub open spec fn center(a: int, b: int) -> int {
    (a + b) / 2
}

fn midpoint(a: usize, b: usize) -> (r: usize)
    ensures
        r == center(a as int, b as int),
{
    ((a as u128 + b as u128) / 2) as usize
}

/// Every query window of `radius` is short enough for `align_sw`.
pub open spec fn window_fits(query_len: nat, radius: nat) -> bool {
    query_len <= MAX_ALIGN_LEN || radius <= MAX_ALIGN_LEN / 2
}

/// Gapped score of hit `h` against the residues `target`: the two windows of
/// `radius` around the centres of its query and target spans, aligned locally.
pub open spec fn window_score(query: Seq<u8>, target: Seq<u8>, h: ExtensionResult, radius: int) -> i32 {
    let qw = window_range(query.len() as int, center(h.q_start as int, h.q_end as int), radius);
    let tw = window_range(target.len() as int, center(h.t_start as int, h.t_end as int), radius);
    sw_local_score(query.subrange(qw.0, qw.1), target.subrange(tw.0, tw.1), GAP_OPEN, GAP_EXTEND, SW_MATCH, SW_MISMATCH)
}

/// Gapped scores of the first `budget` hits whose target is in `seqs`, in hit order.
pub open spec fn rescored(query: Seq<u8>, hits: Seq<(ProteinId, ExtensionResult)>, seqs: Seq<Seq<u8>>, radius: int) -> Seq<(ProteinId, i32)>
    decreases hits.len(),
{
    if hits.len() == 0 {
        Seq::empty()
    } else {
        let prev = rescored(query, hits.drop_last(), seqs, radius);
        let h = hits.last();
        if (h.0 as int) < seqs.len() {
            prev.push((h.0, window_score(query, seqs[h.0 as int], h.1, radius)))
        } else {
            prev
        }
    }
}

/// Ranking keys of rescored hits: score, then target id.
pub open spec fn score_keys(s: Seq<(ProteinId, i32)>) -> Seq<(i128, u32)> {
    s.map_values(|e: (ProteinId, i32)| (e.1 as i128, e.0))
}

/// `r` is `all` ranked by score, then target id, then position in `all`.
pub open spec fn ranked_scores(all: Seq<(ProteinId, i32)>, r: Seq<(ProteinId, i32)>) -> bool {
    exists|order: Seq<usize>|
        is_top_ranking(score_keys(all), all.len(), order) && r == order.map_values(|i: usize| all[i as int])
}

/// Rescores the first `budget` hits with a gapped local alignment of the windows
/// of `radius` around the centres of their spans, and ranks them by the new
/// score (then by target id).
pub fn rescore_hits(
    query: &[u8],
    hits: &[(ProteinId, ExtensionResult)],
    db: &Database,
    radius: usize,
    budget: usize,
) -> (r: Vec<(ProteinId, i32)>)
    requires
        db.wf(),
        window_fits(query@.len(), radius as nat),
    ensures
        ranked_scores(
            rescored(query@, hits@.subrange(0, if budget <= hits@.len() { budget as int } else { hits@.len() as int }), db.seqs(), radius as int),
            r@,
        ),
{
    let m: usize = if budget <= hits.len() { budget } else { hits.len() };
    let ghost seqs = db.seqs();
    let mut scored: Vec<(ProteinId, i32)> = Vec::new();
    let mut i: usize = 0;
    while i < m
        invariant
            db.wf(),
            seqs == db.seqs(),
            window_fits(query@.len(), radius as nat),
            m <= hits@.len(),
            i <= m,
            scored@ == rescored(query@, hits@.subrange(0, i as int), seqs, radius as int),
        decreases m - i,
    {
        let (id, ext) = hits[i];
        assert(hits@.subrange(0, i + 1).drop_last() =~= hits@.subrange(0, i as int));
        match db.get(id as usize) {
            Some((_, target)) => {
                let qc = midpoint(ext.q_start, ext.q_end);
                let tc = midpoint(ext.t_start, ext.t_end);
                let (q_sub, _) = extract_window(query, qc, radius);
                let (t_sub, _) = extract_window(target, tc, radius);
                assert(q_sub@.len() <= MAX_ALIGN_LEN);
                assert(t_sub@.len() <= MAX_ALIGN_LEN);
                let score = align_sw(q_sub, t_sub, GAP_OPEN, GAP_EXTEND, SW_MATCH, SW_MISMATCH);
                scored.push((id, score));
            },
            None => {},
        }
        i += 1;
    }
    let mut keys: Vec<(i128, u32)> = Vec::new();
    let mut j: usize = 0;
    while j < scored.len()
        invariant
            j <= scored@.len(),
            keys@.len() == j,
            forall|t: int| 0 <= t < j ==> #[trigger] keys@[t] == score_keys(scored@)[t],
        decreases scored@.len() - j,
    {
        keys.push((scored[j].1 as i128, scored[j].0));
        j += 1;
    }
    assert(keys@ =~= score_keys(scored@));
    let order = top_ranked(&keys, scored.len());
    let mut out: Vec<(ProteinId, i32)> = Vec::new();
    let mut t: usize = 0;
    while t < order.len()
        invariant
            t <= order@.len(),
            is_top_ranking(keys@, scored@.len() as nat, order@),
            keys@.len() == scored@.len(),
            out@.len() == t,
            forall|u: int| 0 <= u < t ==> #[trigger] out@[u] == scored@[order@[u] as int],
        decreases order@.len() - t,
    {
        out.push(scored[order[t]]);
        t += 1;
    }
    assert(out@ =~= order@.map_values(|i: usize| scored@[i as int]));
    out
}

pub proof fn lemma_rescored_len(query: Seq<u8>, hits: Seq<(ProteinId, ExtensionResult)>, seqs: Seq<Seq<u8>>, radius: int)
    ensures
        rescored(query, hits, seqs, radius).len() <= hits.len(),
    decreases hits.len(),
{
    if hits.len() > 0 {
        lemma_rescored_len(query, hits.drop_last(), seqs, radius);
    }
}

/// Rescoring more hits of the same ranking keeps every rescored entry.
pub proof fn lemma_rescored_grows(query: Seq<u8>, hits: Seq<(ProteinId, ExtensionResult)>, seqs: Seq<Seq<u8>>, radius: int, i: int, j: int)
    requires
        0 <= i <= j <= hits.len(),
    ensures
        forall|e: (ProteinId, i32)| #[trigger] rescored(query, hits.subrange(0, i), seqs, radius).contains(e) ==> rescored(
            query,
            hits.subrange(0, j),
            seqs,
            radius,
        ).contains(e),
    decreases j - i,
{
    if i < j {
        lemma_rescored_grows(query, hits, seqs, radius, i, j - 1);
        let a = rescored(query, hits.subrange(0, j - 1), seqs, radius);
        let b = rescored(query, hits.subrange(0, j), seqs, radius);
        assert(hits.subrange(0, j).drop_last() =~= hits.subrange(0, j - 1));
        assert forall|e: (ProteinId, i32)| a.contains(e) implies b.contains(e) by {
            let k = choose|k: int| 0 <= k < a.len() && a[k] == e;
            assert(b[k] == e);
        }
    }
}

/// A full ranking holds exactly the entries it ranks.
pub proof fn lemma_ranked_scores_members(all: Seq<(ProteinId, i32)>, r: Seq<(ProteinId, i32)>)
    requires
        ranked_scores(all, r),
        all.len() <= usize::MAX,
    ensures
        r.len() == all.len(),
        forall|e: (ProteinId, i32)| #[trigger] all.contains(e) ==> r.contains(e),
        forall|e: (ProteinId, i32)| #[trigger] r.contains(e) ==> all.contains(e),
{
    let order = choose|order: Seq<usize>|
        is_top_ranking(score_keys(all), all.len(), order) && r == order.map_values(|i: usize| all[i as int]);
    assert forall|e: (ProteinId, i32)| #[trigger] all.contains(e) implies r.contains(e) by {
        let i = choose|i: int| 0 <= i < all.len() && all[i] == e;
        assert(order.contains(i as usize));
        let t = choose|t: int| 0 <= t < order.len() && order[t] == i as usize;
        assert(order[t] as int == i);
        assert(r[t] == e);
    }
    assert forall|e: (ProteinId, i32)| #[trigger] r.contains(e) implies all.contains(e) by {
        let t = choose|t: int| 0 <= t < r.len() && r[t] == e;
        assert(all[order[t] as int] == e);
    }
}

} // verus!
