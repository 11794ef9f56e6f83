//! The search pipeline: seeds, diagonal filter, ungapped extension and gapped
//! rescoring, with a budget per stage.
use vstd::prelude::*;
use crate::database::Database;
use crate::filter::{Candidate, find_candidate, is_candidate_list, lemma_candidate_list_unique};
use crate::index::{KmerIndex, ProteinId};
use crate::rescore::{window_fits, ranked_scores, rescore_hits, rescored, lemma_rescored_len, lemma_rescored_grows, lemma_ranked_scores_members};
use crate::spaced::SpacedIndex;
use crate::ungapped::{ExtensionResult, Scoring, is_refined, refine_ungapped, lemma_refined_prefix};
use crate::vote::is_vote_ranking;
use crate::alphabet::ones;

verus! {

/// How a query is searched.
#[derive(Debug, Clone, Copy, PartialEq, Eq)]
pub enum SearchMode {
    /// Seed voting per target.
    Basic,
    /// Seed voting per target and diagonal.
    Diagonal,
    /// Seed voting with spaced words.
    Spaced,
    /// Diagonal filter, ungapped extension, gapped rescoring.
    Auto,
}

/// Budgets and thresholds of one search.
#[derive(Debug, Clone, Copy)]
pub struct SearchParams {
    /// Length of the final ranking.
    pub n: usize,
    pub x_drop: i32,
    /// Seeds a diagonal needs for its target to become a candidate.
    pub min_support: usize,
    /// Candidates that are extended.
    pub extend_budget: usize,
    /// Extensions that are rescored.
    pub rescore_budget: usize,
    /// Half-width of the rescoring windows.
    pub radius: usize,
}

impl SearchParams {
    /// `n` results, `x_drop`, support 2, budgets 50 and 20, radius 60.
    pub fn with_defaults(n: usize, x_drop: i32) -> (r: SearchParams)
        ensures
            r.n == n && r.x_drop == x_drop && r.min_support == 2 && r.extend_budget == 50 && r.rescore_budget == 20
                && r.radius == 60,
    {
        SearchParams { n, x_drop, min_support: 2, extend_budget: 50, rescore_budget: 20, radius: 60 }
    }
}

/// A reported score: negative scores become zero.
pub open spec fn report(s: i32) -> u32 {
    if s < 0 { 0 } else { s as u32 }
}

/// The first `n` entries of a rescored ranking, as reported.
pub open spec fn reported(s: Seq<(ProteinId, i32)>, n: nat) -> Seq<(ProteinId, u32)> {
    s.subrange(0, if n <= s.len() { n as int } else { s.len() as int }).map_values(
        |e: (ProteinId, i32)| (e.0, report(e.1)),
    )
}

/// A candidate as reported: its support, capped at `u32::MAX`.
pub open spec fn candidate_entry(c: Candidate) -> (ProteinId, u32) {
    (c.id, if c.score <= u32::MAX { c.score as u32 } else { u32::MAX })
}

pub open spec fn prefix_len(len: nat, n: nat) -> int {
    if n <= len { n as int } else { len as int }
}

/// The full pipeline's answer for `query`: `r` is what `search_auto` returns
/// with the candidate list `c`, the extensions `e` and the rescored hits `s`.
pub open spec fn auto_stages(
    db: &Database,
    index: &KmerIndex,
    query: Seq<u8>,
    p: SearchParams,
    c: Seq<Candidate>,
    e: Seq<(ProteinId, ExtensionResult)>,
    s: Seq<(ProteinId, i32)>,
    r: Seq<(ProteinId, u32)>,
) -> bool {
    &&& is_candidate_list(index, query, p.min_support as nat, c)
    &&& is_refined(query, c, db.seqs(), Scoring { match_score: 1i32, mismatch_score: -1i32 }, p.x_drop as int, p.extend_budget as nat, e)
    &&& ranked_scores(rescored(query, e.subrange(0, prefix_len(e.len(), p.rescore_budget as nat)), db.seqs(), p.radius as int), s)
    &&& r == reported(s, p.n as nat)
}

fn report_exec(s: i32) -> (r: u32)
    ensures
        r == report(s),
{
    if s < 0 { 0 } else { s as u32 }
}

/// Full pipeline: candidates by diagonal support, the `extend_budget` best
/// ungapped extensions (match `+1`, mismatch `-1`), the `rescore_budget` best of
/// those rescored with a gapped alignment of windows, and the `n` best of those.
pub fn search_auto(db: &Database, index: &KmerIndex, query: &[u8], params: &SearchParams) -> (r: Vec<(ProteinId, u32)>)
    requires
        db.wf(),
        index.wf(),
        query@.len() <= i32::MAX,
        params.x_drop >= 0,
        window_fits(query@.len(), params.radius as nat),
    ensures
        exists|c: Seq<Candidate>, e: Seq<(ProteinId, ExtensionResult)>, s: Seq<(ProteinId, i32)>|
            auto_stages(db, index, query@, *params, c, e, s, r@),
{
    let candidates = find_candidate(index, query, params.min_support);
    let scoring = Scoring::default();
    assert(scoring.top() == 1);
    assert(scoring.fits(query@.len() as int));
    let ext = refine_ungapped(query, candidates.as_slice(), db, &scoring, params.x_drop, params.extend_budget);
    let scored = rescore_hits(query, ext.as_slice(), db, params.radius, params.rescore_budget);
    let m: usize = if params.n <= scored.len() { params.n } else { scored.len() };
    let mut out: Vec<(ProteinId, u32)> = Vec::new();
    let mut i: usize = 0;
    while i < m
        invariant
            m == prefix_len(scored@.len(), params.n as nat),
            i <= m,
            out@ == reported(scored@, i as nat),
        decreases m - i,
    {
        out.push((scored[i].0, report_exec(scored[i].1)));
        i += 1;
        assert(out@ =~= reported(scored@, i as nat));
    }
    assert(ext@.subrange(0, prefix_len(ext@.len(), params.rescore_budget as nat)) == ext@.subrange(
        0,
        if params.rescore_budget <= ext@.len() { params.rescore_budget as int } else { ext@.len() as int },
    ));
    assert(auto_stages(db, index, query@, *params, candidates@, ext@, scored@, out@));
    out
}

/// Parameters a search rejects before any work.
#[derive(Debug, Clone, Copy, PartialEq, Eq)]
pub enum SearchError {
    /// A negative X-drop.
    NegativeXDrop,
    /// `Spaced` mode without a spaced index.
    MissingSpacedIndex,
    /// A query longer than `i32::MAX` residues: diagonals are 32-bit.
    QueryTooLong,
    /// In `Auto` mode, a query window too long for the gapped alignment.
    WindowTooLong,
}

/// What `search` returns in `mode` when no parameter is rejected.
pub open spec fn search_result(
    db: &Database,
    index: &KmerIndex,
    spaced: Option<&SpacedIndex>,
    query: Seq<u8>,
    mode: SearchMode,
    params: SearchParams,
    r: Seq<(ProteinId, u32)>,
) -> bool {
    match mode {
        SearchMode::Basic => is_vote_ranking(r, index.postings(), query, ones(index.k as nat), index.num_proteins as nat, params.n as nat),
        SearchMode::Spaced => is_vote_ranking(
            r,
            spaced->0.postings(),
            query,
            spaced->0.mask@,
            spaced->0.num_proteins as nat,
            params.n as nat,
        ),
        SearchMode::Diagonal => exists|c: Seq<Candidate>|
            is_candidate_list(index, query, params.min_support as nat, c) && r == c.subrange(0, prefix_len(c.len(), params.n as nat)).map_values(
                |x: Candidate| candidate_entry(x),
            ),
        SearchMode::Auto => exists|c: Seq<Candidate>, e: Seq<(ProteinId, ExtensionResult)>, s: Seq<(ProteinId, i32)>|
            auto_stages(db, index, query, params, c, e, s, r),
    }
}

/// Runs one search in `mode`; the `spaced` index is needed for `Spaced` mode only.
pub fn search(
    db: &Database,
    index: &KmerIndex,
    spaced: Option<&SpacedIndex>,
    query: &[u8],
    mode: SearchMode,
    params: &SearchParams,
) -> (r: Result<Vec<(ProteinId, u32)>, SearchError>)
    requires
        db.wf(),
        index.wf(),
        spaced is Some ==> spaced->0.wf(),
    ensures
        params.x_drop < 0 <==> r == Err::<Vec<(ProteinId, u32)>, SearchError>(SearchError::NegativeXDrop),
        params.x_drop >= 0 && query@.len() > i32::MAX <==> r == Err::<Vec<(ProteinId, u32)>, SearchError>(SearchError::QueryTooLong),
        params.x_drop >= 0 && query@.len() <= i32::MAX && mode == SearchMode::Spaced && spaced is None <==> r == Err::<
            Vec<(ProteinId, u32)>,
            SearchError,
        >(SearchError::MissingSpacedIndex),
        params.x_drop >= 0 && query@.len() <= i32::MAX && mode == SearchMode::Auto && !window_fits(
            query@.len(),
            params.radius as nat,
        ) <==> r == Err::<Vec<(ProteinId, u32)>, SearchError>(SearchError::WindowTooLong),
        r is Ok ==> search_result(db, index, spaced, query@, mode, *params, r->Ok_0@),
{
    if params.x_drop < 0 {
        return Err(SearchError::NegativeXDrop);
    }
    if query.len() > i32::MAX as usize {
        return Err(SearchError::QueryTooLong);
    }
    match mode {
        SearchMode::Basic => Ok(index.search_basic(query, params.n)),
        SearchMode::Spaced => {
            match spaced {
                Some(sp) => Ok(sp.search_basic(query, params.n)),
                None => Err(SearchError::MissingSpacedIndex),
            }
        },
        SearchMode::Diagonal => {
            let cands = find_candidate(index, query, params.min_support);
            let m: usize = if params.n <= cands.len() { params.n } else { cands.len() };
            let mut out: Vec<(ProteinId, u32)> = Vec::new();
            let mut i: usize = 0;
            while i < m
                invariant
                    m == prefix_len(cands@.len(), params.n as nat),
                    i <= m,
                    out@ == cands@.subrange(0, i as int).map_values(|x: Candidate| candidate_entry(x)),
                decreases m - i,
            {
                let c = cands[i];
                let v: u32 = if c.score <= u32::MAX as usize { c.score as u32 } else { u32::MAX };
                out.push((c.id, v));
                i += 1;
                assert(out@ =~= cands@.subrange(0, i as int).map_values(|x: Candidate| candidate_entry(x)));
            }
            Ok(out)
        },
        SearchMode::Auto => {
            if query.len() > crate::rescore::MAX_ALIGN_LEN && params.radius > crate::rescore::MAX_ALIGN_LEN / 2 {
                Err(SearchError::WindowTooLong)
            } else {
                Ok(search_auto(db, index, query, params))
            }
        },
    }
}

/// Larger stage budgets lose no target: with the same search otherwise, and a
/// final ranking long enough to hold every hit that the larger rescoring
/// budget admits, every target reported under the smaller extension and
/// rescoring budgets is reported under the larger ones, so recall at the
/// larger ranking's length cannot drop.
pub proof fn lemma_budgets_keep_targets(
    db: &Database,
    index: &KmerIndex,
    query: Seq<u8>,
    pa: SearchParams,
    ca: Seq<Candidate>,
    ea: Seq<(ProteinId, ExtensionResult)>,
    sa: Seq<(ProteinId, i32)>,
    ra: Seq<(ProteinId, u32)>,
    pb: SearchParams,
    cb: Seq<Candidate>,
    eb: Seq<(ProteinId, ExtensionResult)>,
    sb: Seq<(ProteinId, i32)>,
    rb: Seq<(ProteinId, u32)>,
    pid: ProteinId,
)
    requires
        auto_stages(db, index, query, pa, ca, ea, sa, ra),
        auto_stages(db, index, query, pb, cb, eb, sb, rb),
        pa.x_drop == pb.x_drop,
        pa.min_support == pb.min_support,
        pa.radius == pb.radius,
        pa.extend_budget <= pb.extend_budget,
        pa.rescore_budget <= pb.rescore_budget,
        pb.rescore_budget <= pb.n,
        exists|t: int| 0 <= t < ra.len() && ra[t].0 == pid,
    ensures
        exists|t: int| 0 <= t < rb.len() && rb[t].0 == pid,
{
    let seqs = db.seqs();
    let sc = Scoring { match_score: 1i32, mismatch_score: -1i32 };
    lemma_candidate_list_unique(index, query, pa.min_support as nat, ca, cb);
    lemma_refined_prefix(query, ca, seqs, sc, pa.x_drop as int, pa.extend_budget as nat, ea, pb.extend_budget as nat, eb);
    let ma = prefix_len(ea.len(), pa.rescore_budget as nat);
    let mb = prefix_len(eb.len(), pb.rescore_budget as nat);
    assert(ea.subrange(0, ma) =~= eb.subrange(0, ma));
    let la = rescored(query, ea.subrange(0, ma), seqs, pa.radius as int);
    let lb = rescored(query, eb.subrange(0, mb), seqs, pb.radius as int);
    assert(eb.subrange(0, mb).subrange(0, ma) =~= eb.subrange(0, ma));
    lemma_rescored_grows(query, eb.subrange(0, mb), seqs, pb.radius as int, ma, mb);
    assert(eb.subrange(0, mb).subrange(0, mb) =~= eb.subrange(0, mb));
    lemma_rescored_len(query, ea.subrange(0, ma), seqs, pa.radius as int);
    lemma_rescored_len(query, eb.subrange(0, mb), seqs, pb.radius as int);
    lemma_ranked_scores_members(la, sa);
    lemma_ranked_scores_members(lb, sb);
    let t = choose|t: int| 0 <= t < ra.len() && ra[t].0 == pid;
    let na = prefix_len(sa.len(), pa.n as nat);
    assert(ra[t] == (sa.subrange(0, na)[t].0, report(sa.subrange(0, na)[t].1)));
    let e = sa[t];
    assert(sa.contains(e));
    assert(la.contains(e));
    assert(lb.contains(e));
    assert(sb.contains(e));
    let u = choose|u: int| 0 <= u < sb.len() && sb[u] == e;
    assert(sb.len() <= pb.n);
    assert(rb[u].0 == pid);
}

} // verus!
