//! Where the true target lands in a ranking.
use vstd::prelude::*;
use crate::index::ProteinId;

verus! {

/// A query drawn from a target, with where it came from.
pub struct GroundTruthQuery {
    pub sequence: Vec<u8>,
    pub original_pid: ProteinId,
    pub original_pos: usize,
    pub mutation_info: String,
}

/// `r` is the first position of `truth` in `hits`, or `None` when it is absent.
pub open spec fn is_rank_of(hits: Seq<(ProteinId, u32)>, truth: ProteinId, r: Option<usize>) -> bool {
    match r {
        Some(i) => i < hits.len() && hits[i as int].0 == truth && forall|j: int| 0 <= j < i ==> hits[j].0 != truth,
        None => forall|j: int| 0 <= j < hits.len() ==> hits[j].0 != truth,
    }
}

/// First position of `truth` in a ranking (0 is the top).
pub fn truth_rank(hits: &[(ProteinId, u32)], truth: ProteinId) -> (r: Option<usize>)
    ensures
        is_rank_of(hits@, truth, r),
{
    let mut i: usize = 0;
    while i < hits.len()
        invariant
            i <= hits@.len(),
            forall|j: int| 0 <= j < i ==> hits@[j].0 != truth,
        decreases hits@.len() - i,
    {
        if hits[i].0 == truth {
            return Some(i);
        }
        i += 1;
    }
    None
}

/// The rank of each query's true target in its ranking, for as many queries as
/// both lists cover.
pub fn truth_ranks(rankings: &[Vec<(ProteinId, u32)>], truths: &[ProteinId]) -> (r: Vec<Option<usize>>)
    ensures
        r@.len() == if rankings@.len() <= truths@.len() { rankings@.len() } else { truths@.len() },
        forall|i: int| 0 <= i < r@.len() ==> is_rank_of(rankings@[i]@, truths@[i], #[trigger] r@[i]),
{
    let n: usize = if rankings.len() <= truths.len() { rankings.len() } else { truths.len() };
    let mut out: Vec<Option<usize>> = Vec::new();
    let mut i: usize = 0;
    while i < n
        invariant
            n <= rankings@.len(),
            n <= truths@.len(),
            i <= n,
            out@.len() == i,
            forall|t: int| 0 <= t < i ==> is_rank_of(rankings@[t]@, truths@[t], #[trigger] out@[t]),
        decreases n - i,
    {
        out.push(truth_rank(rankings[i].as_slice(), truths[i]));
        i += 1;
    }
    out
}

} // verus!
