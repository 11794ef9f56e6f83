//! Seed voting: every posting of every query window is one vote for its target.
use vstd::prelude::*;
use crate::alphabet::spaced_key;
use crate::index::{Posting, ProteinId};
use crate::rank::{is_top_ranking, ranks_before, top_ranked, min_nat};

verus! {

/// Number of windows of length `span` in a sequence of length `len`.
pub open spec fn num_windows(len: nat, span: nat) -> nat {
    if span <= len { (len - span + 1) as nat } else { 0 }
}

/// The posting list that query window `q` looks up under `mask`; empty when the
/// window has no key or the key is not indexed.
pub open spec fn window_hits(view: Map<u64, Seq<Posting>>, query: Seq<u8>, mask: Seq<bool>, q: int) -> Seq<Posting> {
    match spaced_key(query.subrange(q, q + mask.len()), mask) {
        Some(key) => if view.contains_key(key) { view[key] } else { Seq::empty() },
        None => Seq::empty(),
    }
}

/// Postings of target `pid` in `s`.
pub open spec fn count_pid(s: Seq<Posting>, pid: int) -> nat
    decreases s.len(),
{
    if s.len() == 0 { 0 } else { count_pid(s.drop_last(), pid) + if s.last().0 == pid { 1nat } else { 0nat } }
}

/// Votes for target `pid` from the first `n` query windows.
pub open spec fn votes_upto(view: Map<u64, Seq<Posting>>, query: Seq<u8>, mask: Seq<bool>, pid: int, n: nat) -> nat
    decreases n,
{
    if n == 0 { 0 } else { votes_upto(view, query, mask, pid, (n - 1) as nat) + count_pid(window_hits(view, query, mask, n - 1), pid) }
}

/// Votes for target `pid` from every query window.
pub open spec fn votes(view: Map<u64, Seq<Posting>>, query: Seq<u8>, mask: Seq<bool>, pid: int) -> nat {
    votes_upto(view, query, mask, pid, num_windows(query.len(), mask.len()))
}

/// A vote count as reported: capped at `u32::MAX`.
pub open spec fn capped(v: nat) -> u32 {
    if v < u32::MAX { v as u32 } else { u32::MAX }
}

/// Every posting names one of the first `np` targets.
pub open spec fn targets_below(view: Map<u64, Seq<Posting>>, np: nat) -> bool {
    forall|key: u64, i: int| #[trigger] view.contains_key(key) && 0 <= i < view[key].len() ==> (#[trigger] view[key][i]).0 < np
}

/// `(pid, c)` ranks before `(pid2, c2)`: more votes first, then lower id.
pub open spec fn vote_before(a: (ProteinId, u32), b: (ProteinId, u32)) -> bool {
    a.1 > b.1 || (a.1 == b.1 && a.0 < b.0)
}

/// `out` holds the `top_n` targets with the most votes, each with its vote
/// count, best first, ties to the lower id; targets without votes are absent.
pub open spec fn is_vote_ranking(
    out: Seq<(ProteinId, u32)>,
    view: Map<u64, Seq<Posting>>,
    query: Seq<u8>,
    mask: Seq<bool>,
    np: nat,
    top_n: nat,
) -> bool {
    &&& out.len() <= top_n
    &&& forall|t: int| 0 <= t < out.len() ==> {
        &&& (#[trigger] out[t]).0 < np
        &&& out[t].1 == capped(votes(view, query, mask, out[t].0 as int))
        &&& out[t].1 > 0
    }
    &&& forall|s: int, t: int| 0 <= s < t < out.len() ==> vote_before(out[s], out[t])
    &&& forall|pid: int| 0 <= pid < np && #[trigger] votes(view, query, mask, pid) > 0 ==> {
        ||| exists|t: int| 0 <= t < out.len() && out[t].0 == pid
        ||| out.len() == top_n && forall|t: int| 0 <= t < out.len() ==> vote_before(
            out[t],
            (pid as ProteinId, capped(votes(view, query, mask, pid))),
        )
    }
}

/// Running tally: `scores[pid]` is the capped count so far and `active` lists,
/// without repeats, the targets with at least one vote.
pub open spec fn tally_of(scores: Seq<u32>, active: Seq<ProteinId>, counts: spec_fn(int) -> nat) -> bool {
    &&& forall|pid: int| 0 <= pid < scores.len() ==> #[trigger] scores[pid] == capped(counts(pid))
    &&& forall|pid: int| 0 <= pid < scores.len() ==> (counts(pid) > 0 <==> #[trigger] active.contains(pid as ProteinId))
    &&& active.no_duplicates()
    &&& scores.len() <= 0x1_0000_0000
    &&& forall|t: int| 0 <= t < active.len() ==> (#[trigger] active[t]) < scores.len()
}

/// Adds one vote per posting of `hits`.
pub fn add_votes(scores: &mut Vec<u32>, active: &mut Vec<ProteinId>, hits: &[Posting], Ghost(counts): Ghost<spec_fn(int) -> nat>)
    requires
        tally_of(old(scores)@, old(active)@, counts),
        forall|i: int| 0 <= i < hits@.len() ==> (#[trigger] hits@[i]).0 < old(scores)@.len(),
    ensures
        final(scores)@.len() == old(scores)@.len(),
        tally_of(final(scores)@, final(active)@, |pid: int| counts(pid) + count_pid(hits@, pid)),
{
    let mut j: usize = 0;
    while j < hits.len()
        invariant
            j <= hits@.len(),
            scores@.len() == old(scores)@.len(),
            forall|i: int| 0 <= i < hits@.len() ==> (#[trigger] hits@[i]).0 < scores@.len(),
            tally_of(scores@, active@, |pid: int| counts(pid) + count_pid(hits@.subrange(0, j as int), pid)),
        decreases hits@.len() - j,
    {
        let ghost before = |pid: int| counts(pid) + count_pid(hits@.subrange(0, j as int), pid);
        let ghost after = |pid: int| counts(pid) + count_pid(hits@.subrange(0, j + 1), pid);
        assert(hits@.subrange(0, j + 1).drop_last() =~= hits@.subrange(0, j as int));
        let pid = hits[j].0;
        let idx = pid as usize;
        let s = scores[idx];
        let ghost old_active = active@;
        assert(scores@[idx as int] == capped(before(idx as int)));
        assert(idx as int as ProteinId == pid);
        if s == 0 {
            assert(!old_active.contains(pid));
            active.push(pid);
        }
        let ns: u32 = if s < u32::MAX { s + 1 } else { s };
        scores.set(idx, ns);
        proof {
            assert forall|p: int| 0 <= p < scores@.len() implies #[trigger] scores@[p] == capped(after(p)) by {
                assert(before(p) == counts(p) + count_pid(hits@.subrange(0, j as int), p));
            }
            assert forall|p: int| 0 <= p < scores@.len() implies (after(p) > 0 <==> #[trigger] active@.contains(p as ProteinId)) by {
                if p != idx as int {
                    if active@.contains(p as ProteinId) && s == 0 {
                        let t = choose|t: int| 0 <= t < active@.len() && active@[t] == p as ProteinId;
                        assert(t < old_active.len());
                        assert(old_active.contains(p as ProteinId));
                    }
                    if old_active.contains(p as ProteinId) && s == 0 {
                        let t = choose|t: int| 0 <= t < old_active.len() && old_active[t] == p as ProteinId;
                        assert(active@[t] == p as ProteinId);
                    }
                } else {
                    if s == 0 {
                        assert(active@[active@.len() - 1] == pid);
                    }
                }
            }
            if s == 0 {
                assert(active@.no_duplicates()) by {
                    assert forall|a: int, b: int| 0 <= a < b < active@.len() implies active@[a] != active@[b] by {
                        if b == active@.len() - 1 {
                            assert(old_active[a] == active@[a]);
                        }
                    }
                }
            }
        }
        j += 1;
    }
    assert(hits@.subrange(0, hits@.len() as int) =~= hits@);
}

/// The `top_n` targets of the tally, best first.
pub fn rank_votes(scores: &Vec<u32>, active: &Vec<ProteinId>, top_n: usize, Ghost(counts): Ghost<spec_fn(int) -> nat>)
    -> (r: Vec<(ProteinId, u32)>)
    requires
        tally_of(scores@, active@, counts),
    ensures
        r@.len() <= top_n,
        forall|t: int| 0 <= t < r@.len() ==> {
            &&& (#[trigger] r@[t]).0 < scores@.len()
            &&& r@[t].1 == capped(counts(r@[t].0 as int))
            &&& r@[t].1 > 0
        },
        forall|s: int, t: int| 0 <= s < t < r@.len() ==> vote_before(r@[s], r@[t]),
        forall|pid: int| 0 <= pid < scores@.len() && #[trigger] counts(pid) > 0 ==> {
            ||| exists|t: int| 0 <= t < r@.len() && r@[t].0 == pid
            ||| r@.len() == top_n && forall|t: int| 0 <= t < r@.len() ==> vote_before(
                r@[t],
                (pid as ProteinId, capped(counts(pid))),
            )
        },
{
    let mut keys: Vec<(i128, u32)> = Vec::new();
    let mut i: usize = 0;
    while i < active.len()
        invariant
            i <= active@.len(),
            tally_of(scores@, active@, counts),
            keys@.len() == i,
            forall|t: int| 0 <= t < i ==> #[trigger] keys@[t] == (scores@[active@[t] as int] as i128, active@[t]),
        decreases active@.len() - i,
    {
        let pid = active[i];
        keys.push((scores[pid as usize] as i128, pid));
        i += 1;
    }
    let order = top_ranked(&keys, top_n);
    let mut out: Vec<(ProteinId, u32)> = Vec::new();
    let mut t: usize = 0;
    while t < order.len()
        invariant
            t <= order@.len(),
            is_top_ranking(keys@, top_n as nat, order@),
            keys@.len() == active@.len(),
            forall|u: int| 0 <= u < keys@.len() ==> #[trigger] keys@[u] == (scores@[active@[u] as int] as i128, active@[u]),
            tally_of(scores@, active@, counts),
            out@.len() == t,
            forall|u: int| 0 <= u < t ==> #[trigger] out@[u] == (active@[order@[u] as int], scores@[active@[order@[u] as int] as int]),
        decreases order@.len() - t,
    {
        let k = order[t];
        let pid = active[k];
        out.push((pid, scores[pid as usize]));
        t += 1;
    }
    proof {
        assert forall|u: int| 0 <= u < out@.len() implies {
            &&& (#[trigger] out@[u]).0 < scores@.len()
            &&& out@[u].1 == capped(counts(out@[u].0 as int))
            &&& out@[u].1 > 0
        } by {
            let a = active@[order@[u] as int];
            assert(order@[u] < keys@.len());
            assert(active@.contains(a));
            assert(a < scores@.len());
            assert(a as int as ProteinId == a);
            assert(counts(a as int) > 0);
            assert(scores@[a as int] == capped(counts(a as int)));
        }
        assert forall|s: int, u: int| 0 <= s < u < out@.len() implies vote_before(out@[s], out@[u]) by {
            assert(ranks_before(keys@, order@[s] as int, order@[u] as int));
            let a = active@[order@[s] as int];
            let b = active@[order@[u] as int];
            assert(order@[s] != order@[u]);
            assert(a != b);
        }
        assert forall|pid: int| 0 <= pid < scores@.len() && #[trigger] counts(pid) > 0 implies {
            ||| exists|t: int| 0 <= t < out@.len() && out@[t].0 == pid
            ||| out@.len() == top_n && forall|t: int| 0 <= t < out@.len() ==> vote_before(
                out@[t],
                (pid as ProteinId, capped(counts(pid))),
            )
        } by {
            assert(active@.contains(pid as ProteinId));
            let k = choose|k: int| 0 <= k < active@.len() && active@[k] == pid as ProteinId;
            if order@.contains(k as usize) {
                let u = choose|u: int| 0 <= u < order@.len() && order@[u] == k as usize;
                assert(out@[u].0 == pid);
            } else {
                assert(k < keys@.len());
                assert(out@.len() == top_n);
                assert forall|u: int| 0 <= u < out@.len() implies vote_before(
                    out@[u],
                    (pid as ProteinId, capped(counts(pid))),
                ) by {
                    assert(ranks_before(keys@, order@[u] as int, k));
                    assert(order@[u] as int != k);
                    assert(active@[order@[u] as int] != active@[k]);
                }
            }
        }
    }
    out
}

} // verus!
