//! Diagonal filter: seed hits voted per target and diagonal.
use vstd::prelude::*;
use vstd::multiset::Multiset;
use crate::alphabet::{encode_kmer, ones, lemma_kmer_is_spaced};
use crate::index::{KmerIndex, Posting, ProteinId, window_key, indexes, scanned, strictly_sorted, posting_lt};
use crate::alphabet::kmer_key;
use crate::database::{Database, lemma_offsets_bounded};
use crate::rank::{is_top_ranking, ranks_before, top_ranked};
use crate::vote::{window_hits, num_windows, targets_below};

verus! {

/// A target that survived the filter: `score` seeds share its best diagonal.
#[derive(Debug, Clone, Copy)]
pub struct Candidate {
    pub id: ProteinId,
    pub score: usize,
    pub best_diagonal: i32,
}

/// Entries of `s` that name target `pid` on diagonal `d` for query window `q`.
pub open spec fn diag_count(s: Seq<Posting>, pid: int, d: int, q: int) -> nat
    decreases s.len(),
{
    if s.len() == 0 {
        0
    } else {
        diag_count(s.drop_last(), pid, d, q) + if s.last().0 == pid && s.last().1 - q == d { 1nat } else { 0nat }
    }
}

/// Seeds of the first `n` query windows that hit target `pid` on diagonal `d`.
pub open spec fn support_upto(view: Map<u64, Seq<Posting>>, query: Seq<u8>, mask: Seq<bool>, pid: int, d: int, n: nat) -> nat
    decreases n,
{
    if n == 0 {
        0
    } else {
        support_upto(view, query, mask, pid, d, (n - 1) as nat) + diag_count(window_hits(view, query, mask, n - 1), pid, d, n - 1)
    }
}

/// Seeds of the query that hit target `pid` on diagonal `d`
/// (target position minus query position).
pub open spec fn support(view: Map<u64, Seq<Posting>>, query: Seq<u8>, mask: Seq<bool>, pid: int, d: int) -> nat {
    support_upto(view, query, mask, pid, d, num_windows(query.len(), mask.len()))
}

/// Entries of `s` equal to `(pid, d)`.
pub open spec fn count_pair(s: Seq<(u32, i32)>, pid: int, d: int) -> nat
    decreases s.len(),
{
    if s.len() == 0 {
        0
    } else {
        count_pair(s.drop_last(), pid, d) + if s.last().0 == pid && s.last().1 == d { 1nat } else { 0nat }
    }
}

pub open spec fn pair_le(a: (u32, i32), b: (u32, i32)) -> bool {
    a.0 < b.0 || (a.0 == b.0 && a.1 <= b.1)
}

/// Relies on `slice::sort_unstable`: ascending order, tuples comparing
/// lexicographically, with the same elements.
#[verifier::external_body]
fn sort_pairs(v: &mut Vec<(u32, i32)>)
    ensures
        final(v)@.to_multiset() == old(v)@.to_multiset(),
        forall|i: int, j: int| 0 <= i < j < final(v)@.len() ==> pair_le(final(v)@[i], final(v)@[j]),
{
    v.sort_unstable()
}

proof fn lemma_count_pair_multiset(s: Seq<(u32, i32)>, pid: int, d: int)
    ensures
        count_pair(s, pid, d) == (if 0 <= pid <= u32::MAX && i32::MIN <= d <= i32::MAX {
            s.to_multiset().count((pid as u32, d as i32))
        } else {
            0
        }),
    decreases s.len(),
{
    broadcast use vstd::seq_lib::group_to_multiset_ensures;
    if s.len() == 0 {
        assert(s.to_multiset() =~= Multiset::empty());
    } else {
        lemma_count_pair_multiset(s.drop_last(), pid, d);
        assert(s.drop_last().push(s.last()) =~= s);
    }
}

proof fn lemma_count_pair_same(a: Seq<(u32, i32)>, b: Seq<(u32, i32)>, pid: int, d: int)
    requires
        a.to_multiset() == b.to_multiset(),
    ensures
        count_pair(a, pid, d) == count_pair(b, pid, d),
{
    lemma_count_pair_multiset(a, pid, d);
    lemma_count_pair_multiset(b, pid, d);
}

proof fn lemma_count_pair_step(s: Seq<(u32, i32)>, i: int, pid: int, d: int)
    requires
        0 <= i < s.len(),
    ensures
        count_pair(s.subrange(0, i + 1), pid, d) == count_pair(s.subrange(0, i), pid, d) + (if s[i].0 == pid && s[i].1
            == d { 1nat } else { 0nat }),
{
    assert(s.subrange(0, i + 1).drop_last() =~= s.subrange(0, i));
}

proof fn lemma_count_pair_absent(s: Seq<(u32, i32)>, pid: int, d: int)
    requires
        forall|j: int| 0 <= j < s.len() ==> !(s[j].0 == pid && s[j].1 == d),
    ensures
        count_pair(s, pid, d) == 0,
    decreases s.len(),
{
    if s.len() > 0 {
        lemma_count_pair_absent(s.drop_last(), pid, d);
    }
}

/// Appending entries of another target leaves the count of `pid` unchanged.
proof fn lemma_count_pair_extend(s: Seq<(u32, i32)>, a: int, b: int, pid: int, d: int)
    requires
        0 <= a <= b <= s.len(),
        forall|j: int| a <= j < b ==> s[j].0 != pid,
    ensures
        count_pair(s.subrange(0, b), pid, d) == count_pair(s.subrange(0, a), pid, d),
    decreases b - a,
{
    if b > a {
        assert(s.subrange(0, b).drop_last() =~= s.subrange(0, b - 1));
        lemma_count_pair_extend(s, a, b - 1, pid, d);
    }
}

/// Best diagonal of every target that has seed hits, in increasing target order.
fn best_diagonals(s: &Vec<(u32, i32)>, min_support: usize) -> (r: Vec<Candidate>)
    requires
        forall|i: int, j: int| 0 <= i < j < s@.len() ==> pair_le(s@[i], s@[j]),
    ensures
        forall|t: int| 0 <= t < r@.len() ==> {
            let c = #[trigger] r@[t];
            &&& count_pair(s@, c.id as int, c.best_diagonal as int) == c.score
            &&& forall|d: int| count_pair(s@, c.id as int, d) <= c.score
            &&& forall|d: int| d < c.best_diagonal ==> count_pair(s@, c.id as int, d) < c.score
            &&& c.score >= min_support
            &&& c.score >= 1
        },
        forall|a: int, b: int| 0 <= a < b < r@.len() ==> r@[a].id < r@[b].id,
        forall|j: int, d: int| 0 <= j < s@.len() && count_pair(s@, s@[j].0 as int, d) >= min_support ==> exists|t: int|
            0 <= t < r@.len() && r@[t].id == s@[j].0,
{
    let n = s.len();
    let mut out: Vec<Candidate> = Vec::new();
    let mut i: usize = 0;
    while i < n
        invariant
            n == s@.len(),
            i <= n,
            forall|a: int, b: int| 0 <= a < b < s@.len() ==> pair_le(s@[a], s@[b]),
            i < n && i > 0 ==> s@[i - 1].0 < s@[i as int].0,
            forall|t: int| 0 <= t < out@.len() ==> {
                let c = #[trigger] out@[t];
                &&& count_pair(s@, c.id as int, c.best_diagonal as int) == c.score
                &&& forall|d: int| count_pair(s@, c.id as int, d) <= c.score
                &&& forall|d: int| d < c.best_diagonal ==> count_pair(s@, c.id as int, d) < c.score
                &&& c.score >= min_support
                &&& c.score >= 1
            },
            forall|a: int, b: int| 0 <= a < b < out@.len() ==> out@[a].id < out@[b].id,
            i < n ==> forall|t: int| 0 <= t < out@.len() ==> out@[t].id < s@[i as int].0,
            forall|j: int, d: int| 0 <= j < i && count_pair(s@, s@[j].0 as int, d) >= min_support ==> exists|t: int|
                0 <= t < out@.len() && out@[t].id == s@[j].0,
        decreases n - i,
    {
        let gs = i;
        let pid = s[i].0;
        let mut cur_d = s[i].1;
        let mut run: usize = 1;
        let mut best_c: usize = 1;
        let mut best_d: i32 = cur_d;
        i += 1;
        proof {
            assert forall|j: int| 0 <= j < gs implies s@[j].0 < pid by {
                assert(pair_le(s@[j], s@[gs - 1]));
            }
            assert forall|d: int| count_pair(s@.subrange(0, gs as int), pid as int, d) == 0 by {
                lemma_count_pair_absent(s@.subrange(0, gs as int), pid as int, d);
            }
            assert forall|d: int| #[trigger] count_pair(s@.subrange(0, i as int), pid as int, d) == (if d == cur_d { 1nat } else { 0nat }) by {
                lemma_count_pair_step(s@, gs as int, pid as int, d);
            }
        }
        while i < n && s[i].0 == pid
            invariant
                n == s@.len(),
                gs < i <= n,
                forall|a: int, b: int| 0 <= a < b < s@.len() ==> pair_le(s@[a], s@[b]),
                forall|j: int| gs <= j < i ==> s@[j].0 == pid,
                forall|j: int| 0 <= j < gs ==> s@[j].0 < pid,
                cur_d == s@[i - 1].1,
                run == count_pair(s@.subrange(0, i as int), pid as int, cur_d as int),
                best_c == count_pair(s@.subrange(0, i as int), pid as int, best_d as int),
                best_d <= cur_d,
                1 <= run <= i,
                1 <= best_c <= i,
                forall|d: int| count_pair(s@.subrange(0, i as int), pid as int, d) <= best_c,
                forall|d: int| d < best_d ==> count_pair(s@.subrange(0, i as int), pid as int, d) < best_c,
            decreases n - i,
        {
            let x = s[i];
            let ghost prev = s@.subrange(0, i as int);
            assert(s@.subrange(0, i + 1).drop_last() =~= prev);
            assert(pair_le(s@[i - 1], x));
            if x.1 == cur_d {
                run += 1;
            } else {
                proof {
                    assert forall|j: int| 0 <= j < prev.len() implies !(prev[j].0 == pid && prev[j].1 == x.1) by {
                        if j >= gs {
                            assert(pair_le(s@[j], s@[i - 1]));
                        }
                    }
                    lemma_count_pair_absent(prev, pid as int, x.1 as int);
                }
                cur_d = x.1;
                run = 1;
            }
            proof {
                assert forall|d: int| #[trigger] count_pair(s@.subrange(0, i + 1), pid as int, d) == count_pair(prev, pid as int, d) + (if d == x.1 { 1nat } else { 0nat }) by {
                    lemma_count_pair_step(s@, i as int, pid as int, d);
                }
            }
            if run > best_c {
                best_c = run;
                best_d = cur_d;
            }
            i += 1;
        }
        proof {
            assert forall|d: int| count_pair(s@, pid as int, d) == count_pair(s@.subrange(0, i as int), pid as int, d) by {
                assert forall|j: int| i <= j < n implies s@[j].0 != pid by {
                    if i < n {
                        assert(pair_le(s@[i - 1], s@[i as int]));
                        assert(pair_le(s@[i as int], s@[j]));
                    }
                }
                lemma_count_pair_extend(s@, i as int, n as int, pid as int, d);
                assert(s@.subrange(0, n as int) =~= s@);
            }
            if i < n {
                assert(pair_le(s@[i - 1], s@[i as int]));
            }
        }
        let ghost old_out = out@;
        if best_c >= min_support {
            out.push(Candidate { id: pid, score: best_c, best_diagonal: best_d });
        }
        proof {
            assert forall|j: int, d: int| 0 <= j < i && count_pair(s@, s@[j].0 as int, d) >= min_support implies exists|t: int|
                0 <= t < out@.len() && out@[t].id == s@[j].0 by {
                if j < gs {
                    let t = choose|t: int| 0 <= t < old_out.len() && old_out[t].id == s@[j].0;
                    assert(out@[t] == old_out[t]);
                } else {
                    assert(out@[out@.len() - 1].id == s@[j].0);
                }
            }
        }
    }
    out
}

/// The ranking order of candidates: more supporting seeds first, then lower id.
pub open spec fn candidate_before(a: Candidate, b: Candidate) -> bool {
    a.score > b.score || (a.score == b.score && a.id < b.id)
}

/// `r` is the candidate list of `query` against the index: see `find_candidate`.
pub open spec fn is_candidate_list(kmer_index: &KmerIndex, query: Seq<u8>, min_diagonal: nat, r: Seq<Candidate>) -> bool {
    let view = kmer_index.postings();
    let mask = ones(kmer_index.k as nat);
    &&& forall|t: int| 0 <= t < r.len() ==> {
        let c = #[trigger] r[t];
        &&& c.id < kmer_index.num_proteins
        &&& support(view, query, mask, c.id as int, c.best_diagonal as int) == c.score
        &&& forall|d: int| support(view, query, mask, c.id as int, d) <= c.score
        &&& forall|d: int| d < c.best_diagonal ==> support(view, query, mask, c.id as int, d) < c.score
        &&& c.score >= min_diagonal
        &&& c.score >= 1
    }
    &&& forall|a: int, b: int| 0 <= a < b < r.len() ==> candidate_before(r[a], r[b])
    &&& forall|pid: int, d: int|
        0 <= pid < kmer_index.num_proteins && #[trigger] support(view, query, mask, pid, d) >= min_diagonal && support(
            view,
            query,
            mask,
            pid,
            d,
        ) >= 1 ==> exists|t: int| 0 <= t < r.len() && r[t].id == pid
}

/// Slides the index's word over the query, records the diagonal of every seed
/// hit per target, and returns for each target whose most supported diagonal
/// has at least `min_diagonal` seeds (and at least one) a candidate with that
/// diagonal (the lowest one among equals) and its support, ranked by support
/// and then by target id.
pub fn find_candidate(kmer_index: &KmerIndex, query_seq: &[u8], min_diagonal: usize) -> (r: Vec<Candidate>)
    requires
        kmer_index.wf(),
        query_seq@.len() <= i32::MAX,
    ensures
        is_candidate_list(kmer_index, query_seq@, min_diagonal as nat, r@),
{
    let ghost view = kmer_index.postings();
    let ghost mask = ones(kmer_index.k as nat);
    let k = kmer_index.k;
    let qlen = query_seq.len();
    let nw: usize = if qlen >= k { qlen - k + 1 } else { 0 };
    let mut pairs: Vec<(u32, i32)> = Vec::new();
    let mut q: usize = 0;
    while q < nw
        invariant
            kmer_index.wf(),
            view == kmer_index.postings(),
            mask == ones(kmer_index.k as nat),
            k == kmer_index.k,
            nw == num_windows(query_seq@.len(), k as nat),
            nw == 0 || nw + k == query_seq@.len() + 1,
            qlen == query_seq@.len(),
            qlen <= i32::MAX,
            q <= nw,
            forall|p: int| 0 <= p < pairs@.len() ==> (#[trigger] pairs@[p]).0 < kmer_index.num_proteins,
            forall|pid: int, d: int| #[trigger] count_pair(pairs@, pid, d) == support_upto(view, query_seq@, mask, pid, d, q as nat),
        decreases nw - q,
    {
        let window = &query_seq[q..q + k];
        proof {
            lemma_kmer_is_spaced(window@);
            assert(window@ == query_seq@.subrange(q as int, q + mask.len()));
        }
        let ghost hits_q = window_hits(view, query_seq@, mask, q as int);
        let ghost base = pairs@;
        let mut hits: &[Posting] = &[];
        match encode_kmer(window) {
            Some(key) => {
                match kmer_index.query(key) {
                    Some(list) => {
                        hits = list.as_slice();
                    },
                    None => {},
                }
            },
            None => {},
        }
        assert(hits@ =~= hits_q);
        let mut j: usize = 0;
        while j < hits.len()
            invariant
                kmer_index.wf(),
                view == kmer_index.postings(),
                hits@ == hits_q,
                hits_q == window_hits(view, query_seq@, mask, q as int),
                q < nw,
                nw <= qlen,
                qlen <= i32::MAX,
                j <= hits@.len(),
                forall|p: int| 0 <= p < pairs@.len() ==> (#[trigger] pairs@[p]).0 < kmer_index.num_proteins,
                forall|pid: int, d: int| #[trigger] count_pair(pairs@, pid, d) == support_upto(view, query_seq@, mask, pid, d, q as nat)
                    + diag_count(hits_q.subrange(0, j as int), pid, d, q as int),
            decreases hits@.len() - j,
        {
            let (pid, t_pos) = hits[j];
            proof {
                lemma_hit_target(view, query_seq@, mask, q as int, j as int, kmer_index.num_proteins as nat);
            }
            let diag: i32 = t_pos as i32 - q as i32;
            let ghost before = pairs@;
            pairs.push((pid, diag));
            proof {
                assert(pairs@.drop_last() =~= before);
                assert(hits_q.subrange(0, j + 1).drop_last() =~= hits_q.subrange(0, j as int));
                assert forall|p: int, d: int| #[trigger] count_pair(pairs@, p, d) == support_upto(view, query_seq@, mask, p, d, q as nat)
                    + diag_count(hits_q.subrange(0, j + 1), p, d, q as int) by {
                    assert(count_pair(pairs@, p, d) == count_pair(before, p, d) + (if pid == p && diag == d { 1nat } else { 0nat }));
                }
            }
            j += 1;
        }
        proof {
            assert(hits_q.subrange(0, hits_q.len() as int) =~= hits_q);
        }
        q += 1;
    }
    let ghost unsorted = pairs@;
    sort_pairs(&mut pairs);
    proof {
        assert forall|pid: int, d: int|
            #![trigger count_pair(pairs@, pid, d)]
            #![trigger support(view, query_seq@, mask, pid, d)]
            count_pair(pairs@, pid, d) == support(view, query_seq@, mask, pid, d) by {
            lemma_count_pair_same(pairs@, unsorted, pid, d);
        }
    }
    let cands = best_diagonals(&pairs, min_diagonal);
    let mut keys: Vec<(i128, u32)> = Vec::new();
    let mut i: usize = 0;
    while i < cands.len()
        invariant
            i <= cands@.len(),
            keys@.len() == i,
            forall|t: int| 0 <= t < i ==> #[trigger] keys@[t] == (cands@[t].score as i128, cands@[t].id),
        decreases cands@.len() - i,
    {
        keys.push((cands[i].score as i128, cands[i].id));
        i += 1;
    }
    let order = top_ranked(&keys, cands.len());
    let mut out: Vec<Candidate> = Vec::new();
    let mut t: usize = 0;
    while t < order.len()
        invariant
            t <= order@.len(),
            is_top_ranking(keys@, cands@.len() as nat, order@),
            keys@.len() == cands@.len(),
            forall|u: int| 0 <= u < keys@.len() ==> #[trigger] keys@[u] == (cands@[u].score as i128, cands@[u].id),
            out@.len() == t,
            forall|u: int| 0 <= u < t ==> #[trigger] out@[u] == cands@[order@[u] as int],
        decreases order@.len() - t,
    {
        out.push(cands[order[t]]);
        t += 1;
    }
    proof {
        assert forall|u: int| 0 <= u < out@.len() implies (#[trigger] out@[u]).id < kmer_index.num_proteins by {
            let c = cands@[order@[u] as int];
            assert(count_pair(pairs@, c.id as int, c.best_diagonal as int) >= 1);
            lemma_count_pair_same(pairs@, unsorted, c.id as int, c.best_diagonal as int);
            let j = lemma_count_pair_member(unsorted, c.id as int, c.best_diagonal as int);
            assert(unsorted[j].0 < kmer_index.num_proteins);
        }
        assert forall|a: int, b: int| 0 <= a < b < out@.len() implies candidate_before(out@[a], out@[b]) by {
            assert(ranks_before(keys@, order@[a] as int, order@[b] as int));
            if cands@[order@[a] as int].id == cands@[order@[b] as int].id {
                assert(order@[a] == order@[b]);
            }
        }
        assert forall|pid: int, d: int|
            0 <= pid < kmer_index.num_proteins && #[trigger] support(view, query_seq@, mask, pid, d) >= min_diagonal
                && support(view, query_seq@, mask, pid, d) >= 1 implies exists|t: int| 0 <= t < out@.len() && out@[t].id == pid by {
            assert(count_pair(pairs@, pid, d) >= 1);
            let j = lemma_count_pair_member(pairs@, pid, d);
            assert(pairs@[j].0 == pid && pairs@[j].1 == d);
            let c = choose|c: int| 0 <= c < cands@.len() && cands@[c].id == pairs@[j].0;
            assert(order@.len() == cands@.len());
            assert(order@.contains(c as usize));
            let u = choose|u: int| 0 <= u < order@.len() && order@[u] == c as usize;
            assert(out@[u].id == pid);
        }
    }
    out
}

proof fn lemma_count_pair_member(s: Seq<(u32, i32)>, pid: int, d: int) -> (j: int)
    requires
        count_pair(s, pid, d) >= 1,
    ensures
        0 <= j < s.len() && s[j].0 == pid && s[j].1 == d,
    decreases s.len(),
{
    if s.last().0 == pid && s.last().1 == d {
        s.len() - 1
    } else {
        lemma_count_pair_member(s.drop_last(), pid, d)
    }
}

proof fn lemma_hit_target(view: Map<u64, Seq<Posting>>, query: Seq<u8>, mask: Seq<bool>, q: int, j: int, np: nat)
    requires
        targets_below(view, np),
        0 <= j < window_hits(view, query, mask, q).len(),
    ensures
        window_hits(view, query, mask, q)[j].0 < np,
{
    let key = crate::alphabet::spaced_key(query.subrange(q, q + mask.len()), mask)->0;
    assert(view.contains_key(key));
    assert(view[key][j] == window_hits(view, query, mask, q)[j]);
}

/// Query window `q` is a seed that matches target `pid` at position `q + d`:
/// the query word has a key and the target word there has the same key.
pub open spec fn seed_at(seqs: Seq<Seq<u8>>, query: Seq<u8>, k: nat, pid: int, d: int, q: int) -> bool {
    let w = kmer_key(query.subrange(q, q + k));
    &&& w is Some
    &&& 0 <= pid <= u32::MAX
    &&& 0 <= q + d <= 65535
    &&& window_key(seqs, ones(k), (pid as u32, (q + d) as u16)) == w
}

/// Number of query positions `q < n` that are seeds of target `pid` on diagonal `d`.
pub open spec fn seeds_upto(seqs: Seq<Seq<u8>>, query: Seq<u8>, k: nat, pid: int, d: int, n: nat) -> nat
    decreases n,
{
    if n == 0 {
        0
    } else {
        seeds_upto(seqs, query, k, pid, d, (n - 1) as nat) + if seed_at(seqs, query, k, pid, d, n - 1) { 1nat } else { 0nat }
    }
}

proof fn lemma_diag_count_sorted(l: Seq<Posting>, x: Posting, q: int)
    requires
        strictly_sorted(l),
    ensures
        diag_count(l, x.0 as int, x.1 - q, q) == (if l.contains(x) { 1nat } else { 0nat }),
    decreases l.len(),
{
    if l.len() > 0 {
        let p = l.drop_last();
        assert(strictly_sorted(p));
        lemma_diag_count_sorted(p, x, q);
        let y = l.last();
        if y == x {
            if p.contains(x) {
                let i = choose|i: int| 0 <= i < p.len() && p[i] == x;
                assert(posting_lt(l[i], l[l.len() - 1]));
            }
        } else {
            if l.contains(x) {
                let i = choose|i: int| 0 <= i < l.len() && l[i] == x;
                assert(p[i] == x);
            }
        }
    }
}

proof fn lemma_diag_count_out(l: Seq<Posting>, pid: int, d: int, q: int)
    requires
        !(0 <= q + d <= 65535) || !(0 <= pid <= u32::MAX),
    ensures
        diag_count(l, pid, d, q) == 0,
    decreases l.len(),
{
    if l.len() > 0 {
        lemma_diag_count_out(l.drop_last(), pid, d, q);
    }
}

proof fn lemma_window_seed(kmer_index: &KmerIndex, db: &Database, query: Seq<u8>, pid: int, d: int, q: int)
    requires
        kmer_index.built_from(db),
        0 <= q,
        q + kmer_index.k <= query.len(),
    ensures
        diag_count(window_hits(kmer_index.postings(), query, ones(kmer_index.k as nat), q), pid, d, q) == (if seed_at(
            db.seqs(),
            query,
            kmer_index.k as nat,
            pid,
            d,
            q,
        ) { 1nat } else { 0nat }),
{
    let k = kmer_index.k as nat;
    let view = kmer_index.postings();
    let seqs = db.seqs();
    let mask = ones(k);
    let w = query.subrange(q, q + k);
    lemma_kmer_is_spaced(w);
    let l = window_hits(view, query, mask, q);
    if !(0 <= q + d <= 65535) || !(0 <= pid <= u32::MAX) {
        lemma_diag_count_out(l, pid, d, q);
    } else {
        let x: Posting = (pid as u32, (q + d) as u16);
        match kmer_key(w) {
            Some(key) => {
                if view.contains_key(key) {
                    lemma_diag_count_sorted(l, x, q);
                    assert(scanned(x, seqs.len() as int, 0) || window_key(seqs, mask, x) is None);
                    if l.contains(x) {
                        let i = choose|i: int| 0 <= i < l.len() && l[i] == x;
                        assert(window_key(seqs, mask, l[i]) == Some(key));
                    }
                } else {
                    if window_key(seqs, mask, x) == Some(key) {
                        assert(scanned(x, seqs.len() as int, 0));
                    }
                }
            },
            None => {},
        }
    }
}

proof fn lemma_support_seeds_upto(kmer_index: &KmerIndex, db: &Database, query: Seq<u8>, pid: int, d: int, n: nat)
    requires
        kmer_index.built_from(db),
        n <= num_windows(query.len(), kmer_index.k as nat),
    ensures
        support_upto(kmer_index.postings(), query, ones(kmer_index.k as nat), pid, d, n) == seeds_upto(
            db.seqs(),
            query,
            kmer_index.k as nat,
            pid,
            d,
            n,
        ),
    decreases n,
{
    if n > 0 {
        lemma_support_seeds_upto(kmer_index, db, query, pid, d, (n - 1) as nat);
        lemma_window_seed(kmer_index, db, query, pid, d, n - 1);
    }
}

/// Diagonal-filter soundness: the support of every emitted candidate is the
/// number of distinct query positions `q` whose word matches the candidate's
/// target at position `q + best_diagonal`.
pub proof fn lemma_candidate_soundness(
    kmer_index: &KmerIndex,
    db: &Database,
    query: Seq<u8>,
    min_diagonal: nat,
    r: Seq<Candidate>,
    t: int,
)
    requires
        kmer_index.built_from(db),
        is_candidate_list(kmer_index, query, min_diagonal, r),
        0 <= t < r.len(),
    ensures
        seeds_upto(
            db.seqs(),
            query,
            kmer_index.k as nat,
            r[t].id as int,
            r[t].best_diagonal as int,
            num_windows(query.len(), kmer_index.k as nat),
        ) == r[t].score,
{
    lemma_support_seeds_upto(
        kmer_index,
        db,
        query,
        r[t].id as int,
        r[t].best_diagonal as int,
        num_windows(query.len(), kmer_index.k as nat),
    );
}

proof fn lemma_candidate_in_other(kmer_index: &KmerIndex, query: Seq<u8>, min_diagonal: nat, r1: Seq<Candidate>, r2: Seq<Candidate>, i: int)
    -> (j: int)
    requires
        is_candidate_list(kmer_index, query, min_diagonal, r1),
        is_candidate_list(kmer_index, query, min_diagonal, r2),
        0 <= i < r1.len(),
    ensures
        0 <= j < r2.len(),
        r2[j] == r1[i],
{
    let view = kmer_index.postings();
    let mask = ones(kmer_index.k as nat);
    let c = r1[i];
    assert(support(view, query, mask, c.id as int, c.best_diagonal as int) == c.score);
    let j = choose|j: int| 0 <= j < r2.len() && r2[j].id == c.id;
    let e = r2[j];
    assert(support(view, query, mask, e.id as int, e.best_diagonal as int) == e.score);
    assert(support(view, query, mask, c.id as int, e.best_diagonal as int) <= c.score);
    assert(support(view, query, mask, e.id as int, c.best_diagonal as int) <= e.score);
    if c.best_diagonal < e.best_diagonal {
        assert(support(view, query, mask, e.id as int, c.best_diagonal as int) < e.score);
    }
    if e.best_diagonal < c.best_diagonal {
        assert(support(view, query, mask, c.id as int, e.best_diagonal as int) < c.score);
    }
    j
}

/// The candidate list of a query is unique.
pub proof fn lemma_candidate_list_unique(kmer_index: &KmerIndex, query: Seq<u8>, min_diagonal: nat, r1: Seq<Candidate>, r2: Seq<Candidate>)
    requires
        is_candidate_list(kmer_index, query, min_diagonal, r1),
        is_candidate_list(kmer_index, query, min_diagonal, r2),
    ensures
        r1 == r2,
{
    if r1.len() > 0 && r2.len() > 0 {
        let j = lemma_candidate_in_other(kmer_index, query, min_diagonal, r1, r2, 0);
        let i = lemma_candidate_in_other(kmer_index, query, min_diagonal, r2, r1, 0);
        if j > 0 {
            assert(candidate_before(r2[0], r2[j]));
            if i > 0 {
                assert(candidate_before(r1[0], r1[i]));
            }
        }
        assert(r1[0] == r2[0]);
        lemma_candidate_list_unique_rest(kmer_index, query, min_diagonal, r1, r2);
    } else if r1.len() > 0 {
        lemma_candidate_in_other(kmer_index, query, min_diagonal, r1, r2, 0);
    } else if r2.len() > 0 {
        lemma_candidate_in_other(kmer_index, query, min_diagonal, r2, r1, 0);
    } else {
        assert(r1 =~= r2);
    }
}

proof fn lemma_candidate_list_unique_rest(kmer_index: &KmerIndex, query: Seq<u8>, min_diagonal: nat, r1: Seq<Candidate>, r2: Seq<Candidate>)
    requires
        is_candidate_list(kmer_index, query, min_diagonal, r1),
        is_candidate_list(kmer_index, query, min_diagonal, r2),
        r1.len() > 0 && r2.len() > 0,
        r1[0] == r2[0],
    ensures
        r1 == r2,
{
    // Every later entry of one list is a later entry of the other.
    assert forall|t: int| 0 < t < r1.len() implies #[trigger] r2.drop_first().contains(r1[t]) by {
        let j = lemma_candidate_in_other(kmer_index, query, min_diagonal, r1, r2, t);
        assert(candidate_before(r1[0], r1[t]));
        assert(j != 0);
        assert(r2.drop_first()[j - 1] == r1[t]);
    }
    assert forall|t: int| 0 < t < r2.len() implies #[trigger] r1.drop_first().contains(r2[t]) by {
        let j = lemma_candidate_in_other(kmer_index, query, min_diagonal, r2, r1, t);
        assert(candidate_before(r2[0], r2[t]));
        assert(j != 0);
        assert(r1.drop_first()[j - 1] == r2[t]);
    }
    lemma_sorted_candidates_unique(r1.drop_first(), r2.drop_first());
    assert(r1 =~= r2) by {
        assert forall|t: int| 0 <= t < r1.len() implies r1[t] == r2[t] by {
            if t > 0 {
                assert(r1[t] == r1.drop_first()[t - 1]);
                assert(r2[t] == r2.drop_first()[t - 1]);
            }
        }
    }
}

proof fn lemma_sorted_candidates_unique(xs: Seq<Candidate>, ys: Seq<Candidate>)
    requires
        forall|a: int, b: int| 0 <= a < b < xs.len() ==> candidate_before(xs[a], xs[b]),
        forall|a: int, b: int| 0 <= a < b < ys.len() ==> candidate_before(ys[a], ys[b]),
        forall|t: int| 0 <= t < xs.len() ==> #[trigger] ys.contains(xs[t]),
        forall|t: int| 0 <= t < ys.len() ==> #[trigger] xs.contains(ys[t]),
    ensures
        xs == ys,
    decreases xs.len(),
{
    if xs.len() == 0 {
        if ys.len() > 0 {
            assert(xs.contains(ys[0]));
        }
        assert(xs =~= ys);
    } else {
        assert(ys.contains(xs[0]));
        assert(xs.contains(ys[0]));
        if xs[0] != ys[0] {
            let j = choose|j: int| 0 <= j < ys.len() && ys[j] == xs[0];
            let i = choose|i: int| 0 <= i < xs.len() && xs[i] == ys[0];
            assert(candidate_before(ys[0], ys[j]));
            assert(candidate_before(xs[0], xs[i]));
        }
        let t1 = xs.drop_first();
        let t2 = ys.drop_first();
        assert forall|t: int| 0 <= t < t1.len() implies #[trigger] t2.contains(t1[t]) by {
            assert(ys.contains(xs[t + 1]));
            let j = choose|j: int| 0 <= j < ys.len() && ys[j] == xs[t + 1];
            assert(candidate_before(xs[0], xs[t + 1]));
            assert(j != 0);
            assert(t2[j - 1] == t1[t]);
        }
        assert forall|t: int| 0 <= t < t2.len() implies #[trigger] t1.contains(t2[t]) by {
            assert(xs.contains(ys[t + 1]));
            let j = choose|j: int| 0 <= j < xs.len() && xs[j] == ys[t + 1];
            assert(candidate_before(ys[0], ys[t + 1]));
            assert(j != 0);
            assert(t1[j - 1] == t2[t]);
        }
        lemma_sorted_candidates_unique(t1, t2);
        assert(xs =~= ys) by {
            assert forall|t: int| 0 <= t < xs.len() implies xs[t] == ys[t] by {
                if t > 0 {
                    assert(xs[t] == t1[t - 1]);
                    assert(ys[t] == t2[t - 1]);
                }
            }
        }
    }
}

/// Number of windows `q < n` of length `k` of `query` whose word has a key.
pub open spec fn keyed_windows(query: Seq<u8>, k: nat, n: nat) -> nat
    decreases n,
{
    if n == 0 {
        0
    } else {
        keyed_windows(query, k, (n - 1) as nat) + if kmer_key(query.subrange(n - 1, n - 1 + k)) is Some { 1nat } else { 0nat }
    }
}

proof fn lemma_self_seeds(kmer_index: &KmerIndex, db: &Database, pid: int, n: nat)
    requires
        kmer_index.built_from(db),
        db.wf(),
        0 <= pid < db.count(),
        n <= num_windows(db.seqs()[pid].len(), kmer_index.k as nat),
    ensures
        seeds_upto(db.seqs(), db.seqs()[pid], kmer_index.k as nat, pid, 0, n) == keyed_windows(
            db.seqs()[pid],
            kmer_index.k as nat,
            n,
        ),
    decreases n,
{
    if n > 0 {
        let k = kmer_index.k as nat;
        let seqs = db.seqs();
        let query = seqs[pid];
        let q = n - 1;
        lemma_self_seeds(kmer_index, db, pid, (n - 1) as nat);
        lemma_offsets_bounded(db, pid + 1);
        assert(db.offsets@[pid] <= db.offsets@[pid + 1]);
        assert(query.len() <= 65535);
        let w = query.subrange(q, q + k);
        lemma_kmer_is_spaced(w);
        assert(window_key(seqs, ones(k), (pid as u32, q as u16)) == kmer_key(w));
    }
}

/// A target searched with its own residues: each of its windows that has a
/// key is a seed on diagonal 0, so when there are at least `min_diagonal` such
/// windows (and at least one) the target is a candidate with at least that
/// support.
pub proof fn lemma_self_query_is_candidate(kmer_index: &KmerIndex, db: &Database, pid: int, min_diagonal: nat, r: Seq<Candidate>)
    requires
        kmer_index.built_from(db),
        db.wf(),
        0 <= pid < db.count(),
        is_candidate_list(kmer_index, db.seqs()[pid], min_diagonal, r),
        keyed_windows(db.seqs()[pid], kmer_index.k as nat, num_windows(db.seqs()[pid].len(), kmer_index.k as nat))
            >= min_diagonal,
        keyed_windows(db.seqs()[pid], kmer_index.k as nat, num_windows(db.seqs()[pid].len(), kmer_index.k as nat)) >= 1,
    ensures
        exists|t: int|
            0 <= t < r.len() && r[t].id == pid && r[t].score >= keyed_windows(
                db.seqs()[pid],
                kmer_index.k as nat,
                num_windows(db.seqs()[pid].len(), kmer_index.k as nat),
            ),
{
    let query = db.seqs()[pid];
    let k = kmer_index.k as nat;
    let nw = num_windows(query.len(), k);
    lemma_self_seeds(kmer_index, db, pid, nw);
    lemma_support_seeds_upto(kmer_index, db, query, pid, 0, nw);
    let view = kmer_index.postings();
    assert(support(view, query, ones(k), pid, 0) == keyed_windows(query, k, nw));
    assert(db.count() == kmer_index.num_proteins);
    let t = choose|t: int| 0 <= t < r.len() && r[t].id == pid;
    assert(support(view, query, ones(k), r[t].id as int, 0) <= r[t].score);
}

} // verus!
