//! Contiguous seed index: word key to the postings of every target window.
use vstd::prelude::*;
use rustc_hash::{FxBuildHasher, FxHashMap};
use crate::alphabet::{encode_kmer, kmer_key, spaced_key, ones, lemma_kmer_is_spaced, MAX_WORD};
use crate::database::{Database, lemma_offsets_bounded};
use crate::vote::{add_votes, rank_votes, is_vote_ranking, tally_of, votes, votes_upto, window_hits, num_windows, count_pid, capped, targets_below};

verus! {

pub type ProteinId = u32;

pub type Position = u16;

/// An occurrence of a word: target identifier and start position.
pub type Posting = (ProteinId, Position);

/// Shortest contiguous word the index accepts.
pub const MIN_WORD: usize = 3;

#[verifier::external_type_specification]
#[verifier::external_body]
pub struct ExFxBuildHasher(FxBuildHasher);

/// Hash map keyed by word key, with the Fx hasher.
pub type FxMap<V> = FxHashMap<u64, V>;

/// Relies on `HashMap::with_capacity_and_hasher`: the new map is empty.
#[verifier::external_body]
pub(crate) fn fx_map_with_capacity<V>(capacity: usize) -> (r: FxMap<V>)
    ensures
        r@.dom() == Set::<u64>::empty(),
{
    FxHashMap::with_capacity_and_hasher(capacity, FxBuildHasher)
}

/// Relies on `HashMap::get`: the value stored under `key`, if any.
#[verifier::external_body]
pub(crate) fn fx_get<V>(m: &FxMap<V>, key: u64) -> (r: Option<&V>)
    ensures
        match r {
            Some(v) => m@.contains_key(key) && *v == m@[key],
            None => !m@.contains_key(key),
        },
{
    m.get(&key)
}

/// Relies on `HashMap::remove`: takes the value stored under `key` out of the map.
#[verifier::external_body]
pub(crate) fn fx_remove<V>(m: &mut FxMap<V>, key: u64) -> (r: Option<V>)
    ensures
        final(m)@ == old(m)@.remove(key),
        match r {
            Some(v) => old(m)@.contains_key(key) && v == old(m)@[key],
            None => !old(m)@.contains_key(key),
        },
{
    m.remove(&key)
}

/// Relies on `HashMap::insert`: stores `value` under `key`.
#[verifier::external_body]
pub(crate) fn fx_insert<V>(m: &mut FxMap<V>, key: u64, value: V)
    ensures
        final(m)@ == old(m)@.insert(key, value),
{
    m.insert(key, value);
}

/// Rejected build parameters.
#[derive(Debug, Clone, Copy, PartialEq, Eq)]
pub enum IndexError {
    /// A contiguous word length outside `3..=12`.
    WordLength,
    /// A spaced pattern with no set position or more than twelve.
    PatternWeight,
    /// A spaced pattern with a symbol other than `0` and `1`.
    PatternSymbol,
}

/// The key of the window that `p` names, under `mask`; absent when the window
/// runs off its target or holds a byte without a residue code.
pub open spec fn window_key(seqs: Seq<Seq<u8>>, mask: Seq<bool>, p: Posting) -> Option<u64> {
    let pid = p.0 as int;
    let pos = p.1 as int;
    if pid < seqs.len() && pos + mask.len() <= seqs[pid].len() {
        spaced_key(seqs[pid].subrange(pos, pos + mask.len()), mask)
    } else {
        None
    }
}

/// Scan order: by target, then by position.
pub open spec fn posting_lt(a: Posting, b: Posting) -> bool {
    a.0 < b.0 || (a.0 == b.0 && a.1 < b.1)
}

pub open spec fn strictly_sorted(s: Seq<Posting>) -> bool {
    forall|i: int, j: int| 0 <= i < j < s.len() ==> posting_lt(s[i], s[j])
}

/// `p` comes before the window of target `pid` at `pos` in scan order.
pub open spec fn scanned(p: Posting, pid: int, pos: int) -> bool {
    p.0 < pid || (p.0 == pid && p.1 < pos)
}

/// `view` indexes the windows of `seqs` under `mask` that come before
/// `(pid, pos)` in scan order: each list is non-empty, in scan order, and
/// holds exactly those windows whose key is its key.
pub open spec fn indexes_upto(view: Map<u64, Seq<Posting>>, seqs: Seq<Seq<u8>>, mask: Seq<bool>, pid: int, pos: int) -> bool {
    &&& forall|key: u64| #[trigger] view.contains_key(key) ==> {
        &&& view[key].len() > 0
        &&& strictly_sorted(view[key])
        &&& forall|i: int| 0 <= i < view[key].len() ==> scanned(#[trigger] view[key][i], pid, pos)
            && window_key(seqs, mask, view[key][i]) == Some(key)
    }
    &&& forall|p: Posting| #[trigger] window_key(seqs, mask, p) is Some && scanned(p, pid, pos) ==> {
        &&& view.contains_key(window_key(seqs, mask, p)->0)
        &&& view[window_key(seqs, mask, p)->0].contains(p)
    }
}

/// `view` indexes every window of `seqs` under `mask`.
pub open spec fn indexes(view: Map<u64, Seq<Posting>>, seqs: Seq<Seq<u8>>, mask: Seq<bool>) -> bool {
    indexes_upto(view, seqs, mask, seqs.len() as int, 0)
}

/// Inverted index of the contiguous words of length `k` of every target.
pub struct KmerIndex {
    pub map: FxHashMap<u64, Vec<Posting>>,
    pub k: usize,
    pub num_proteins: usize,
}

impl KmerIndex {
    /// The posting list of every key.
    pub open spec fn postings(&self) -> Map<u64, Seq<Posting>> {
        Map::new(|key: u64| self.map@.contains_key(key), |key: u64| self.map@[key]@)
    }

    /// Built from `db`: every window of length `k` of every target is indexed.
    pub open spec fn built_from(&self, db: &Database) -> bool {
        &&& MIN_WORD <= self.k <= MAX_WORD
        &&& self.num_proteins == db.count()
        &&& indexes(self.postings(), db.seqs(), ones(self.k as nat))
    }

    /// An index of word length `k` with no postings.
    pub fn new(k: usize) -> (r: KmerIndex)
        ensures
            r.k == k,
            r.num_proteins == 0,
            r.postings() == Map::<u64, Seq<Posting>>::empty(),
    {
        let r = KmerIndex { map: fx_map_with_capacity(0), k, num_proteins: 0 };
        assert(r.postings() =~= Map::<u64, Seq<Posting>>::empty());
        r
    }

    /// Indexes every window of length `k` of every target of `db`, skipping
    /// windows with a byte that has no residue code. `k` must lie in `3..=12`.
    pub fn build(db: &Database, k: usize) -> (r: Result<KmerIndex, IndexError>)
        requires
            db.wf(),
        ensures
            (k < MIN_WORD || k > MAX_WORD) <==> r == Err::<KmerIndex, IndexError>(IndexError::WordLength),
            MIN_WORD <= k <= MAX_WORD ==> r is Ok,
            r is Ok ==> r->Ok_0.k == k && r->Ok_0.built_from(db),
    {
        if k < MIN_WORD || k > MAX_WORD {
            return Err(IndexError::WordLength);
        }
        let ghost seqs = db.seqs();
        let ghost mask = ones(k as nat);
        let mut map: FxHashMap<u64, Vec<Posting>> = fx_map_with_capacity(db.data.len());
        let n = db.len();
        let mut pid: usize = 0;
        assert(Map::new(|key: u64| map@.contains_key(key), |key: u64| map@[key]@) =~= Map::<u64, Seq<Posting>>::empty());
        while pid < n
            invariant
                db.wf(),
                n == db.count(),
                seqs == db.seqs(),
                mask == ones(k as nat),
                MIN_WORD <= k <= MAX_WORD,
                pid <= n,
                indexes_upto(
                    Map::new(|key: u64| map@.contains_key(key), |key: u64| map@[key]@),
                    seqs,
                    mask,
                    pid as int,
                    0,
                ),
            decreases n - pid,
        {
            let start = db.offsets[pid];
            let end = db.offsets[pid + 1];
            proof {
                lemma_offsets_bounded(db, pid + 1);
            }
            let seq: &[u8] = &db.data.as_slice()[start..end];
            assert(seq@ == seqs[pid as int]);
            if seq.len() >= k {
                let last = seq.len() - k;
                let mut pos: usize = 0;
                while pos <= last
                    invariant
                        db.wf(),
                        n == db.count(),
                        seqs == db.seqs(),
                        mask == ones(k as nat),
                        MIN_WORD <= k <= MAX_WORD,
                        pid < n,
                        seq@ == seqs[pid as int],
                        seq@.len() <= 65535,
                        last == seq@.len() - k,
                        pos <= last + 1,
                        indexes_upto(
                            Map::new(|key: u64| map@.contains_key(key), |key: u64| map@[key]@),
                            seqs,
                            mask,
                            pid as int,
                            pos as int,
                        ),
                    decreases last + 1 - pos,
                {
                    let window = &seq[pos..pos + k];
                    let ghost p: Posting = (pid as u32, pos as u16);
                    proof {
                        lemma_kmer_is_spaced(window@);
                        assert(window_key(seqs, mask, p) == kmer_key(window@));
                    }
                    let ghost before = Map::new(|key: u64| map@.contains_key(key), |key: u64| map@[key]@);
                    if let Some(key) = encode_kmer(window) {
                        let mut list = match fx_remove(&mut map, key) {
                            Some(v) => v,
                            None => Vec::new(),
                        };
                        list.push((pid as u32, pos as u16));
                        fx_insert(&mut map, key, list);
                        proof {
                            let ghost after = Map::new(|key: u64| map@.contains_key(key), |key: u64| map@[key]@);
                            if before.contains_key(key) {
                                assert(after =~= before.insert(key, before[key].push(p)));
                            } else {
                                assert(after =~= before.insert(key, seq![p]));
                            }
                            lemma_append_posting(before, Map::new(|key: u64| map@.contains_key(key), |key: u64| map@[key]@), seqs, mask, key, p);
                        }
                    } else {
                        proof {
                            lemma_skip_window(before, seqs, mask, p);
                        }
                    }
                    pos += 1;
                }
            }
            proof {
                lemma_next_target(Map::new(|key: u64| map@.contains_key(key), |key: u64| map@[key]@), seqs, mask, pid as int, seq@.len() as int);
            }
            pid += 1;
        }
        let r = KmerIndex { map, k, num_proteins: n };
        assert(r.postings() =~= Map::new(|key: u64| map@.contains_key(key), |key: u64| map@[key]@));
        Ok(r)
    }

    /// Every posting names a target below `num_proteins`.
    pub open spec fn wf(&self) -> bool {
        &&& MIN_WORD <= self.k <= MAX_WORD
        &&& self.num_proteins <= u32::MAX
        &&& targets_below(self.postings(), self.num_proteins as nat)
    }

    pub proof fn lemma_built_wf(&self, db: &Database)
        requires
            db.wf(),
            self.built_from(db),
        ensures
            self.wf(),
    {
        assert forall|key: u64, i: int| #[trigger] self.postings().contains_key(key) && 0 <= i < self.postings()[key].len()
            implies (#[trigger] self.postings()[key][i]).0 < self.num_proteins by {
            assert(window_key(db.seqs(), ones(self.k as nat), self.postings()[key][i]) == Some(key));
        }
    }

    /// Basic seed voting: each posting of each query window is a vote for its
    /// target; returns the `top_n` targets with the most votes.
    pub fn search_basic(&self, query_seq: &[u8], top_n: usize) -> (r: Vec<(ProteinId, u32)>)
        requires
            self.wf(),
        ensures
            is_vote_ranking(r@, self.postings(), query_seq@, ones(self.k as nat), self.num_proteins as nat, top_n as nat),
    {
        let ghost view = self.postings();
        let ghost mask = ones(self.k as nat);
        let k = self.k;
        let mut scores: Vec<u32> = vec![0u32; self.num_proteins];
        let mut active: Vec<ProteinId> = Vec::new();
        let qlen = query_seq.len();
        let nw: usize = if qlen >= k { qlen - k + 1 } else { 0 };
        let mut q: usize = 0;
        proof {
            assert forall|pid: int| 0 <= pid < scores@.len() implies #[trigger] scores@[pid] == capped(votes_upto(view, query_seq@, mask, pid, 0)) by {}
        }
        while q < nw
            invariant
                self.wf(),
                view == self.postings(),
                mask == ones(self.k as nat),
                k == self.k,
                nw == num_windows(query_seq@.len(), k as nat),
                nw == 0 || nw + k == query_seq@.len() + 1,
                qlen == query_seq@.len(),
                q <= nw,
                scores@.len() == self.num_proteins,
                tally_of(scores@, active@, |pid: int| votes_upto(view, query_seq@, mask, pid, q as nat)),
            decreases nw - q,
        {
            let window = &query_seq[q..q + k];
            proof {
                lemma_kmer_is_spaced(window@);
                assert(window@ == query_seq@.subrange(q as int, q + mask.len()));
            }
            let ghost next = |pid: int| votes_upto(view, query_seq@, mask, pid, (q + 1) as nat);
            match encode_kmer(window) {
                Some(key) => {
                    match self.query(key) {
                        Some(hits) => {
                            assert(hits@ == window_hits(view, query_seq@, mask, q as int));
                            add_votes(&mut scores, &mut active, hits.as_slice(), Ghost(|pid: int| votes_upto(view, query_seq@, mask, pid, q as nat)));
                            assert((|pid: int| votes_upto(view, query_seq@, mask, pid, q as nat) + count_pid(hits@, pid)) =~= next);
                        },
                        None => {
                            assert(window_hits(view, query_seq@, mask, q as int) =~= Seq::<Posting>::empty());
                            assert((|pid: int| votes_upto(view, query_seq@, mask, pid, q as nat)) =~= next);
                        },
                    }
                },
                None => {
                    assert(window_hits(view, query_seq@, mask, q as int) =~= Seq::<Posting>::empty());
                    assert((|pid: int| votes_upto(view, query_seq@, mask, pid, q as nat)) =~= next);
                },
            }
            q += 1;
        }
        assert((|pid: int| votes_upto(view, query_seq@, mask, pid, q as nat)) =~= (|pid: int| votes(view, query_seq@, mask, pid)));

        let ghost cf = |pid: int| votes(view, query_seq@, mask, pid);
        let r = rank_votes(&scores, &active, top_n, Ghost(cf));
        assert forall|pid: int| 0 <= pid < self.num_proteins && #[trigger] votes(view, query_seq@, mask, pid) > 0 implies {
            ||| exists|t: int| 0 <= t < r@.len() && r@[t].0 == pid
            ||| r@.len() == top_n && forall|t: int| 0 <= t < r@.len() ==> crate::vote::vote_before(
                r@[t],
                (pid as ProteinId, capped(votes(view, query_seq@, mask, pid))),
            )
        } by {
            assert(cf(pid) > 0);
        }
        r
    }

    /// The posting list of `key`, if any window has that key.
    pub fn query(&self, encoded_kmer: u64) -> (r: Option<&Vec<Posting>>)
        ensures
            match r {
                Some(v) => self.postings().contains_key(encoded_kmer) && v@ == self.postings()[encoded_kmer],
                None => !self.postings().contains_key(encoded_kmer),
            },
    {
        fx_get(&self.map, encoded_kmer)
    }
}

/// Appending the window `p` to the list of its key extends the indexed prefix by `p`.
pub proof fn lemma_append_posting(
    before: Map<u64, Seq<Posting>>,
    after: Map<u64, Seq<Posting>>,
    seqs: Seq<Seq<u8>>,
    mask: Seq<bool>,
    key: u64,
    p: Posting,
)
    requires
        indexes_upto(before, seqs, mask, p.0 as int, p.1 as int),
        window_key(seqs, mask, p) == Some(key),
        after == before.insert(key, if before.contains_key(key) { before[key].push(p) } else { seq![p] }),
    ensures
        indexes_upto(after, seqs, mask, p.0 as int, p.1 + 1),
{
    let pid = p.0 as int;
    let pos = p.1 as int;
    assert forall|kk: u64| #[trigger] after.contains_key(kk) implies {
        &&& after[kk].len() > 0
        &&& strictly_sorted(after[kk])
        &&& forall|i: int| 0 <= i < after[kk].len() ==> scanned(#[trigger] after[kk][i], pid, pos + 1)
            && window_key(seqs, mask, after[kk][i]) == Some(kk)
    } by {
        if kk == key && before.contains_key(key) {
            let l = before[key];
            assert forall|i: int| 0 <= i < l.len() implies scanned(#[trigger] l[i], pid, pos) by {}
            assert(after[kk] == l.push(p));
        }
    }
    assert forall|q: Posting| #[trigger] window_key(seqs, mask, q) is Some && scanned(q, pid, pos + 1) implies {
        &&& after.contains_key(window_key(seqs, mask, q)->0)
        &&& after[window_key(seqs, mask, q)->0].contains(q)
    } by {
        let kq = window_key(seqs, mask, q)->0;
        if q == p {
            assert(after[key].last() == p);
        } else {
            assert(scanned(q, pid, pos));
            assert(before[kq].contains(q));
            if kq == key {
                let j = choose|j: int| 0 <= j < before[key].len() && before[key][j] == q;
                assert(after[key][j] == q);
            }
        }
    }
}

/// Skipping a window without a key extends the indexed prefix by it.
pub proof fn lemma_skip_window(view: Map<u64, Seq<Posting>>, seqs: Seq<Seq<u8>>, mask: Seq<bool>, p: Posting)
    requires
        indexes_upto(view, seqs, mask, p.0 as int, p.1 as int),
        window_key(seqs, mask, p) is None,
    ensures
        indexes_upto(view, seqs, mask, p.0 as int, p.1 + 1),
{
    let pid = p.0 as int;
    let pos = p.1 as int;
    assert forall|q: Posting| #[trigger] window_key(seqs, mask, q) is Some && scanned(q, pid, pos + 1) implies {
        &&& view.contains_key(window_key(seqs, mask, q)->0)
        &&& view[window_key(seqs, mask, q)->0].contains(q)
    } by {
        assert(q != p);
        assert(scanned(q, pid, pos));
    }
}

/// Past the last window of target `pid`, the indexed prefix reaches the next target.
pub proof fn lemma_next_target(view: Map<u64, Seq<Posting>>, seqs: Seq<Seq<u8>>, mask: Seq<bool>, pid: int, len: int)
    requires
        0 <= pid < seqs.len(),
        len == seqs[pid].len(),
        len <= 65535,
        mask.len() >= 1,
        indexes_upto(view, seqs, mask, pid, if len >= mask.len() { len - mask.len() + 1 } else { 0 }),
    ensures
        indexes_upto(view, seqs, mask, pid + 1, 0),
{
    let end = if len >= mask.len() { len - mask.len() + 1 } else { 0 };
    assert forall|q: Posting| #[trigger] window_key(seqs, mask, q) is Some && scanned(q, pid + 1, 0) implies {
        &&& view.contains_key(window_key(seqs, mask, q)->0)
        &&& view[window_key(seqs, mask, q)->0].contains(q)
    } by {
        assert(scanned(q, pid, end));
    }
}

proof fn lemma_sorted_unique(xs: Seq<Posting>, ys: Seq<Posting>)
    requires
        strictly_sorted(xs),
        strictly_sorted(ys),
        forall|p: Posting| xs.contains(p) <==> ys.contains(p),
    ensures
        xs == ys,
    decreases xs.len(),
{
    if xs.len() == 0 {
        if ys.len() > 0 {
            assert(ys.contains(ys[0]));
        }
        assert(xs =~= ys);
    } else {
        assert(xs.contains(xs[0]));
        assert(ys.len() > 0);
        assert(ys.contains(ys[0]));
        if xs[0] != ys[0] {
            let j = choose|j: int| 0 <= j < ys.len() && ys[j] == xs[0];
            let i = choose|i: int| 0 <= i < xs.len() && xs[i] == ys[0];
            assert(posting_lt(ys[0], ys[j]));
            assert(posting_lt(xs[0], xs[i]));
        }
        let t1 = xs.drop_first();
        let t2 = ys.drop_first();
        assert forall|p: Posting| t1.contains(p) <==> t2.contains(p) by {
            if t1.contains(p) {
                let i = choose|i: int| 0 <= i < t1.len() && t1[i] == p;
                assert(posting_lt(xs[0], xs[i + 1]));
                assert(ys.contains(p));
                let j = choose|j: int| 0 <= j < ys.len() && ys[j] == p;
                assert(j != 0);
                assert(t2[j - 1] == p);
            }
            if t2.contains(p) {
                let j = choose|j: int| 0 <= j < t2.len() && t2[j] == p;
                assert(posting_lt(ys[0], ys[j + 1]));
                assert(xs.contains(p));
                let i = choose|i: int| 0 <= i < xs.len() && xs[i] == p;
                assert(i != 0);
                assert(t1[i - 1] == p);
            }
        }
        lemma_sorted_unique(t1, t2);
        assert(xs =~= ys) by {
            assert forall|i: int| 0 <= i < xs.len() implies xs[i] == ys[i] by {
                if i > 0 {
                    assert(xs[i] == t1[i - 1]);
                    assert(ys[i] == t2[i - 1]);
                }
            }
        }
    }
}

/// Two indexes of the same windows under the same mask are equal.
pub proof fn lemma_index_unique(v1: Map<u64, Seq<Posting>>, v2: Map<u64, Seq<Posting>>, seqs: Seq<Seq<u8>>, mask: Seq<bool>)
    requires
        indexes(v1, seqs, mask),
        indexes(v2, seqs, mask),
    ensures
        v1 == v2,
{
    let n = seqs.len() as int;
    assert forall|key: u64| v1.contains_key(key) implies v2.contains_key(key) by {
        let p = v1[key][0];
        assert(window_key(seqs, mask, p) == Some(key));
        assert(scanned(p, n, 0));
    }
    assert forall|key: u64| v2.contains_key(key) implies v1.contains_key(key) by {
        let p = v2[key][0];
        assert(window_key(seqs, mask, p) == Some(key));
        assert(scanned(p, n, 0));
    }
    assert forall|key: u64| v1.contains_key(key) implies v1[key] == v2[key] by {
        assert forall|p: Posting| v1[key].contains(p) <==> v2[key].contains(p) by {
            if v1[key].contains(p) {
                let i = choose|i: int| 0 <= i < v1[key].len() && v1[key][i] == p;
                assert(window_key(seqs, mask, v1[key][i]) == Some(key));
                assert(scanned(p, n, 0));
            }
            if v2[key].contains(p) {
                let i = choose|i: int| 0 <= i < v2[key].len() && v2[key][i] == p;
                assert(window_key(seqs, mask, v2[key][i]) == Some(key));
                assert(scanned(p, n, 0));
            }
        }
        lemma_sorted_unique(v1[key], v2[key]);
    }
    assert(v1 =~= v2);
}

/// Index completeness: every window of a target that has a key is in the
/// posting list of that key, under its target and start position.
pub proof fn lemma_index_complete(idx: &KmerIndex, db: &Database, p: Posting)
    requires
        idx.built_from(db),
        p.0 < db.count(),
        p.1 + idx.k <= db.seqs()[p.0 as int].len(),
        kmer_key(db.seqs()[p.0 as int].subrange(p.1 as int, p.1 + idx.k)) is Some,
    ensures
        ({
            let key = kmer_key(db.seqs()[p.0 as int].subrange(p.1 as int, p.1 + idx.k))->0;
            idx.postings().contains_key(key) && idx.postings()[key].contains(p)
        }),
{
    let w = db.seqs()[p.0 as int].subrange(p.1 as int, p.1 + idx.k);
    lemma_kmer_is_spaced(w);
    assert(window_key(db.seqs(), ones(idx.k as nat), p) == kmer_key(w));
    assert(scanned(p, db.count() as int, 0));
}

} // verus!
