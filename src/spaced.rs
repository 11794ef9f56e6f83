//! Spaced-seed index: a binary pattern picks the residues of each window that
//! form its key.
use vstd::prelude::*;
use smallvec::SmallVec;
use vstd::string::StringSliceAdditionalSpecFns;
use crate::alphabet::{encode_spaced, weight, ones, MAX_WORD};
use crate::database::{Database, lemma_offsets_bounded};
use crate::index::ProteinId;
use crate::vote::{add_votes, rank_votes, is_vote_ranking, tally_of, votes, votes_upto, window_hits, num_windows, count_pid, capped, targets_below};
use crate::index::{
    FxMap, IndexError, KmerIndex, Posting, lemma_index_unique, fx_map_with_capacity, fx_get, fx_remove, fx_insert, indexes, indexes_upto,
    window_key, lemma_append_posting, lemma_skip_window, lemma_next_target,
};

verus! {

/// Posting list with room for two postings before it spills to the heap.
#[verifier::external_body]
pub struct PostingsList {
    inner: SmallVec<[Posting; 2]>,
}

/// The postings a `PostingsList` holds, in order.
pub uninterp spec fn small_postings(v: PostingsList) -> Seq<Posting>;

/// Relies on `SmallVec::new`: the new list is empty.
#[verifier::external_body]
fn small_new() -> (r: PostingsList)
    ensures
        small_postings(r) == Seq::<Posting>::empty(),
{
    PostingsList { inner: SmallVec::new() }
}

/// Relies on `SmallVec::push`: appends one posting.
#[verifier::external_body]
fn small_push(v: &mut PostingsList, p: Posting)
    ensures
        small_postings(*final(v)) == small_postings(*old(v)).push(p),
{
    v.inner.push(p)
}

/// Relies on `SmallVec::as_slice`: the postings, in order.
#[verifier::external_body]
pub(crate) fn small_as_slice(v: &PostingsList) -> (r: &[Posting])
    ensures
        r@ == small_postings(*v),
{
    v.inner.as_slice()
}

/// The mask a pattern spells: a position is set where the pattern has `1`.
pub open spec fn pattern_mask(bytes: Seq<u8>) -> Seq<bool> {
    bytes.map_values(|b: u8| b == 49u8)
}

pub open spec fn pattern_symbols_ok(bytes: Seq<u8>) -> bool {
    forall|i: int| 0 <= i < bytes.len() ==> (#[trigger] bytes[i] == 48u8 || bytes[i] == 49u8)
}

/// Inverted index of the spaced words of every target.
pub struct SpacedIndex {
    pub map: FxMap<PostingsList>,
    pub pattern: String,
    pub mask: Vec<bool>,
    pub weight: usize,
    pub num_proteins: usize,
}

impl SpacedIndex {
    /// The posting list of every key.
    pub open spec fn postings(&self) -> Map<u64, Seq<Posting>> {
        Map::new(|key: u64| self.map@.contains_key(key), |key: u64| small_postings(self.map@[key]))
    }

    /// Built from `db`: every window of the pattern's span of every target is indexed.
    pub open spec fn built_from(&self, db: &Database) -> bool {
        &&& self.weight == weight(self.mask@)
        &&& 1 <= self.weight <= MAX_WORD
        &&& self.num_proteins == db.count()
        &&& indexes(self.postings(), db.seqs(), self.mask@)
    }

    /// Indexes every window of `db` under `pattern`, a string of `0` and `1`
    /// with between one and twelve `1`s.
    pub fn build(db: &Database, pattern: &str) -> (r: Result<SpacedIndex, IndexError>)
        requires
            db.wf(),
        ensures
            !pattern_symbols_ok(pattern.spec_bytes()) <==> r == Err::<SpacedIndex, IndexError>(IndexError::PatternSymbol),
            pattern_symbols_ok(pattern.spec_bytes()) ==> ((weight(pattern_mask(pattern.spec_bytes())) == 0 || weight(
                pattern_mask(pattern.spec_bytes()),
            ) > MAX_WORD) <==> r == Err::<SpacedIndex, IndexError>(IndexError::PatternWeight)),
            pattern_symbols_ok(pattern.spec_bytes()) && 1 <= weight(pattern_mask(pattern.spec_bytes())) <= MAX_WORD
                ==> r is Ok,
            r is Ok ==> r->Ok_0.mask@ == pattern_mask(pattern.spec_bytes()) && r->Ok_0.pattern@ == pattern@
                && r->Ok_0.built_from(db),
    {
        let bytes = pattern.as_bytes();
        let mut mask: Vec<bool> = Vec::new();
        let mut w: usize = 0;
        let mut i: usize = 0;
        while i < bytes.len()
            invariant
                i <= bytes@.len(),
                bytes@ == pattern.spec_bytes(),
                pattern_symbols_ok(bytes@.subrange(0, i as int)),
                mask@ == pattern_mask(bytes@.subrange(0, i as int)),
                w == weight(mask@),
                w <= i,
            decreases bytes@.len() - i,
        {
            let b = bytes[i];
            if b != 48u8 && b != 49u8 {
                return Err(IndexError::PatternSymbol);
            }
            let ghost prev = mask@;
            mask.push(b == 49u8);
            assert(mask@.drop_last() =~= prev);
            if b == 49u8 {
                w += 1;
            }
            i += 1;
            assert(mask@ =~= pattern_mask(bytes@.subrange(0, i as int)));
            assert(pattern_symbols_ok(bytes@.subrange(0, i as int))) by {
                assert forall|j: int| 0 <= j < i implies (#[trigger] bytes@.subrange(0, i as int)[j] == 48u8
                    || bytes@.subrange(0, i as int)[j] == 49u8) by {
                    if j < i - 1 {
                        assert(bytes@.subrange(0, i as int)[j] == bytes@.subrange(0, i - 1)[j]);
                    }
                }
            }
        }
        assert(bytes@.subrange(0, bytes@.len() as int) =~= bytes@);
        if w == 0 || w > MAX_WORD {
            return Err(IndexError::PatternWeight);
        }
        let span = mask.len();
        proof {
            crate::alphabet::lemma_weight_le_len(mask@);
        }
        let ghost seqs = db.seqs();
        let mut map: FxMap<PostingsList> = fx_map_with_capacity(db.data.len());
        let n = db.len();
        let mut pid: usize = 0;
        assert(Map::new(|key: u64| map@.contains_key(key), |key: u64| small_postings(map@[key])) =~= Map::<
            u64,
            Seq<Posting>,
        >::empty());
        while pid < n
            invariant
                db.wf(),
                n == db.count(),
                seqs == db.seqs(),
                span == mask@.len(),
                1 <= span,
                weight(mask@) <= MAX_WORD,
                pid <= n,
                indexes_upto(
                    Map::new(|key: u64| map@.contains_key(key), |key: u64| small_postings(map@[key])),
                    seqs,
                    mask@,
                    pid as int,
                    0,
                ),
            decreases n - pid,
        {
            let start = db.offsets[pid];
            let end = db.offsets[pid + 1];
            proof {
                lemma_offsets_bounded(db, pid + 1);
            }
            let seq: &[u8] = &db.data.as_slice()[start..end];
            assert(seq@ == seqs[pid as int]);
            if seq.len() >= span {
                let last = seq.len() - span;
                let mut pos: usize = 0;
                while pos <= last
                    invariant
                        db.wf(),
                        n == db.count(),
                        seqs == db.seqs(),
                        span == mask@.len(),
                        1 <= span,
                        weight(mask@) <= MAX_WORD,
                        pid < n,
                        seq@ == seqs[pid as int],
                        seq@.len() <= 65535,
                        last == seq@.len() - span,
                        pos <= last + 1,
                        indexes_upto(
                            Map::new(|key: u64| map@.contains_key(key), |key: u64| small_postings(map@[key])),
                            seqs,
                            mask@,
                            pid as int,
                            pos as int,
                        ),
                    decreases last + 1 - pos,
                {
                    let window = &seq[pos..pos + span];
                    let ghost p: Posting = (pid as u32, pos as u16);
                    assert(window_key(seqs, mask@, p) == crate::alphabet::spaced_key(window@, mask@));
                    let ghost before = Map::new(|key: u64| map@.contains_key(key), |key: u64| small_postings(map@[key]));
                    if let Some(key) = encode_spaced(window, mask.as_slice()) {
                        let mut list = match fx_remove(&mut map, key) {
                            Some(v) => v,
                            None => small_new(),
                        };
                        small_push(&mut list, (pid as u32, pos as u16));
                        fx_insert(&mut map, key, list);
                        proof {
                            let ghost after = Map::new(|key: u64| map@.contains_key(key), |key: u64| small_postings(map@[key]));
                            if before.contains_key(key) {
                                assert(after =~= before.insert(key, before[key].push(p)));
                            } else {
                                assert(after =~= before.insert(key, seq![p]));
                            }
                            lemma_append_posting(before, after, seqs, mask@, key, p);
                        }
                    } else {
                        proof {
                            lemma_skip_window(before, seqs, mask@, p);
                        }
                    }
                    pos += 1;
                }
            }
            proof {
                lemma_next_target(
                    Map::new(|key: u64| map@.contains_key(key), |key: u64| small_postings(map@[key])),
                    seqs,
                    mask@,
                    pid as int,
                    seq@.len() as int,
                );
            }
            pid += 1;
        }
        let r = SpacedIndex { map, pattern: pattern.to_owned(), mask, weight: w, num_proteins: n };
        assert(r.postings() =~= Map::new(|key: u64| map@.contains_key(key), |key: u64| small_postings(map@[key])));
        Ok(r)
    }

    /// Every posting names a target below `num_proteins`.
    pub open spec fn wf(&self) -> bool {
        &&& self.weight == weight(self.mask@)
        &&& 1 <= self.weight <= MAX_WORD
        &&& self.num_proteins <= u32::MAX
        &&& targets_below(self.postings(), self.num_proteins as nat)
    }

    pub proof fn lemma_built_wf(&self, db: &Database)
        requires
            db.wf(),
            self.built_from(db),
        ensures
            self.wf(),
    {
        assert forall|key: u64, i: int| #[trigger] self.postings().contains_key(key) && 0 <= i < self.postings()[key].len()
            implies (#[trigger] self.postings()[key][i]).0 < self.num_proteins by {
            assert(window_key(db.seqs(), self.mask@, self.postings()[key][i]) == Some(key));
        }
    }

    /// Basic seed voting over the spaced words of the query: returns the
    /// `top_n` targets with the most votes.
    pub fn search_basic(&self, query_seq: &[u8], top_n: usize) -> (r: Vec<(ProteinId, u32)>)
        requires
            self.wf(),
        ensures
            is_vote_ranking(r@, self.postings(), query_seq@, self.mask@, self.num_proteins as nat, top_n as nat),
    {
        let ghost view = self.postings();
        let ghost mask = self.mask@;
        let span = self.mask.len();
        proof {
            crate::alphabet::lemma_weight_le_len(mask);
        }
        let mut scores: Vec<u32> = vec![0u32; self.num_proteins];
        let mut active: Vec<ProteinId> = Vec::new();
        let qlen = query_seq.len();
        let nw: usize = if qlen >= span { qlen - span + 1 } else { 0 };
        let mut q: usize = 0;
        proof {
            assert forall|pid: int| 0 <= pid < scores@.len() implies #[trigger] scores@[pid] == capped(votes_upto(view, query_seq@, mask, pid, 0)) by {}
        }
        while q < nw
            invariant
                self.wf(),
                view == self.postings(),
                mask == self.mask@,
                span == mask.len(),
                nw == num_windows(query_seq@.len(), span as nat),
                nw == 0 || nw + span == query_seq@.len() + 1,
                qlen == query_seq@.len(),
                q <= nw,
                scores@.len() == self.num_proteins,
                tally_of(scores@, active@, |pid: int| votes_upto(view, query_seq@, mask, pid, q as nat)),
            decreases nw - q,
        {
            let window = &query_seq[q..q + span];
            let ghost next = |pid: int| votes_upto(view, query_seq@, mask, pid, (q + 1) as nat);
            match encode_spaced(window, self.mask.as_slice()) {
                Some(key) => {
                    match self.query(key) {
                        Some(hits) => {
                            assert(hits@ == window_hits(view, query_seq@, mask, q as int));
                            add_votes(&mut scores, &mut active, hits, Ghost(|pid: int| votes_upto(view, query_seq@, mask, pid, q as nat)));
                            assert((|pid: int| votes_upto(view, query_seq@, mask, pid, q as nat) + count_pid(hits@, pid)) =~= next);
                        },
                        None => {
                            assert(window_hits(view, query_seq@, mask, q as int) =~= Seq::<Posting>::empty());
                            assert((|pid: int| votes_upto(view, query_seq@, mask, pid, q as nat)) =~= next);
                        },
                    }
                },
                None => {
                    assert(window_hits(view, query_seq@, mask, q as int) =~= Seq::<Posting>::empty());
                    assert((|pid: int| votes_upto(view, query_seq@, mask, pid, q as nat)) =~= next);
                },
            }
            q += 1;
        }
        assert((|pid: int| votes_upto(view, query_seq@, mask, pid, q as nat)) =~= (|pid: int| votes(view, query_seq@, mask, pid)));
        let ghost cf = |pid: int| votes(view, query_seq@, mask, pid);
        let r = rank_votes(&scores, &active, top_n, Ghost(cf));
        assert forall|pid: int| 0 <= pid < self.num_proteins && #[trigger] votes(view, query_seq@, mask, pid) > 0 implies {
            ||| exists|t: int| 0 <= t < r@.len() && r@[t].0 == pid
            ||| r@.len() == top_n && forall|t: int| 0 <= t < r@.len() ==> crate::vote::vote_before(
                r@[t],
                (pid as ProteinId, capped(votes(view, query_seq@, mask, pid))),
            )
        } by {
            assert(cf(pid) > 0);
        }
        r
    }

    /// The posting list of `key`, if any window has that key.
    pub fn query(&self, key: u64) -> (r: Option<&[Posting]>)
        ensures
            match r {
                Some(v) => self.postings().contains_key(key) && v@ == self.postings()[key],
                None => !self.postings().contains_key(key),
            },
    {
        match fx_get(&self.map, key) {
            Some(list) => Some(small_as_slice(list)),
            None => None,
        }
    }
}

/// A spaced pattern of `k` ones indexes exactly as the contiguous index of
/// word length `k`: the same keys with the same posting lists.
pub proof fn lemma_all_ones_pattern_is_contiguous(kmer: &KmerIndex, spaced: &SpacedIndex, db: &Database)
    requires
        kmer.built_from(db),
        spaced.built_from(db),
        spaced.mask@ == ones(kmer.k as nat),
    ensures
        spaced.postings() == kmer.postings(),
{
    lemma_index_unique(spaced.postings(), kmer.postings(), db.seqs(), spaced.mask@);
}

} // verus!
