//! Flat read-only store of target sequences.
use vstd::prelude::*;

verus! {

/// Longest sequence the store keeps: positions are 16-bit. Longer sequences are
/// truncated to their first `MAX_SEQ_LEN` residues when they are added.
pub const MAX_SEQ_LEN: usize = 65535;

/// Identifiers and residues of all targets: record `i` is `ids[i]` with the
/// residues `data[offsets[i]..offsets[i + 1]]`.
pub struct Database {
    pub ids: Vec<String>,
    pub data: Vec<u8>,
    pub offsets: Vec<usize>,
}

impl Database {
    pub open spec fn wf(&self) -> bool {
        &&& self.offsets@.len() == self.ids@.len() + 1
        &&& self.ids@.len() <= u32::MAX
        &&& self.offsets@[0] == 0
        &&& self.offsets@.last() == self.data@.len()
        &&& forall|i: int|
            0 <= i < self.ids@.len() ==> self.offsets@[i] <= #[trigger] self.offsets@[i + 1]
                && self.offsets@[i + 1] - self.offsets@[i] <= MAX_SEQ_LEN
    }

    /// Number of records.
    pub open spec fn count(&self) -> nat {
        self.ids@.len()
    }

    /// Residues of record `i`.
    pub open spec fn seq_at(&self, i: int) -> Seq<u8> {
        self.data@.subrange(self.offsets@[i] as int, self.offsets@[i + 1] as int)
    }

    /// Residues of every record, in load order.
    pub open spec fn seqs(&self) -> Seq<Seq<u8>> {
        Seq::new(self.count(), |i: int| self.seq_at(i))
    }

    /// Identifier of every record, in load order.
    pub open spec fn names(&self) -> Seq<Seq<char>> {
        Seq::new(self.count(), |i: int| self.ids@[i]@)
    }

    /// An empty store.
    pub fn new() -> (r: Database)
        ensures
            r.wf(),
            r.count() == 0,
    {
        Database { ids: Vec::new(), data: Vec::new(), offsets: vec![0] }
    }

    /// Appends a record; residues past `MAX_SEQ_LEN` are dropped.
    pub fn push(&mut self, id: String, seq: &[u8])
        requires
            old(self).wf(),
            old(self).count() < u32::MAX,
            old(self).data@.len() + MAX_SEQ_LEN <= usize::MAX,
        ensures
            final(self).wf(),
            final(self).names() == old(self).names().push(id@),
            final(self).seqs() == old(self).seqs().push(
                if seq@.len() <= MAX_SEQ_LEN { seq@ } else { seq@.subrange(0, MAX_SEQ_LEN as int) },
            ),
    {
        let n: usize = if seq.len() <= MAX_SEQ_LEN { seq.len() } else { MAX_SEQ_LEN };
        let ghost old_db = *old(self);
        let mut i: usize = 0;
        while i < n
            invariant
                i <= n <= seq@.len(),
                n <= MAX_SEQ_LEN,
                self.ids == old_db.ids,
                self.offsets == old_db.offsets,
                self.data@ == old_db.data@ + seq@.subrange(0, i as int),
                old_db.data@.len() + MAX_SEQ_LEN <= usize::MAX,
            decreases n - i,
        {
            self.data.push(seq[i]);
            i += 1;
            assert(self.data@ =~= old_db.data@ + seq@.subrange(0, i as int));
        }
        self.ids.push(id);
        self.offsets.push(self.data.len());
        let ghost added = if seq@.len() <= MAX_SEQ_LEN { seq@ } else { seq@.subrange(0, MAX_SEQ_LEN as int) };
        assert(added =~= seq@.subrange(0, n as int));
        assert forall|j: int| 0 <= j < old_db.count() implies self.seq_at(j) == old_db.seq_at(j) by {
            assert(self.offsets@[j] == old_db.offsets@[j]);
            assert(self.offsets@[j + 1] == old_db.offsets@[j + 1]);
            lemma_offsets_bounded(&old_db, j + 1);
            assert(self.seq_at(j) =~= old_db.seq_at(j));
        }
        assert(self.seq_at(old_db.count() as int) =~= added);
        assert(self.seqs() =~= old_db.seqs().push(added));
        assert(self.names() =~= old_db.names().push(id@));
    }

    pub fn len(&self) -> (r: usize)
        ensures
            r == self.count(),
    {
        self.ids.len()
    }

    pub fn is_empty(&self) -> (r: bool)
        ensures
            r == (self.count() == 0),
    {
        self.ids.len() == 0
    }

    /// Identifier and residues of record `index`, if there is one.
    pub fn get(&self, index: usize) -> (r: Option<(&str, &[u8])>)
        requires
            self.wf(),
        ensures
            index < self.count() ==> match r {
                Some(p) => p.0@ == self.ids@[index as int]@ && p.1@ == self.seq_at(index as int) && p.1@.len() <= MAX_SEQ_LEN,
                None => false,
            },
            index >= self.count() ==> r is None,
    {
        if index < self.ids.len() {
            let start = self.offsets[index];
            let end = self.offsets[index + 1];
            assert(self.offsets@[index as int] <= self.offsets@[index as int + 1]);
            proof {
                lemma_offsets_bounded(self, index as int + 1);
            }
            Some((self.ids[index].as_str(), &self.data.as_slice()[start..end]))
        } else {
            None
        }
    }
}

/// Each offset lies within the data.
pub proof fn lemma_offsets_bounded(db: &Database, i: int)
    requires
        db.wf(),
        0 <= i <= db.count(),
    ensures
        db.offsets@[i] <= db.data@.len(),
    decreases db.count() - i,
{
    if i < db.count() {
        lemma_offsets_bounded(db, i + 1);
        assert(db.offsets@[i] <= db.offsets@[i + 1]);
    }
}

} // verus!
