//! FASTA records, fed one line at a time.
use vstd::prelude::*;
use crate::database::{Database, MAX_SEQ_LEN};

verus! {

/// ASCII whitespace: space, tab, line feed, vertical tab, form feed, carriage return.
pub open spec fn is_ws(b: u8) -> bool {
    b == 32 || (9 <= b && b <= 13)
}

pub open spec fn trim_start(s: Seq<u8>) -> Seq<u8>
    decreases s.len(),
{
    if s.len() > 0 && is_ws(s[0]) { trim_start(s.drop_first()) } else { s }
}

pub open spec fn trim_end(s: Seq<u8>) -> Seq<u8>
    decreases s.len(),
{
    if s.len() > 0 && is_ws(s.last()) { trim_end(s.drop_last()) } else { s }
}

/// The line without leading and trailing whitespace.
pub open spec fn trim(s: Seq<u8>) -> Seq<u8> {
    trim_end(trim_start(s))
}

/// The leading run of non-whitespace bytes.
pub open spec fn take_token(s: Seq<u8>) -> Seq<u8>
    decreases s.len(),
{
    if s.len() == 0 || is_ws(s[0]) { Seq::empty() } else { seq![s[0]] + take_token(s.drop_first()) }
}

/// First whitespace-separated word of a header line after its `>`, or `unknown`.
pub open spec fn header_id(t: Seq<u8>) -> Seq<u8> {
    let tok = take_token(trim_start(t.drop_first()));
    if tok.len() > 0 { tok } else { seq![117u8, 110u8, 107u8, 110u8, 111u8, 119u8, 110u8] }
}

/// The first `MAX_SEQ_LEN` bytes of `s`.
pub open spec fn clip(s: Seq<u8>) -> Seq<u8> {
    if s.len() <= MAX_SEQ_LEN { s } else { s.subrange(0, MAX_SEQ_LEN as int) }
}

/// Name of the identifier text of `bytes`, read as UTF-8.
pub uninterp spec fn utf8_text(bytes: Seq<u8>) -> Seq<char>;

/// Relies on `String::from_utf8_lossy`: the text of the bytes, with invalid
/// sequences replaced; ASCII bytes come out as the same characters.
#[verifier::external_body]
fn text_of(bytes: &[u8]) -> (r: String)
    ensures
        r@ == utf8_text(bytes@),
        (forall|i: int| 0 <= i < bytes@.len() ==> bytes@[i] < 128) ==> r@ == bytes@.map_values(|b: u8| b as char),
{
    String::from_utf8_lossy(bytes).into_owned()
}


fn copy_bytes(s: &[u8]) -> (r: Vec<u8>)
    ensures
        r@ == s@,
{
    let mut r: Vec<u8> = Vec::new();
    let mut i: usize = 0;
    while i < s.len()
        invariant
            i <= s@.len(),
            r@ == s@.subrange(0, i as int),
        decreases s@.len() - i,
    {
        r.push(s[i]);
        i += 1;
        assert(r@ =~= s@.subrange(0, i as int));
    }
    assert(s@.subrange(0, s@.len() as int) =~= s@);
    r
}

fn is_ws_exec(b: u8) -> (r: bool)
    ensures
        r == is_ws(b),
{
    b == 32 || (9 <= b && b <= 13)
}

proof fn lemma_trim_start(s: Seq<u8>, a: int)
    requires
        0 <= a <= s.len(),
        forall|i: int| 0 <= i < a ==> is_ws(s[i]),
        a == s.len() || !is_ws(s[a]),
    ensures
        trim_start(s) == s.subrange(a, s.len() as int),
    decreases a,
{
    if a > 0 {
        lemma_trim_start(s.drop_first(), a - 1);
        assert(s.drop_first().subrange(a - 1, s.len() - 1) =~= s.subrange(a, s.len() as int));
    } else {
        assert(s.subrange(0, s.len() as int) =~= s);
    }
}

proof fn lemma_trim_end(s: Seq<u8>, b: int)
    requires
        0 <= b <= s.len(),
        forall|i: int| b <= i < s.len() ==> is_ws(s[i]),
        b == 0 || !is_ws(s[b - 1]),
    ensures
        trim_end(s) == s.subrange(0, b),
    decreases s.len() - b,
{
    if b < s.len() {
        lemma_trim_end(s.drop_last(), b);
        assert(s.drop_last().subrange(0, b) =~= s.subrange(0, b));
    } else {
        assert(s.subrange(0, b) =~= s);
    }
}

proof fn lemma_take_token(s: Seq<u8>, e: int)
    requires
        0 <= e <= s.len(),
        forall|i: int| 0 <= i < e ==> !is_ws(s[i]),
        e == s.len() || is_ws(s[e]),
    ensures
        take_token(s) == s.subrange(0, e),
    decreases e,
{
    if e > 0 {
        lemma_take_token(s.drop_first(), e - 1);
        assert(seq![s[0]] + s.drop_first().subrange(0, e - 1) =~= s.subrange(0, e));
    } else {
        assert(s.subrange(0, 0) =~= Seq::<u8>::empty());
    }
}

/// `line[a..b]` is the line without leading and trailing whitespace.
fn trim_bounds(line: &[u8]) -> (r: (usize, usize))
    ensures
        r.0 <= r.1 <= line@.len(),
        line@.subrange(r.0 as int, r.1 as int) == trim(line@),
{
    let n = line.len();
    let mut a: usize = 0;
    while a < n && is_ws_exec(line[a])
        invariant
            a <= n == line@.len(),
            forall|i: int| 0 <= i < a ==> is_ws(line@[i]),
        decreases n - a,
    {
        a += 1;
    }
    let mut b: usize = n;
    while b > a && is_ws_exec(line[b - 1])
        invariant
            a <= b <= n == line@.len(),
            forall|i: int| b <= i < n ==> is_ws(line@[i]),
        decreases b,
    {
        b -= 1;
    }
    proof {
        lemma_trim_start(line@, a as int);
        let rest = line@.subrange(a as int, n as int);
        lemma_trim_end(rest, (b - a) as int);
        assert(rest.subrange(0, (b - a) as int) =~= line@.subrange(a as int, b as int));
    }
    (a, b)
}

/// `t[a..b]` is the first word after the leading `>` of a header.
fn token_bounds(t: &[u8]) -> (r: (usize, usize))
    requires
        t@.len() >= 1,
    ensures
        1 <= r.0 <= r.1 <= t@.len(),
        t@.subrange(r.0 as int, r.1 as int) == take_token(trim_start(t@.drop_first())),
{
    let n = t.len();
    let mut a: usize = 1;
    while a < n && is_ws_exec(t[a])
        invariant
            1 <= a <= n == t@.len(),
            forall|i: int| 1 <= i < a ==> is_ws(t@[i]),
        decreases n - a,
    {
        a += 1;
    }
    let mut b: usize = a;
    while b < n && !is_ws_exec(t[b])
        invariant
            a <= b <= n == t@.len(),
            forall|i: int| a <= i < b ==> !is_ws(t@[i]),
        decreases n - b,
    {
        b += 1;
    }
    proof {
        let d = t@.drop_first();
        lemma_trim_start(d, a - 1);
        let rest = d.subrange(a - 1, d.len() as int);
        lemma_take_token(rest, (b - a) as int);
        assert(rest.subrange(0, (b - a) as int) =~= t@.subrange(a as int, b as int));
    }
    (a, b)
}

/// Malformed input.
#[derive(Debug, Clone, Copy, PartialEq, Eq)]
pub enum FastaError {
    /// A sequence line before the first header.
    DataBeforeHeader,
    /// More records than 32-bit identifiers can name, or more residues than memory can index.
    TooLarge,
}

/// Reads FASTA one line at a time into a `Database`.
pub struct FastaReader {
    pub db: Database,
    pub current_id: Option<Vec<u8>>,
    pub current_seq: Vec<u8>,
}

impl FastaReader {
    pub open spec fn wf(&self) -> bool {
        &&& self.db.wf()
        &&& self.current_seq@.len() <= MAX_SEQ_LEN
        &&& self.current_id is None ==> self.current_seq@.len() == 0
    }

    /// Room for one more record.
    pub open spec fn has_room(&self) -> bool {
        self.db.count() < u32::MAX && self.db.data@.len() + MAX_SEQ_LEN <= usize::MAX
    }

    pub fn new() -> (r: FastaReader)
        ensures
            r.wf(),
            r.db.count() == 0,
            r.current_id is None,
    {
        FastaReader { db: Database::new(), current_id: None, current_seq: Vec::new() }
    }

    fn flush(&mut self)
        requires
            old(self).wf(),
            old(self).has_room(),
            old(self).current_id is Some,
        ensures
            final(self).wf(),
            final(self).current_id is None,
            final(self).db.seqs() == old(self).db.seqs().push(old(self).current_seq@),
            final(self).db.names() == old(self).db.names().push(utf8_text(old(self).current_id->0@)),
    {
        let id = match &self.current_id {
            Some(bytes) => text_of(bytes.as_slice()),
            None => String::new(),
        };
        assert(clip(self.current_seq@) == self.current_seq@);
        self.db.push(id, self.current_seq.as_slice());
        self.current_seq = Vec::new();
        self.current_id = None;
    }

    /// Takes one line: a header starts a record (closing the open one), a
    /// blank line is skipped, any other line adds its residues to the open
    /// record, kept up to `MAX_SEQ_LEN` residues.
    pub fn feed_line(&mut self, line: &[u8]) -> (r: Result<(), FastaError>)
        requires
            old(self).wf(),
        ensures
            final(self).wf(),
            ({
                let t = trim(line@);
                let o = *old(self);
                let f = *final(self);
                if t.len() == 0 {
                    r is Ok && f.db.seqs() == o.db.seqs() && f.db.names() == o.db.names() && f.current_id == o.current_id
                        && f.current_seq@ == o.current_seq@
                } else if t[0] == 62u8 {
                    if o.current_id is Some && !o.has_room() {
                        r == Err::<(), FastaError>(FastaError::TooLarge) && f.db.seqs() == o.db.seqs()
                    } else {
                        &&& r is Ok
                        &&& f.current_id is Some && f.current_id->0@ == header_id(t)
                        &&& f.current_seq@.len() == 0
                        &&& o.current_id is Some ==> f.db.seqs() == o.db.seqs().push(o.current_seq@) && f.db.names()
                            == o.db.names().push(utf8_text(o.current_id->0@))
                        &&& o.current_id is None ==> f.db.seqs() == o.db.seqs() && f.db.names() == o.db.names()
                    }
                } else if o.current_id is None {
                    r == Err::<(), FastaError>(FastaError::DataBeforeHeader) && f.db.seqs() == o.db.seqs()
                } else {
                    &&& r is Ok
                    &&& f.db.seqs() == o.db.seqs() && f.db.names() == o.db.names()
                    &&& f.current_id == o.current_id
                    &&& f.current_seq@ == clip(o.current_seq@ + t)
                }
            }),
    {
        let (a, b) = trim_bounds(line);
        if a == b {
            return Ok(());
        }
        let t = &line[a..b];
        if t[0] == 62u8 {
            if self.current_id.is_some() {
                if self.db.len() >= u32::MAX as usize || self.db.data.len() > usize::MAX - MAX_SEQ_LEN {
                    return Err(FastaError::TooLarge);
                }
                self.flush();
            }
            let (ta, tb) = token_bounds(t);
            proof {
                assert(t@.subrange(1, t@.len() as int) =~= t@.drop_first());
            }
            let id: Vec<u8> = if ta < tb {
                copy_bytes(&t[ta..tb])
            } else {
                vec![117u8, 110u8, 107u8, 110u8, 111u8, 119u8, 110u8]
            };
            assert(id@ =~= header_id(t@));
            self.current_id = Some(id);
            self.current_seq = Vec::new();
            Ok(())
        } else {
            if self.current_id.is_none() {
                return Err(FastaError::DataBeforeHeader);
            }
            let ghost before = self.current_seq@;
            let mut i: usize = 0;
            while i < t.len() && self.current_seq.len() < MAX_SEQ_LEN
                invariant
                    i <= t@.len(),
                    self.current_seq@.len() <= MAX_SEQ_LEN,
                    self.current_seq@ == clip(before + t@.subrange(0, i as int)),
                    self.db == old(self).db,
                    self.current_id == old(self).current_id,
                    self.current_id is Some,
                decreases t@.len() - i,
            {
                let ghost prev = self.current_seq@;
                self.current_seq.push(t[i]);
                i += 1;
                assert(before + t@.subrange(0, i as int) =~= (before + t@.subrange(0, i - 1)).push(t@[i - 1]));
                assert(self.current_seq@ =~= clip(before + t@.subrange(0, i as int)));
            }
            proof {
                if i == t@.len() {
                    assert(t@.subrange(0, i as int) =~= t@);
                } else {
                    let x = before + t@.subrange(0, i as int);
                    let y = before + t@;
                    assert(x.len() >= MAX_SEQ_LEN);
                    assert(x.subrange(0, MAX_SEQ_LEN as int) =~= y.subrange(0, MAX_SEQ_LEN as int));
                }
            }
            Ok(())
        }
    }

    /// Closes the open record and hands over the store.
    pub fn finish(self) -> (r: Result<Database, FastaError>)
        requires
            self.wf(),
        ensures
            self.current_id is Some && !self.has_room() <==> r is Err,
            r is Ok ==> r->Ok_0.wf(),
            r is Ok && self.current_id is Some ==> r->Ok_0.seqs() == self.db.seqs().push(self.current_seq@)
                && r->Ok_0.names() == self.db.names().push(utf8_text(self.current_id->0@)),
            r is Ok && self.current_id is None ==> r->Ok_0.seqs() == self.db.seqs() && r->Ok_0.names() == self.db.names(),
    {
        let mut me = self;
        if me.current_id.is_some() {
            if me.db.len() >= u32::MAX as usize || me.db.data.len() > usize::MAX - MAX_SEQ_LEN {
                return Err(FastaError::TooLarge);
            }
            me.flush();
        }
        Ok(me.db)
    }
}

} // verus!
