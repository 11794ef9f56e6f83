//! Ungapped X-drop extension along one diagonal.
use vstd::prelude::*;
use crate::database::{Database, lemma_offsets_bounded};
use crate::filter::Candidate;
use crate::index::ProteinId;
use crate::rank::{is_top_ranking, top_ranked, lemma_top_ranking_prefix};

verus! {

/// An ungapped alignment: its score and the inclusive spans it covers.
#[derive(Debug, Clone, Copy)]
pub struct ExtensionResult {
    pub score: i32,
    pub q_start: usize,
    pub q_end: usize,
    pub t_start: usize,
    pub t_end: usize,
}

/// Match / mismatch scores of the ungapped extension.
pub struct Scoring {
    pub match_score: i32,
    pub mismatch_score: i32,
}

impl Scoring {
    /// Match `+1`, mismatch `-1`.
    pub fn default() -> (r: Self)
        ensures
            r.match_score == 1,
            r.mismatch_score == -1,
    {
        Scoring { match_score: 1, mismatch_score: -1 }
    }

    /// The largest score a single step can add, and never less than zero.
    pub open spec fn top(&self) -> int {
        if self.match_score >= self.mismatch_score {
            if self.match_score >= 0 { self.match_score as int } else { 0 }
        } else {
            if self.mismatch_score >= 0 { self.mismatch_score as int } else { 0 }
        }
    }

    /// A walk of at most `n` steps cannot push a score past `i32::MAX`.
    pub open spec fn fits(&self, n: int) -> bool {
        n * self.top() <= i32::MAX
    }
}

/// One direction of an extension: the two sequences, the scores, the start
/// cell and the step (`1` rightward, `-1` leftward).
pub struct Walk {
    pub q: Seq<u8>,
    pub t: Seq<u8>,
    pub match_score: int,
    pub mismatch_score: int,
    pub qs: int,
    pub ts: int,
    pub step: int,
}

impl Walk {
    /// Query index visited at step `n` (steps count from 1).
    pub open spec fn q_at(&self, n: int) -> int {
        self.qs + (n - 1) * self.step
    }

    pub open spec fn t_at(&self, n: int) -> int {
        self.ts + (n - 1) * self.step
    }

    /// Number of steps before the walk leaves one of the sequences.
    pub open spec fn avail(&self) -> nat {
        if 0 <= self.qs < self.q.len() && 0 <= self.ts < self.t.len() {
            if self.step == 1 {
                let a = self.q.len() - self.qs;
                let b = self.t.len() - self.ts;
                (if a <= b { a } else { b }) as nat
            } else {
                (if self.qs <= self.ts { self.qs + 1 } else { self.ts + 1 }) as nat
            }
        } else {
            0
        }
    }

    /// Score that step `n` adds.
    pub open spec fn gain(&self, n: int) -> int {
        if self.q[self.q_at(n)] == self.t[self.t_at(n)] {
            self.match_score
        } else {
            self.mismatch_score
        }
    }

    /// Running score after `n` steps.
    pub open spec fn prefix(&self, n: nat) -> int
        decreases n,
    {
        if n == 0 { 0 } else { self.prefix((n - 1) as nat) + self.gain(n as int) }
    }

    /// Best running score over the first `n` steps, the empty walk included.
    pub open spec fn best(&self, n: nat) -> int
        decreases n,
    {
        if n == 0 {
            0
        } else if self.prefix(n) > self.best((n - 1) as nat) {
            self.prefix(n)
        } else {
            self.best((n - 1) as nat)
        }
    }

    /// First step at which `best(n)` is reached, `0` when it is the empty walk's.
    pub open spec fn arg_best(&self, n: nat) -> nat
        decreases n,
    {
        if n == 0 {
            0
        } else if self.prefix(n) > self.best((n - 1) as nat) {
            n
        } else {
            self.arg_best((n - 1) as nat)
        }
    }

    /// Step `n` leaves the running score more than `x` below the best so far.
    pub open spec fn drops(&self, x: int, n: nat) -> bool {
        self.prefix(n) < self.best(n) - x
    }

    /// Number of steps taken when `n` are available: a step is taken only when
    /// every earlier one was and none of them dropped.
    pub open spec fn taken(&self, x: int, n: nat) -> nat
        decreases n,
    {
        if n == 0 {
            0
        } else {
            let p = self.taken(x, (n - 1) as nat);
            if p == n - 1 && (p == 0 || !self.drops(x, p)) { n } else { p }
        }
    }

    /// `(best score, query index, target index)` that the extension reports.
    pub open spec fn outcome(&self, x: int) -> (int, int, int) {
        let e = self.taken(x, self.avail());
        let a = self.arg_best(e);
        if a == 0 {
            (self.best(e), self.qs, self.ts)
        } else {
            (self.best(e), self.q_at(a as int), self.t_at(a as int))
        }
    }
}

pub open spec fn walk(query: Seq<u8>, target: Seq<u8>, scoring: Scoring, qs: int, ts: int, step: int) -> Walk {
    Walk {
        q: query,
        t: target,
        match_score: scoring.match_score as int,
        mismatch_score: scoring.mismatch_score as int,
        qs,
        ts,
        step,
    }
}

pub proof fn lemma_taken_stays(w: Walk, x: int, n: nat, m: nat)
    requires
        n <= m,
        w.taken(x, n) < n || (n > 0 && w.taken(x, n) == n && w.drops(x, n)),
    ensures
        w.taken(x, m) == w.taken(x, n),
    decreases m,
{
    if m > n {
        lemma_taken_stays(w, x, n, (m - 1) as nat);
        lemma_taken_le(w, x, (m - 1) as nat);
    }
}

pub proof fn lemma_taken_le(w: Walk, x: int, n: nat)
    ensures
        w.taken(x, n) <= n,
    decreases n,
{
    if n > 0 {
        lemma_taken_le(w, x, (n - 1) as nat);
    }
}

pub proof fn lemma_prefix_bound(w: Walk, n: nat, top: int)
    requires
        w.match_score <= top,
        w.mismatch_score <= top,
        0 <= top,
    ensures
        w.prefix(n) <= n * top,
        w.best(n) <= n * top,
        w.best(n) >= 0,
        w.best(n) >= w.prefix(n),
    decreases n,
{
    if n > 0 {
        lemma_prefix_bound(w, (n - 1) as nat, top);
        assert(w.gain(n as int) <= top);
        assert((n - 1) * top + top == n * top) by (nonlinear_arith);
    }
}

/// Number of steps before a walk from `(q_start, t_start)` leaves a sequence.
pub fn steps_available(qlen: usize, tlen: usize, q_start: usize, t_start: usize, step: isize) -> (r: usize)
    requires
        step == 1 || step == -1,
    ensures
        forall|q: Seq<u8>, t: Seq<u8>, sc: Scoring|
            q.len() == qlen && t.len() == tlen ==> r == #[trigger] walk(q, t, sc, q_start as int, t_start as int, step as int).avail(),
        r <= qlen,
        r > 0 ==> q_start < qlen && t_start < tlen,
        step == 1 && r > 0 ==> q_start + r <= qlen && t_start + r <= tlen,
        step == -1 && r > 0 ==> r <= q_start + 1 && r <= t_start + 1,
{
    if q_start < qlen && t_start < tlen {
        if step == 1 {
            let a = qlen - q_start;
            let b = tlen - t_start;
            if a <= b { a } else { b }
        } else {
            if q_start <= t_start { q_start + 1 } else { t_start + 1 }
        }
    } else {
        0
    }
}

/// Running state of one direction of an extension.
pub struct XdropState {
    pub current: i64,
    pub best: i64,
    pub best_q: usize,
    pub best_t: usize,
    pub steps: usize,
}

impl XdropState {
    /// The state after `steps` steps of `w`, all of them taken.
    pub open spec fn tracks(&self, w: Walk, x: int) -> bool {
        &&& w.taken(x, self.steps as nat) == self.steps
        &&& self.current == w.prefix(self.steps as nat)
        &&& self.best == w.best(self.steps as nat)
        &&& 0 <= self.best <= i32::MAX
        &&& w.arg_best(self.steps as nat) == 0 ==> self.best_q == w.qs && self.best_t == w.ts
        &&& w.arg_best(self.steps as nat) > 0 ==> self.best_q as int == w.q_at(w.arg_best(self.steps as nat) as int)
            && self.best_t as int == w.t_at(w.arg_best(self.steps as nat) as int)
    }

    /// No step so far dropped: the walk may go on.
    pub open spec fn live(&self, w: Walk, x: int) -> bool {
        &&& self.steps == 0 || !w.drops(x, self.steps as nat)
        &&& self.current >= self.best - x
    }

    pub open spec fn result(&self) -> (int, int, int) {
        (self.best as int, self.best_q as int, self.best_t as int)
    }

    pub fn start(q_start: usize, t_start: usize) -> (r: XdropState)
        ensures
            r.steps == 0 && r.current == 0 && r.best == 0 && r.best_q == q_start && r.best_t == t_start,
    {
        XdropState { current: 0, best: 0, best_q: q_start, best_t: t_start, steps: 0 }
    }

    /// Takes the next step, whose residues are equal when `same` holds; returns
    /// whether the running score dropped more than `x_drop` below the best.
    pub fn advance(&mut self, same: bool, qi: usize, ti: usize, scoring: &Scoring, x_drop: i32, Ghost(w): Ghost<Walk>)
        -> (dropped: bool)
        requires
            old(self).tracks(w, x_drop as int),
            old(self).live(w, x_drop as int),
            x_drop >= 0,
            w.match_score == scoring.match_score,
            w.mismatch_score == scoring.mismatch_score,
            old(self).steps < w.avail(),
            w.avail() <= w.q.len() <= usize::MAX,
            scoring.fits(w.q.len() as int),
            qi as int == w.q_at(old(self).steps + 1),
            ti as int == w.t_at(old(self).steps + 1),
            same == (w.q[qi as int] == w.t[ti as int]),
        ensures
            final(self).steps == old(self).steps + 1,
            final(self).tracks(w, x_drop as int),
            dropped == w.drops(x_drop as int, final(self).steps as nat),
            !dropped ==> final(self).live(w, x_drop as int),
            dropped ==> w.taken(x_drop as int, w.avail()) == final(self).steps,
    {
        let ghost x = x_drop as int;
        let n: usize = self.steps + 1;
        proof {
            lemma_prefix_bound(w, n as nat, scoring.top());
            assert(n * scoring.top() <= w.q.len() * scoring.top()) by (nonlinear_arith)
                requires
                    n <= w.q.len(),
                    scoring.top() >= 0,
            ;
        }
        if same {
            self.current = self.current + scoring.match_score as i64;
        } else {
            self.current = self.current + scoring.mismatch_score as i64;
        }
        self.steps = n;
        assert(self.current == w.prefix(n as nat));
        assert(w.taken(x, n as nat) == n);
        if self.current > self.best {
            self.best = self.current;
            self.best_q = qi;
            self.best_t = ti;
            false
        } else if self.current < self.best - x_drop as i64 {
            proof {
                lemma_taken_stays(w, x, n as nat, w.avail());
            }
            true
        } else {
            false
        }
    }
}

/// Extends from `(q_start, t_start)` one residue at a time in direction `step`,
/// keeping the best running score, until it drops more than `x_drop` below
/// that best or a sequence ends.
pub fn extend_direction_scalar(
    query: &[u8],
    target: &[u8],
    scoring: &Scoring,
    q_start: usize,
    t_start: usize,
    step: isize,
    x_drop: i32,
) -> (r: (i32, usize, usize))
    requires
        step == 1 || step == -1,
        x_drop >= 0,
        scoring.fits(query@.len() as int),
    ensures
        ({
            let o = walk(query@, target@, *scoring, q_start as int, t_start as int, step as int).outcome(x_drop as int);
            r.0 as int == o.0 && r.1 as int == o.1 && r.2 as int == o.2
        }),
{
    let ghost w = walk(query@, target@, *scoring, q_start as int, t_start as int, step as int);
    let ghost x = x_drop as int;
    let avail = steps_available(query.len(), target.len(), q_start, t_start, step);
    assert(avail == w.avail());
    let mut st = XdropState::start(q_start, t_start);
    let qlen = query.len();
    let tlen = target.len();
    proof {
        lemma_prefix_bound(w, 0, scoring.top());
    }
    loop
        invariant_except_break
            st.live(w, x),
            st.steps <= avail,
        invariant
            w == walk(query@, target@, *scoring, q_start as int, t_start as int, step as int),
            step == 1 || step == -1,
            avail == w.avail(),
            avail <= query@.len(),
            qlen == query@.len(),
            tlen == target@.len(),
            scoring.fits(query@.len() as int),
            x == x_drop as int,
            x_drop >= 0,
            avail > 0 ==> q_start < query@.len() && t_start < target@.len(),
            step == 1 && avail > 0 ==> q_start + avail <= query@.len() && t_start + avail <= target@.len(),
            step == -1 && avail > 0 ==> avail <= q_start + 1 && avail <= t_start + 1,
            st.tracks(w, x),
        ensures
            w.taken(x, avail as nat) == st.steps,
        decreases avail - st.steps,
    {
        if st.steps >= avail {
            break;
        }
        let i = st.steps;
        let qi: usize = if step == 1 { q_start + i } else { q_start - i };
        let ti: usize = if step == 1 { t_start + i } else { t_start - i };
        let same = query[qi] == target[ti];
        if st.advance(same, qi, ti, scoring, x_drop, Ghost(w)) {
            break;
        }
    }
    (st.best as i32, st.best_q, st.best_t)
}

pub proof fn lemma_arg_best(w: Walk, n: nat)
    ensures
        w.arg_best(n) <= n,
        w.best(n) == w.prefix(w.arg_best(n)),
        forall|m: nat| m <= n ==> w.prefix(m) <= w.best(n),
        forall|m: nat| m < w.arg_best(n) ==> w.prefix(m) < w.best(n),
    decreases n,
{
    if n > 0 {
        lemma_arg_best(w, (n - 1) as nat);
    }
}

/// X-drop optimality: the reported score is the largest running score over the
/// steps taken, reached first at the reported cell, and the walk stops at the
/// first step whose running score falls more than `x` below the best so far,
/// or where a sequence ends.
pub proof fn lemma_xdrop_optimal(w: Walk, x: int)
    ensures
        ({
            let e = w.taken(x, w.avail());
            let a = w.arg_best(e);
            &&& e <= w.avail()
            &&& forall|m: nat| m <= e ==> w.prefix(m) <= w.outcome(x).0
            &&& a <= e && w.prefix(a) == w.outcome(x).0
            &&& forall|m: nat| m < a ==> w.prefix(m) < w.outcome(x).0
            &&& forall|n: nat| 1 <= n < e ==> !w.drops(x, n)
            &&& e < w.avail() ==> e >= 1 && w.drops(x, e)
        }),
{
    let e = w.taken(x, w.avail());
    lemma_arg_best(w, e);
    lemma_taken_facts(w, x, w.avail());
}

proof fn lemma_taken_facts(w: Walk, x: int, n: nat)
    ensures
        w.taken(x, n) <= n,
        forall|m: nat| 1 <= m < w.taken(x, n) ==> !w.drops(x, m),
        w.taken(x, n) < n ==> w.taken(x, n) >= 1 && w.drops(x, w.taken(x, n)),
    decreases n,
{
    if n > 0 {
        lemma_taken_facts(w, x, (n - 1) as nat);
    }
}

proof fn lemma_outcome_bounds(w: Walk, x: int, top: int)
    requires
        w.match_score <= top,
        w.mismatch_score <= top,
        0 <= top,
    ensures
        0 <= w.outcome(x).0 <= w.avail() * top,
        w.avail() > 0 ==> {
            let a = w.arg_best(w.taken(x, w.avail()));
            a <= w.avail() && (a == 0 ==> w.outcome(x).1 == w.qs && w.outcome(x).2 == w.ts) && (a > 0
                ==> w.outcome(x).1 == w.q_at(a as int) && w.outcome(x).2 == w.t_at(a as int))
        },
        w.avail() == 0 ==> w.outcome(x).1 == w.qs && w.outcome(x).2 == w.ts,
{
    let e = w.taken(x, w.avail());
    lemma_taken_le(w, x, w.avail());
    lemma_prefix_bound(w, e, top);
    lemma_arg_best(w, e);
    assert(e * top <= w.avail() * top) by (nonlinear_arith)
        requires
            e <= w.avail(),
            top >= 0,
    ;
    if w.avail() == 0 {
        assert(e == 0);
    }
}

/// Extends a seed cell in both directions: rightward from `(q_start, t_start)`
/// and leftward from the cell before it, and joins the two halves.
pub fn extend_ungapped(
    query: &[u8],
    target: &[u8],
    scoring: &Scoring,
    q_start: usize,
    t_start: usize,
    x_drop: i32,
) -> (r: ExtensionResult)
    requires
        x_drop >= 0,
        scoring.fits(query@.len() as int),
    ensures
        ({
            let right = walk(query@, target@, *scoring, q_start as int, t_start as int, 1).outcome(x_drop as int);
            let left = if q_start > 0 && t_start > 0 {
                walk(query@, target@, *scoring, q_start - 1, t_start - 1, -1).outcome(x_drop as int)
            } else {
                (0, q_start as int, t_start as int)
            };
            &&& r.score == left.0 + right.0
            &&& r.q_start == left.1 && r.t_start == left.2
            &&& r.q_end == right.1 && r.t_end == right.2
        }),
        as_tuple(r) == ungapped_spec(query@, target@, *scoring, q_start as int, t_start as int, x_drop as int),
        r.score >= 0,
        q_start < query@.len() && t_start < target@.len() ==> {
            &&& r.q_start <= r.q_end < query@.len()
            &&& r.t_start <= r.t_end < target@.len()
            &&& r.q_end - r.q_start == r.t_end - r.t_start
        },
{
    let ghost x = x_drop as int;
    let ghost wr = walk(query@, target@, *scoring, q_start as int, t_start as int, 1);
    let (right_score, right_q_end, right_t_end) = crate::simd::extend_direction_simd(
        query, target, scoring, q_start, t_start, 1, x_drop,
    );
    proof {
        lemma_outcome_bounds(wr, x, scoring.top());
    }
    let (left_score, left_q_start, left_t_start) = if q_start > 0 && t_start > 0 {
        let ghost wl = walk(query@, target@, *scoring, q_start - 1, t_start - 1, -1);
        proof {
            lemma_outcome_bounds(wl, x, scoring.top());
            assert(wl.avail() + wr.avail() <= query@.len());
            assert(wl.avail() * scoring.top() + wr.avail() * scoring.top() == (wl.avail() + wr.avail()) * scoring.top()) by (nonlinear_arith);
            assert((wl.avail() + wr.avail()) * scoring.top() <= query@.len() * scoring.top()) by (nonlinear_arith)
                requires
                    wl.avail() + wr.avail() <= query@.len(),
                    scoring.top() >= 0,
            ;
        }
        crate::simd::extend_direction_simd(query, target, scoring, q_start - 1, t_start - 1, -1, x_drop)
    } else {
        (0, q_start, t_start)
    };
    ExtensionResult {
        score: left_score + right_score,
        q_start: left_q_start,
        q_end: right_q_end,
        t_start: left_t_start,
        t_end: right_t_end,
    }
}

/// The extension that `extend_ungapped` reports for the seed cell `(qs, ts)`.
pub open spec fn ungapped_spec(query: Seq<u8>, target: Seq<u8>, scoring: Scoring, qs: int, ts: int, x: int) -> (int, int, int, int, int) {
    let right = walk(query, target, scoring, qs, ts, 1).outcome(x);
    let left = if qs > 0 && ts > 0 { walk(query, target, scoring, qs - 1, ts - 1, -1).outcome(x) } else { (0, qs, ts) };
    (left.0 + right.0, left.1, right.1, left.2, right.2)
}

/// The seed cell of diagonal `d`: the first cell of the diagonal inside both sequences.
pub open spec fn anchor(d: int) -> (int, int) {
    if d >= 0 { (0, d) } else { (-d, 0) }
}

/// Candidate `c` names a target of `seqs` whose diagonal meets both sequences.
pub open spec fn anchored(query: Seq<u8>, seqs: Seq<Seq<u8>>, c: Candidate) -> bool {
    &&& c.id < seqs.len()
    &&& anchor(c.best_diagonal as int).0 < query.len()
    &&& anchor(c.best_diagonal as int).1 < seqs[c.id as int].len()
}

pub open spec fn as_tuple(e: ExtensionResult) -> (int, int, int, int, int) {
    (e.score as int, e.q_start as int, e.q_end as int, e.t_start as int, e.t_end as int)
}

/// The extensions of the anchored candidates, in candidate order.
pub open spec fn extended(query: Seq<u8>, cands: Seq<Candidate>, seqs: Seq<Seq<u8>>, scoring: Scoring, x: int) -> Seq<
    (ProteinId, (int, int, int, int, int)),
>
    decreases cands.len(),
{
    if cands.len() == 0 {
        Seq::empty()
    } else {
        let prev = extended(query, cands.drop_last(), seqs, scoring, x);
        let c = cands.last();
        if anchored(query, seqs, c) {
            let a = anchor(c.best_diagonal as int);
            prev.push((c.id, ungapped_spec(query, seqs[c.id as int], scoring, a.0, a.1, x)))
        } else {
            prev
        }
    }
}

/// Ranking keys of hits: score, then target id.
pub open spec fn hit_keys(h: Seq<(ProteinId, ExtensionResult)>) -> Seq<(i128, u32)> {
    h.map_values(|e: (ProteinId, ExtensionResult)| (e.1.score as i128, e.0))
}

/// `r` lists the `top_n` best extensions of the candidates: see `refine_ungapped`.
pub open spec fn is_refined(
    query: Seq<u8>,
    candidates: Seq<Candidate>,
    seqs: Seq<Seq<u8>>,
    scoring: Scoring,
    x: int,
    top_n: nat,
    r: Seq<(ProteinId, ExtensionResult)>,
) -> bool {
    exists|all: Seq<(ProteinId, ExtensionResult)>, order: Seq<usize>|
        {
            &&& all.map_values(|e: (ProteinId, ExtensionResult)| (e.0, as_tuple(e.1))) == extended(
                query,
                candidates,
                seqs,
                scoring,
                x,
            )
            &&& is_top_ranking(hit_keys(all), top_n, order)
            &&& r == order.map_values(|i: usize| all[i as int])
        }
}

/// Extends every candidate from the anchor of its best diagonal (candidates whose
/// target is unknown or whose anchor lies outside a sequence are dropped) and
/// returns the `top_n` best extensions: highest score first, then lower target
/// id, then earlier candidate.
pub fn refine_ungapped(
    query: &[u8],
    candidates: &[Candidate],
    db: &Database,
    scoring: &Scoring,
    x_drop: i32,
    top_n: usize,
) -> (r: Vec<(ProteinId, ExtensionResult)>)
    requires
        db.wf(),
        x_drop >= 0,
        scoring.fits(query@.len() as int),
    ensures
        is_refined(query@, candidates@, db.seqs(), *scoring, x_drop as int, top_n as nat, r@),
{
    let ghost seqs = db.seqs();
    let ghost x = x_drop as int;
    let mut hits: Vec<(ProteinId, ExtensionResult)> = Vec::new();
    let mut i: usize = 0;
    while i < candidates.len()
        invariant
            db.wf(),
            seqs == db.seqs(),
            x == x_drop as int,
            x_drop >= 0,
            scoring.fits(query@.len() as int),
            i <= candidates@.len(),
            hits@.map_values(|e: (ProteinId, ExtensionResult)| (e.0, as_tuple(e.1))) == extended(
                query@,
                candidates@.subrange(0, i as int),
                seqs,
                *scoring,
                x,
            ),
        decreases candidates@.len() - i,
    {
        let cand = candidates[i];
        let ghost pre = candidates@.subrange(0, i as int);
        assert(candidates@.subrange(0, i + 1).drop_last() =~= pre);
        let ghost old_hits = hits@;
        match db.get(cand.id as usize) {
            Some((_, target_seq)) => {
                proof {
                    assert(target_seq@ == seqs[cand.id as int]);
                }
                let diag = cand.best_diagonal;
                let (q_start, t_start): (usize, usize) = if diag >= 0 {
                    (0, diag as usize)
                } else {
                    ((-(diag as i64)) as usize, 0)
                };
                assert((q_start as int, t_start as int) == anchor(diag as int));
                if t_start < target_seq.len() && q_start < query.len() {
                    let result = extend_ungapped(query, target_seq, scoring, q_start, t_start, x_drop);
                    hits.push((cand.id, result));
                    proof {
                        assert(hits@.map_values(|e: (ProteinId, ExtensionResult)| (e.0, as_tuple(e.1))) =~= old_hits.map_values(
                            |e: (ProteinId, ExtensionResult)| (e.0, as_tuple(e.1)),
                        ).push((cand.id, as_tuple(result))));
                    }
                }
            },
            None => {},
        }
        i += 1;
    }
    assert(candidates@.subrange(0, candidates@.len() as int) =~= candidates@);
    let mut keys: Vec<(i128, u32)> = Vec::new();
    let mut j: usize = 0;
    while j < hits.len()
        invariant
            j <= hits@.len(),
            keys@.len() == j,
            forall|t: int| 0 <= t < j ==> #[trigger] keys@[t] == hit_keys(hits@)[t],
        decreases hits@.len() - j,
    {
        keys.push((hits[j].1.score as i128, hits[j].0));
        j += 1;
    }
    assert(keys@ =~= hit_keys(hits@));
    let order = top_ranked(&keys, top_n);
    let mut out: Vec<(ProteinId, ExtensionResult)> = Vec::new();
    let mut t: usize = 0;
    while t < order.len()
        invariant
            t <= order@.len(),
            is_top_ranking(keys@, top_n as nat, order@),
            keys@.len() == hits@.len(),
            out@.len() == t,
            forall|u: int| 0 <= u < t ==> #[trigger] out@[u] == hits@[order@[u] as int],
        decreases order@.len() - t,
    {
        out.push(hits[order[t]]);
        t += 1;
    }
    assert(out@ =~= order@.map_values(|i: usize| hits@[i as int]));
    out
}

/// A smaller extension budget gives a prefix of the ranking a larger one gives.
pub proof fn lemma_refined_prefix(
    query: Seq<u8>,
    candidates: Seq<Candidate>,
    seqs: Seq<Seq<u8>>,
    scoring: Scoring,
    x: int,
    n1: nat,
    r1: Seq<(ProteinId, ExtensionResult)>,
    n2: nat,
    r2: Seq<(ProteinId, ExtensionResult)>,
)
    requires
        is_refined(query, candidates, seqs, scoring, x, n1, r1),
        is_refined(query, candidates, seqs, scoring, x, n2, r2),
        n1 <= n2,
    ensures
        r1.len() <= r2.len(),
        r1 == r2.subrange(0, r1.len() as int),
{
    let (a1, o1) = choose|all: Seq<(ProteinId, ExtensionResult)>, order: Seq<usize>|
        {
            &&& all.map_values(|e: (ProteinId, ExtensionResult)| (e.0, as_tuple(e.1))) == extended(query, candidates, seqs, scoring, x)
            &&& is_top_ranking(hit_keys(all), n1, order)
            &&& r1 == order.map_values(|i: usize| all[i as int])
        };
    let (a2, o2) = choose|all: Seq<(ProteinId, ExtensionResult)>, order: Seq<usize>|
        {
            &&& all.map_values(|e: (ProteinId, ExtensionResult)| (e.0, as_tuple(e.1))) == extended(query, candidates, seqs, scoring, x)
            &&& is_top_ranking(hit_keys(all), n2, order)
            &&& r2 == order.map_values(|i: usize| all[i as int])
        };
    let f = |e: (ProteinId, ExtensionResult)| (e.0, as_tuple(e.1));
    assert(a1.len() == a2.len()) by {
        assert(a1.map_values(f).len() == a2.map_values(f).len());
    }
    assert forall|i: int| 0 <= i < a1.len() implies a1[i] == a2[i] by {
        assert(a1.map_values(f)[i] == a2.map_values(f)[i]);
    }
    assert(a1 =~= a2);
    lemma_top_ranking_prefix(hit_keys(a1), n1, o1, n2, o2);
    assert(r1 =~= r2.subrange(0, r1.len() as int)) by {
        assert forall|t: int| 0 <= t < r1.len() implies r1[t] == r2[t] by {
            assert(o1[t] == o2.subrange(0, o1.len() as int)[t]);
        }
    }
}

} // verus!
