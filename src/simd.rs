//! Rightward extension that compares residues thirty-two at a time.
use vstd::prelude::*;
use crate::ungapped::{Scoring, Walk, XdropState, walk, steps_available, extend_direction_scalar, lemma_prefix_bound};

verus! {

/// Residues compared per block.
pub const LANES: usize = 32;

proof fn lemma_zero_bits(c: u32)
    requires
        c < 32,
    ensures
        (0u32 >> c) & 1u32 == 0,
{
    assert((0u32 >> c) & 1u32 == 0) by (bit_vector)
        requires
            c < 32,
    ;
}

proof fn lemma_set_bit(m: u32, b: u32, c: u32)
    requires
        b < 32,
        c < 32,
    ensures
        ((m | (1u32 << b)) >> c) & 1u32 == (if c == b { 1u32 } else { (m >> c) & 1u32 }),
{
    assert(((m | (1u32 << b)) >> c) & 1u32 == (if c == b { 1u32 } else { (m >> c) & 1u32 })) by (bit_vector)
        requires
            b < 32,
            c < 32,
    ;
}

proof fn lemma_low_bit(m: u32)
    ensures
        (m & 1u32 != 0) == (m & 1u32 == 1u32),
        m >> 0u32 == m,
{
    assert((m & 1u32 != 0) == (m & 1u32 == 1u32)) by (bit_vector);
    assert(m >> 0u32 == m) by (bit_vector);
}

proof fn lemma_next_bit(m: u32, i: u32)
    requires
        i < 31,
    ensures
        (m >> i) >> 1u32 == m >> ((i + 1) as u32),
{
    assert((m >> i) >> 1u32 == m >> ((i + 1) as u32)) by (bit_vector)
        requires
            i < 31,
    ;
}

/// Bit `c` of the result is set exactly when `query[qb + c] == target[tb + c]`.
fn equality_mask(query: &[u8], target: &[u8], qb: usize, tb: usize) -> (mask: u32)
    requires
        qb + LANES <= query@.len(),
        tb + LANES <= target@.len(),
    ensures
        forall|c: u32| c < 32 ==> (((mask >> c) & 1u32 == 1u32) <==> (query@[qb + c] == target@[tb + c])),
{
    let ql = query.len();
    let tl = target.len();
    let mut mask: u32 = 0;
    let mut b: u32 = 0;
    proof {
        assert forall|c: u32| c < 32 implies (mask >> c) & 1u32 == 0 by {
            lemma_zero_bits(c);
        }
    }
    while b < 32
        invariant
            b <= 32,
            ql == query@.len(),
            tl == target@.len(),
            qb + LANES <= query@.len(),
            tb + LANES <= target@.len(),
            forall|c: u32| c < b ==> (((mask >> c) & 1u32 == 1u32) <==> (query@[qb + c] == target@[tb + c])),
            forall|c: u32| b <= c < 32 ==> (mask >> c) & 1u32 == 0,
        decreases 32 - b,
    {
        let qi = qb + b as usize;
        let ti = tb + b as usize;
        if query[qi] == target[ti] {
            let old_mask = mask;
            mask = mask | (1u32 << b);
            proof {
                assert forall|c: u32| c < 32 implies ((mask >> c) & 1u32 == (if c == b { 1u32 } else { (old_mask >> c) & 1u32 })) by {
                    lemma_set_bit(old_mask, b, c);
                }
            }
        }
        b += 1;
    }
    mask
}

/// Rightward X-drop extension that compares thirty-two residue pairs per block
/// into a bit mask and walks the mask; the last residues go one at a time. It
/// reports exactly what `extend_direction_scalar` reports for `step == 1`.
pub fn extend_right_blocked(
    query: &[u8],
    target: &[u8],
    scoring: &Scoring,
    q_start: usize,
    t_start: usize,
    x_drop: i32,
) -> (r: (i32, usize, usize))
    requires
        x_drop >= 0,
        scoring.fits(query@.len() as int),
    ensures
        ({
            let o = walk(query@, target@, *scoring, q_start as int, t_start as int, 1).outcome(x_drop as int);
            r.0 as int == o.0 && r.1 as int == o.1 && r.2 as int == o.2
        }),
{
    let ghost w = walk(query@, target@, *scoring, q_start as int, t_start as int, 1);
    let ghost x = x_drop as int;
    let qlen = query.len();
    let tlen = target.len();
    let avail = steps_available(qlen, tlen, q_start, t_start, 1);
    assert(avail == w.avail());
    let mut st = XdropState::start(q_start, t_start);
    proof {
        lemma_prefix_bound(w, 0, scoring.top());
    }
    while q_start < qlen && t_start < tlen && qlen - q_start - st.steps >= LANES && tlen - t_start - st.steps >= LANES
        invariant
            w == walk(query@, target@, *scoring, q_start as int, t_start as int, 1),
            avail == w.avail(),
            avail <= query@.len(),
            qlen == query@.len(),
            tlen == target@.len(),
            scoring.fits(query@.len() as int),
            x == x_drop as int,
            x_drop >= 0,
            avail > 0 ==> q_start < query@.len() && t_start < target@.len(),
            avail > 0 ==> q_start + avail <= query@.len() && t_start + avail <= target@.len(),
            st.tracks(w, x),
            st.live(w, x),
            st.steps <= avail,
        decreases avail - st.steps,
    {
        let base = st.steps;
        let qb = q_start + base;
        let tb = t_start + base;
        let mask = equality_mask(query, target, qb, tb);
        let mut temp: u32 = mask;
        let mut j: u32 = 0;
        proof {
            lemma_low_bit(mask);
        }
        while j < 32
            invariant
                w == walk(query@, target@, *scoring, q_start as int, t_start as int, 1),
                avail == w.avail(),
                avail <= query@.len(),
                qlen == query@.len(),
                tlen == target@.len(),
                scoring.fits(query@.len() as int),
                x == x_drop as int,
                x_drop >= 0,
                base + LANES <= avail,
                q_start + avail <= query@.len() && t_start + avail <= target@.len(),
                qb == q_start + base,
                tb == t_start + base,
                j <= 32,
                st.steps == base + j,
                j < 32 ==> temp == mask >> j,
                forall|c: u32| c < 32 ==> (((mask >> c) & 1u32 == 1u32) <==> (query@[qb + c] == target@[tb + c])),
                st.tracks(w, x),
                st.live(w, x),
            decreases 32 - j,
        {
            proof {
                lemma_low_bit(temp);
            }
            let same = (temp & 1) != 0;
            let qi = qb + j as usize;
            let ti = tb + j as usize;
            if st.advance(same, qi, ti, scoring, x_drop, Ghost(w)) {
                return (st.best as i32, st.best_q, st.best_t);
            }
            proof {
                if j < 31 {
                    lemma_next_bit(mask, j);
                }
            }
            temp = temp >> 1;
            j += 1;
        }
    }
    loop
        invariant_except_break
            st.live(w, x),
            st.steps <= avail,
        invariant
            w == walk(query@, target@, *scoring, q_start as int, t_start as int, 1),
            avail == w.avail(),
            avail <= query@.len(),
            qlen == query@.len(),
            tlen == target@.len(),
            scoring.fits(query@.len() as int),
            x == x_drop as int,
            x_drop >= 0,
            avail > 0 ==> q_start < query@.len() && t_start < target@.len(),
            avail > 0 ==> q_start + avail <= query@.len() && t_start + avail <= target@.len(),
            st.tracks(w, x),
        ensures
            w.taken(x, avail as nat) == st.steps,
        decreases avail - st.steps,
    {
        if st.steps >= avail {
            break;
        }
        let qi = q_start + st.steps;
        let ti = t_start + st.steps;
        let same = query[qi] == target[ti];
        if st.advance(same, qi, ti, scoring, x_drop, Ghost(w)) {
            break;
        }
    }
    (st.best as i32, st.best_q, st.best_t)
}

/// One direction of an extension: blocks of thirty-two for `step == 1`, one
/// residue at a time for `step == -1`.
pub fn extend_direction_simd(
    query: &[u8],
    target: &[u8],
    scoring: &Scoring,
    q_start: usize,
    t_start: usize,
    step: isize,
    x_drop: i32,
) -> (r: (i32, usize, usize))
    requires
        step == 1 || step == -1,
        x_drop >= 0,
        scoring.fits(query@.len() as int),
    ensures
        ({
            let o = walk(query@, target@, *scoring, q_start as int, t_start as int, step as int).outcome(x_drop as int);
            r.0 as int == o.0 && r.1 as int == o.1 && r.2 as int == o.2
        }),
{
    if step == 1 {
        extend_right_blocked(query, target, scoring, q_start, t_start, x_drop)
    } else {
        extend_direction_scalar(query, target, scoring, q_start, t_start, step, x_drop)
    }
}

} // verus!
