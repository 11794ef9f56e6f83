//! Deterministic top-N ranking: higher score first, then lower target id, then
//! earlier position in the input.
use vstd::prelude::*;

verus! {

/// Entry `i` ranks before entry `j`.
pub open spec fn ranks_before(keys: Seq<(i128, u32)>, i: int, j: int) -> bool {
    keys[i].0 > keys[j].0 || (keys[i].0 == keys[j].0 && (keys[i].1 < keys[j].1 || (keys[i].1 == keys[j].1 && i
        < j)))
}

pub open spec fn min_nat(a: nat, b: nat) -> nat {
    if a <= b { a } else { b }
}

/// `r` lists, best first, the `n` entries of `keys` that rank first (all of them
/// when there are fewer).
pub open spec fn is_top_ranking(keys: Seq<(i128, u32)>, n: nat, r: Seq<usize>) -> bool {
    &&& r.len() == min_nat(n, keys.len())
    &&& r.len() == keys.len() ==> forall|i: int| 0 <= i < keys.len() ==> #[trigger] r.contains(i as usize)
    &&& forall|t: int| 0 <= t < r.len() ==> #[trigger] r[t] < keys.len()
    &&& forall|s: int, t: int| 0 <= s < t < r.len() ==> ranks_before(keys, r[s] as int, r[t] as int)
    &&& forall|i: int, t: int|
        0 <= i < keys.len() && !r.contains(i as usize) && 0 <= t < r.len() ==> #[trigger] ranks_before(
            keys,
            r[t] as int,
            i,
        )
}

pub open spec fn count_true(s: Seq<bool>) -> nat
    decreases s.len(),
{
    if s.len() == 0 { 0 } else { count_true(s.drop_last()) + if s.last() { 1nat } else { 0nat } }
}

proof fn lemma_count_true_set(s: Seq<bool>, i: int)
    requires
        0 <= i < s.len(),
        !s[i],
    ensures
        count_true(s.update(i, true)) == count_true(s) + 1,
    decreases s.len(),
{
    let u = s.update(i, true);
    if i < s.len() - 1 {
        assert(u.drop_last() =~= s.drop_last().update(i, true));
        lemma_count_true_set(s.drop_last(), i);
    } else {
        assert(u.drop_last() =~= s.drop_last());
    }
}

proof fn lemma_count_true_all(s: Seq<bool>)
    requires
        forall|i: int| 0 <= i < s.len() ==> s[i],
    ensures
        count_true(s) == s.len(),
    decreases s.len(),
{
    if s.len() > 0 {
        lemma_count_true_all(s.drop_last());
    }
}

proof fn lemma_count_true_full(s: Seq<bool>)
    requires
        count_true(s) == s.len(),
    ensures
        forall|i: int| 0 <= i < s.len() ==> s[i],
    decreases s.len(),
{
    if s.len() > 0 {
        lemma_count_true_le(s.drop_last());
        lemma_count_true_full(s.drop_last());
        assert forall|i: int| 0 <= i < s.len() implies s[i] by {
            if i < s.len() - 1 {
                assert(s[i] == s.drop_last()[i]);
            }
        }
    }
}

proof fn lemma_count_true_le(s: Seq<bool>)
    ensures
        count_true(s) <= s.len(),
    decreases s.len(),
{
    if s.len() > 0 {
        lemma_count_true_le(s.drop_last());
    }
}

/// Entry `i` ranks before entry `j`.
pub fn ranks_before_exec(keys: &Vec<(i128, u32)>, i: usize, j: usize) -> (r: bool)
    requires
        i < keys@.len(),
        j < keys@.len(),
    ensures
        r == ranks_before(keys@, i as int, j as int),
{
    let a = keys[i];
    let b = keys[j];
    a.0 > b.0 || (a.0 == b.0 && (a.1 < b.1 || (a.1 == b.1 && i < j)))
}

/// Indices of the `n` entries that rank first, best first.
pub fn top_ranked(keys: &Vec<(i128, u32)>, n: usize) -> (r: Vec<usize>)
    ensures
        is_top_ranking(keys@, n as nat, r@),
{
    let m = keys.len();
    let mut taken: Vec<bool> = vec![false; m];
    let mut res: Vec<usize> = Vec::new();
    proof {
        assert(taken@ =~= Seq::new(m as nat, |i: int| false));
        lemma_count_true_zero(taken@);
    }
    loop
        invariant
            m == keys@.len(),
            taken@.len() == m,
            res@.len() == count_true(taken@),
            res@.len() <= n,
            forall|t: int| 0 <= t < res@.len() ==> #[trigger] res@[t] < m,
            forall|i: int| 0 <= i < m ==> (taken@[i] <==> res@.contains(i as usize)),
            forall|s: int, t: int| 0 <= s < t < res@.len() ==> ranks_before(keys@, res@[s] as int, res@[t] as int),
            forall|i: int, t: int|
                0 <= i < m && !taken@[i] && 0 <= t < res@.len() ==> #[trigger] ranks_before(keys@, res@[t] as int, i),
        ensures
            is_top_ranking(keys@, n as nat, res@),
        decreases n - res@.len(),
    {
        if res.len() >= n {
            proof {
                lemma_count_true_le(taken@);
                if res@.len() == m {
                    lemma_count_true_full(taken@);
                    assert forall|k: int| 0 <= k < keys@.len() implies #[trigger] res@.contains(k as usize) by {
                        assert(taken@[k]);
                    }
                }
            }
            break;
        }
        let mut best: usize = m;
        let mut i: usize = 0;
        while i < m
            invariant
                m == keys@.len(),
                taken@.len() == m,
                i <= m,
                best == m || (best < i && !taken@[best as int]),
                best == m ==> forall|j: int| 0 <= j < i ==> taken@[j],
                best < m ==> forall|j: int| 0 <= j < i && !taken@[j] && j != best ==> ranks_before(keys@, best as int, j),
            decreases m - i,
        {
            if !taken[i] {
                if best == m || ranks_before_exec(keys, i, best) {
                    best = i;
                }
            }
            i += 1;
        }
        if best == m {
            proof {
                lemma_count_true_all(taken@);
                assert forall|k: int| 0 <= k < keys@.len() implies #[trigger] res@.contains(k as usize) by {
                    assert(taken@[k]);
                }
            }
            break;
        }
        let ghost old_taken = taken@;
        let ghost old_res = res@;
        proof {
            lemma_count_true_set(taken@, best as int);
        }
        taken.set(best, true);
        res.push(best);
        assert forall|k: int| 0 <= k < m implies (taken@[k] <==> res@.contains(k as usize)) by {
            if k == best {
                assert(res@[res@.len() - 1] == best);
            } else if old_res.contains(k as usize) {
                let t = choose|t: int| 0 <= t < old_res.len() && old_res[t] == k as usize;
                assert(res@[t] == k as usize);
            } else if res@.contains(k as usize) {
                let t = choose|t: int| 0 <= t < res@.len() && res@[t] == k as usize;
                assert(t < old_res.len() ==> old_res[t] == k as usize);
            }
        }
        assert forall|s: int, t: int| 0 <= s < t < res@.len() implies ranks_before(keys@, res@[s] as int, res@[t] as int) by {
            if t == res@.len() - 1 {
                assert(res@[s] == old_res[s]);
            }
        }
    }
    res
}

proof fn lemma_count_true_zero(s: Seq<bool>)
    requires
        forall|i: int| 0 <= i < s.len() ==> !s[i],
    ensures
        count_true(s) == 0,
    decreases s.len(),
{
    if s.len() > 0 {
        lemma_count_true_zero(s.drop_last());
    }
}

/// A shorter top ranking of the same keys is a prefix of a longer one.
pub proof fn lemma_top_ranking_prefix(keys: Seq<(i128, u32)>, n1: nat, o1: Seq<usize>, n2: nat, o2: Seq<usize>)
    requires
        is_top_ranking(keys, n1, o1),
        is_top_ranking(keys, n2, o2),
        n1 <= n2,
    ensures
        o1.len() <= o2.len(),
        o1 == o2.subrange(0, o1.len() as int),
{
    assert forall|t: int| 0 <= t < o1.len() implies o1[t] == o2[t] by {
        lemma_top_ranking_agree(keys, n1, o1, n2, o2, t);
    }
    assert(o1 =~= o2.subrange(0, o1.len() as int));
}

proof fn lemma_top_ranking_agree(keys: Seq<(i128, u32)>, n1: nat, o1: Seq<usize>, n2: nat, o2: Seq<usize>, t: int)
    requires
        is_top_ranking(keys, n1, o1),
        is_top_ranking(keys, n2, o2),
        n1 <= n2,
        0 <= t < o1.len(),
    ensures
        o1[t] == o2[t],
    decreases t,
{
    assert forall|s: int| 0 <= s < t implies o1[s] == o2[s] by {
        lemma_top_ranking_agree(keys, n1, o1, n2, o2, s);
    }
    let a = o1[t];
    let x = o2[t];
    if a != x {
        // `a` sits after position `t` in `o2`, or not at all: either way `x` ranks before `a`.
        if o2.contains(a) {
            let u = choose|u: int| 0 <= u < o2.len() && o2[u] == a;
            if u < t {
                assert(o1[u] == o2[u]);
                assert(ranks_before(keys, o1[u] as int, o1[t] as int));
            }
            assert(u != t);
            assert(ranks_before(keys, x as int, a as int));
        } else {
            assert(ranks_before(keys, o2[t] as int, a as int));
        }
        // and `a` ranks before `x` in `o1`'s order.
        if o1.contains(x) {
            let s = choose|s: int| 0 <= s < o1.len() && o1[s] == x;
            if s < t {
                assert(o2[s] == o1[s]);
                assert(ranks_before(keys, o2[s] as int, o2[t] as int));
            }
            assert(s != t);
            assert(ranks_before(keys, a as int, x as int));
        } else {
            assert(ranks_before(keys, o1[t] as int, x as int));
        }
    }
}

} // verus!
