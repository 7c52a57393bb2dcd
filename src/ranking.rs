//! Ranking scored candidates: positive scores only, highest first, input
//! order among equal scores, cut to a limit.
use vstd::prelude::*;
use vstd::set_lib::{lemma_int_range, lemma_len_subset, set_int_range};

verus! {

/// Scores as mathematical naturals.
pub open spec fn nat_seq(s: Seq<usize>) -> Seq<nat> {
    Seq::new(s.len(), |i: int| s[i] as nat)
}

/// Candidate `i` ranks ahead of candidate `j`: a higher score, or the same
/// score and an earlier place in the pool.
pub open spec fn ranks_before(s: Seq<nat>, i: int, j: int) -> bool {
    s[i] > s[j] || (s[i] == s[j] && i < j)
}

/// The places of the candidates with a positive score.
pub open spec fn positive_set(s: Seq<nat>) -> Set<int> {
    Set::new(|i: int| 0 <= i < s.len() && s[i] > 0)
}

pub open spec fn min_nat(a: nat, b: nat) -> nat {
    if a <= b {
        a
    } else {
        b
    }
}

/// Whether place `j` occurs in `idx`.
pub open spec fn chosen(idx: Seq<usize>, j: int) -> bool {
    exists|k: int| 0 <= k < idx.len() && idx[k] as int == j
}

/// `idx` is the first `limit` places of the positive-score candidates, taken
/// highest score first and, among equal scores, in pool order.
pub open spec fn is_top_ranking(s: Seq<nat>, limit: nat, idx: Seq<usize>) -> bool {
    &&& idx.len() == min_nat(limit, positive_set(s).len())
    &&& forall|k: int| 0 <= k < idx.len() ==> (#[trigger] idx[k]) < s.len() && s[idx[k] as int] > 0
    &&& forall|k1: int, k2: int|
        0 <= k1 < k2 < idx.len() ==> ranks_before(s, #[trigger] idx[k1] as int, #[trigger] idx[k2] as int)
    &&& forall|j: int, k: int|
        0 <= j < s.len() && s[j] > 0 && !chosen(idx, j) && 0 <= k < idx.len() ==> #[trigger] ranks_before(
            s,
            idx[k] as int,
            j,
        )
}

pub proof fn lemma_positive_set_finite(s: Seq<nat>)
    ensures
        positive_set(s).finite(),
        positive_set(s).len() <= s.len(),
{
    lemma_int_range(0, s.len() as int);
    lemma_len_subset(positive_set(s), set_int_range(0, s.len() as int));
}

proof fn lemma_chosen_set(idx: Seq<usize>, s: Seq<nat>)
    requires
        forall|k1: int, k2: int|
            0 <= k1 < k2 < idx.len() ==> ranks_before(s, #[trigger] idx[k1] as int, #[trigger] idx[k2] as int),
    ensures
        idx.map_values(|x: usize| x as int).to_set().len() == idx.len(),
        forall|j: int| idx.map_values(|x: usize| x as int).to_set().contains(j) <==> chosen(idx, j),
{
    let m = idx.map_values(|x: usize| x as int);
    assert(m.no_duplicates()) by {
        assert forall|a: int, b: int| 0 <= a < m.len() && 0 <= b < m.len() && a != b implies m[a]
            != m[b] by {
            if a < b {
                assert(ranks_before(s, idx[a] as int, idx[b] as int));
            } else {
                assert(ranks_before(s, idx[b] as int, idx[a] as int));
            }
        }
    }
    m.unique_seq_to_set();
    assert forall|j: int| m.to_set().contains(j) <==> chosen(idx, j) by {
        if chosen(idx, j) {
            let k = choose|k: int| 0 <= k < idx.len() && idx[k] as int == j;
            assert(m[k] == j);
        }
    }
}

/// The places of the positive-score candidates, highest score first, pool
/// order among equal scores, at most `limit` of them.
pub fn top_ranked(scores: &Vec<usize>, limit: usize) -> (r: Vec<usize>)
    ensures
        is_top_ranking(nat_seq(scores@), limit as nat, r@),
{
    let ghost s = nat_seq(scores@);
    let n = scores.len();
    let mut r: Vec<usize> = Vec::new();
    let mut exhausted = false;
    while !exhausted && r.len() < limit
        invariant
            s == nat_seq(scores@),
            n == s.len(),
            r@.len() <= limit,
            forall|k: int| 0 <= k < r@.len() ==> (#[trigger] r@[k]) < n && s[r@[k] as int] > 0,
            forall|k1: int, k2: int|
                0 <= k1 < k2 < r@.len() ==> ranks_before(s, #[trigger] r@[k1] as int, #[trigger] r@[k2] as int),
            forall|j: int|
                0 <= j < n && s[j] > 0 ==> (chosen(r@, j) <==> (r@.len() > 0 && (j == r@.last() as int
                    || ranks_before(s, j, r@.last() as int)))),
            exhausted ==> forall|j: int| 0 <= j < n && s[j] > 0 ==> chosen(r@, j),
        decreases limit - r@.len(), if exhausted { 0int } else { 1int },
    {
        let mut best: usize = n;
        let mut j: usize = 0;
        while j < n
            invariant
                s == nat_seq(scores@),
                n == s.len(),
                j <= n,
                r@.len() <= limit,
                forall|k: int| 0 <= k < r@.len() ==> (#[trigger] r@[k]) < n && s[r@[k] as int] > 0,
                best == n || (best < j && s[best as int] > 0 && (r@.len() == 0 || ranks_before(
                    s,
                    r@.last() as int,
                    best as int,
                ))),
                forall|c: int|
                    0 <= c < j && #[trigger] s[c] > 0 && (r@.len() == 0 || ranks_before(s, r@.last() as int, c))
                        ==> best < n && (c == best || ranks_before(s, best as int, c)),
            decreases n - j,
        {
            let sj = scores[j];
            let after_last = if r.len() == 0 {
                true
            } else {
                let last = r[r.len() - 1];
                scores[last] > sj || (scores[last] == sj && last < j)
            };
            assert(s[j as int] == sj as nat);
            assert(after_last == (r@.len() == 0 || ranks_before(s, r@.last() as int, j as int)));
            if sj > 0 && after_last {
                if best == n || sj > scores[best] {
                    best = j;
                }
            }
            j = j + 1;
        }
        if best == n {
            proof {
                assert forall|j: int| 0 <= j < n && s[j] > 0 implies chosen(r@, j) by {
                    assert(s[j] > 0);
                    if r@.len() > 0 && j != r@.last() as int {
                        assert(!ranks_before(s, r@.last() as int, j));
                    }
                }
            }
            exhausted = true;
        } else {
            let ghost old_r = r@;
            r.push(best);
            proof {
                assert forall|k: int| 0 <= k < old_r.len() implies ranks_before(
                    s,
                    #[trigger] old_r[k] as int,
                    best as int,
                ) by {
                    if k < old_r.len() - 1 {
                        assert(ranks_before(s, old_r[k] as int, old_r.last() as int));
                    }
                }
                assert forall|j: int|
                    0 <= j < n && s[j] > 0 implies (chosen(r@, j) <==> (j == best as int
                    || ranks_before(s, j, best as int))) by {
                    if chosen(r@, j) {
                        let k = choose|k: int| 0 <= k < r@.len() && r@[k] as int == j;
                        if k < old_r.len() {
                            assert(r@[k] == old_r[k]);
                        }
                    }
                    if j == best as int {
                        assert(r@[old_r.len() as int] == best);
                    } else if ranks_before(s, j, best as int) {
                        assert(old_r.len() > 0);
                        assert(j == old_r.last() as int || ranks_before(s, j, old_r.last() as int));
                        assert(chosen(old_r, j));
                        let k = choose|k: int| 0 <= k < old_r.len() && old_r[k] as int == j;
                        assert(r@[k] == old_r[k]);
                    }
                }
            }
        }
    }
    proof {
        let m = r@.map_values(|x: usize| x as int);
        lemma_chosen_set(r@, s);
        lemma_positive_set_finite(s);
        assert(m.to_set().subset_of(positive_set(s))) by {
            assert forall|j: int| m.to_set().contains(j) implies positive_set(s).contains(j) by {
                let k = choose|k: int| 0 <= k < r@.len() && r@[k] as int == j;
                assert(r@[k] < n);
            }
        }
        lemma_len_subset(m.to_set(), positive_set(s));
        if exhausted {
            assert forall|j: int| positive_set(s).contains(j) implies m.to_set().contains(j) by {
                assert(chosen(r@, j));
            }
            assert(m.to_set() =~= positive_set(s));
        }
        assert forall|j: int, k: int|
            0 <= j < s.len() && s[j] > 0 && !chosen(r@, j) && 0 <= k < r@.len() implies #[trigger] ranks_before(
            s,
            r@[k] as int,
            j,
        ) by {
            if k < r@.len() - 1 {
                assert(ranks_before(s, r@[k] as int, r@.last() as int));
            }
        }
    }
    r
}

/// A ranking is determined by the scores and the limit: two lists of places
/// that both meet `is_top_ranking` are the same list.
pub proof fn lemma_top_ranking_unique(s: Seq<nat>, limit: nat, a: Seq<usize>, b: Seq<usize>)
    requires
        is_top_ranking(s, limit, a),
        is_top_ranking(s, limit, b),
    ensures
        a == b,
{
    assert forall|k: int| 0 <= k < a.len() implies a[k] == b[k] by {
        lemma_top_ranking_agree(s, limit, a, b, k);
    }
    assert(a =~= b);
}

proof fn lemma_top_ranking_agree(s: Seq<nat>, limit: nat, a: Seq<usize>, b: Seq<usize>, k: int)
    requires
        is_top_ranking(s, limit, a),
        is_top_ranking(s, limit, b),
        0 <= k < a.len(),
    ensures
        a[k] == b[k],
    decreases k,
{
    assert forall|m: int| 0 <= m < k implies a[m] == b[m] by {
        lemma_top_ranking_agree(s, limit, a, b, m);
    }
    if a[k] != b[k] {
        lemma_first_differs(s, limit, a, b, k);
        lemma_first_differs(s, limit, b, a, k);
    }
}

proof fn lemma_first_differs(s: Seq<nat>, limit: nat, a: Seq<usize>, b: Seq<usize>, k: int)
    requires
        is_top_ranking(s, limit, a),
        is_top_ranking(s, limit, b),
        0 <= k < a.len(),
        a.len() == b.len(),
        forall|m: int| 0 <= m < k ==> a[m] == b[m],
        a[k] != b[k],
    ensures
        !ranks_before(s, a[k] as int, b[k] as int),
{
    let x = a[k] as int;
    assert(0 <= x < s.len() && s[x] > 0);
    if ranks_before(s, x, b[k] as int) {
        if chosen(b, x) {
            let m = choose|m: int| 0 <= m < b.len() && b[m] as int == x;
            if m < k {
                assert(ranks_before(s, a[m] as int, a[k] as int));
            } else if m > k {
                assert(ranks_before(s, b[k] as int, b[m] as int));
            }
        } else {
            assert(ranks_before(s, b[k] as int, x));
        }
    }
}

/// With a limit no smaller than the pool, a ranking holds exactly the
/// candidates with a positive score.
pub proof fn lemma_top_ranking_complete(s: Seq<nat>, limit: nat, idx: Seq<usize>)
    requires
        is_top_ranking(s, limit, idx),
        limit >= s.len(),
    ensures
        forall|j: int| 0 <= j < s.len() ==> (chosen(idx, j) <==> s[j] > 0),
{
    let m = idx.map_values(|x: usize| x as int);
    let p = positive_set(s);
    lemma_chosen_set(idx, s);
    lemma_positive_set_finite(s);
    assert forall|j: int| 0 <= j < s.len() implies (chosen(idx, j) <==> s[j] > 0) by {
        if chosen(idx, j) {
            let k = choose|k: int| 0 <= k < idx.len() && idx[k] as int == j;
            assert(idx[k] < s.len());
        }
        if s[j] > 0 && !chosen(idx, j) {
            assert forall|x: int| m.to_set().contains(x) implies p.remove(j).contains(x) by {
                let k = choose|k: int| 0 <= k < idx.len() && idx[k] as int == x;
                assert(idx[k] < s.len());
            }
            assert(p.contains(j));
            lemma_len_subset(m.to_set(), p.remove(j));
        }
    }
}

} // verus!
