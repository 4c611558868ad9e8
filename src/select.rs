//! Coin selection: the smallest total at or above a target.
//!
//! The search is exhaustive over the candidate amounts, in the order given.
//! Where two selections reach the same smallest total, the one that leaves
//! out the earlier candidate is kept, so the choice is deterministic.
use vstd::prelude::*;

verus! {

/// Sum of the amounts at the given positions.
pub open spec fn picks_sum(s: Seq<u64>, p: Seq<int>) -> int
    decreases p.len(),
{
    if p.len() == 0 {
        0
    } else {
        s[p[0]] as int + picks_sum(s, p.drop_first())
    }
}

/// Sum of the amounts from position `i` on whose mask bit is set.
pub open spec fn masked_sum(s: Seq<u64>, m: Seq<bool>, i: int) -> int
    decreases s.len() - i,
{
    if i < 0 || i >= s.len() {
        0
    } else {
        (if m[i] { s[i] as int } else { 0 }) + masked_sum(s, m, i + 1)
    }
}

/// Sum of all amounts from position `i` on.
pub open spec fn suffix_sum(s: Seq<u64>, i: int) -> int
    decreases s.len() - i,
{
    if i < 0 || i >= s.len() {
        0
    } else {
        s[i] as int + suffix_sum(s, i + 1)
    }
}

/// The selection, among positions `i..`, of least total at or above `need`;
/// `None` when even all of them fall short.
pub open spec fn best_cover(s: Seq<u64>, i: int, need: int) -> Option<Seq<int>>
    decreases s.len() - i,
{
    if need <= 0 {
        Some(Seq::empty())
    } else if i < 0 || i >= s.len() {
        None
    } else {
        let skip = best_cover(s, i + 1, need);
        let take = match best_cover(s, i + 1, need - s[i]) {
            Some(p) => Some(seq![i].add(p)),
            None => None,
        };
        match take {
            None => skip,
            Some(b) => match skip {
                None => take,
                Some(a) => if picks_sum(s, b) < picks_sum(s, a) {
                    take
                } else {
                    skip
                },
            },
        }
    }
}

/// Positions strictly increasing, all within `lo..s.len()`.
pub open spec fn ascending_within(p: Seq<int>, lo: int, len: int) -> bool {
    (forall|j: int| 0 <= j < p.len() ==> lo <= #[trigger] p[j] < len) && (forall|j: int, k: int|
        0 <= j < k < p.len() ==> p[j] < p[k])
}

proof fn lemma_masked_sum_nonneg(s: Seq<u64>, m: Seq<bool>, i: int)
    ensures
        masked_sum(s, m, i) >= 0,
    decreases s.len() - i,
{
    if 0 <= i < s.len() {
        lemma_masked_sum_nonneg(s, m, i + 1);
    }
}

pub proof fn lemma_suffix_sum_nonneg(s: Seq<u64>, i: int)
    ensures
        suffix_sum(s, i) >= 0,
    decreases s.len() - i,
{
    if 0 <= i < s.len() {
        lemma_suffix_sum_nonneg(s, i + 1);
    }
}

/// The total from position `i` is at most the total from the start.
pub proof fn lemma_suffix_sum_mono(s: Seq<u64>, i: int)
    requires
        0 <= i,
    ensures
        suffix_sum(s, i) <= suffix_sum(s, 0),
    decreases i,
{
    if i > 0 {
        lemma_suffix_sum_mono(s, i - 1);
        lemma_suffix_sum_nonneg(s, i);
    }
}

/// A total, capped at the largest `u64`.
pub open spec fn capped(x: int) -> u64 {
    if x >= u64::MAX {
        u64::MAX
    } else {
        x as u64
    }
}

/// A selection found covers the need with increasing positions.
pub proof fn lemma_best_cover_sound(s: Seq<u64>, i: int, need: int)
    requires
        0 <= i,
    ensures
        best_cover(s, i, need) is Some ==> picks_sum(s, best_cover(s, i, need)->0) >= need
            && ascending_within(best_cover(s, i, need)->0, i, s.len() as int),
    decreases s.len() - i,
{
    if need > 0 && i < s.len() {
        lemma_best_cover_sound(s, i + 1, need);
        lemma_best_cover_sound(s, i + 1, need - s[i]);
        match best_cover(s, i + 1, need - s[i]) {
            Some(p) => {
                let b = seq![i].add(p);
                assert(b.drop_first() =~= p);
                assert(b[0] == i);
                assert forall|j: int| 0 <= j < b.len() implies i <= #[trigger] b[j] < s.len() by {
                    if j > 0 {
                        assert(b[j] == p[j - 1]);
                    }
                }
                assert forall|j: int, k: int| 0 <= j < k < b.len() implies b[j] < b[k] by {
                    assert(b[k] == p[k - 1]);
                    if j > 0 {
                        assert(b[j] == p[j - 1]);
                    }
                }
            },
            None => {},
        }
    }
}

/// A selection exists exactly when all candidates together cover the need.
pub proof fn lemma_best_cover_exists(s: Seq<u64>, i: int, need: int)
    requires
        0 <= i,
    ensures
        best_cover(s, i, need) is Some <==> suffix_sum(s, i) >= need,
    decreases s.len() - i,
{
    if i < s.len() {
        lemma_best_cover_exists(s, i + 1, need);
        lemma_best_cover_exists(s, i + 1, need - s[i]);
    }
}

/// No selection of the candidates that covers the need totals less than the
/// one chosen.
pub proof fn lemma_best_cover_minimal(s: Seq<u64>, m: Seq<bool>, i: int, need: int)
    requires
        0 <= i,
        masked_sum(s, m, i) >= need,
    ensures
        best_cover(s, i, need) is Some,
        picks_sum(s, best_cover(s, i, need)->0) <= masked_sum(s, m, i),
    decreases s.len() - i,
{
    lemma_masked_sum_nonneg(s, m, i);
    if need > 0 && i < s.len() {
        lemma_masked_sum_nonneg(s, m, i + 1);
        if m[i] {
            lemma_best_cover_minimal(s, m, i + 1, need - s[i]);
            let p = best_cover(s, i + 1, need - s[i])->0;
            assert((seq![i].add(p)).drop_first() =~= p);
        } else {
            lemma_best_cover_minimal(s, m, i + 1, need);
        }
    }
}

/// Executable search; returns the selection of `best_cover` together with
/// its excess over the need.
///
/// `tails[i]` is the total from position `i` on, capped at `u64::MAX`: a
/// branch whose candidates cannot reach the need is cut at once, and the
/// search stops at a selection with no excess.
fn cover_from(s: &Vec<u64>, tails: &Vec<u64>, i: usize, need: u64) -> (r: Option<(Vec<usize>, u64)>)
    requires
        i <= s.len(),
        tails@.len() == s@.len() + 1,
        forall|j: int| 0 <= j <= s.len() ==> #[trigger] tails@[j] == capped(suffix_sum(s@, j)),
    ensures
        match r {
            None => best_cover(s@, i as int, need as int) is None,
            Some((v, e)) => best_cover(s@, i as int, need as int) == Some(
                v@.map_values(|x: usize| x as int),
            ) && e == picks_sum(s@, v@.map_values(|x: usize| x as int)) - need,
        },
    decreases s.len() - i,
{
    if need == 0 {
        proof {
            assert(Seq::<usize>::empty().map_values(|x: usize| x as int) =~= Seq::<int>::empty());
        }
        return Some((Vec::new(), 0));
    }
    if tails[i] < need {
        proof {
            lemma_best_cover_exists(s@, i as int, need as int);
        }
        return None;
    }
    if i >= s.len() {
        return None;
    }
    let skip = cover_from(s, tails, i + 1, need);
    let a = s[i];
    proof {
        lemma_best_cover_sound(s@, i as int + 1, need as int);
        lemma_best_cover_sound(s@, i as int + 1, need - a);
    }
    if let Some((_, 0)) = &skip {
        proof {
            match best_cover(s@, i as int + 1, need - a) {
                Some(p) => {
                    assert((seq![i as int].add(p)).drop_first() =~= p);
                },
                None => {},
            }
        }
        return skip;
    }
    let take: Option<(Vec<usize>, u64)> = if a >= need {
        let mut v: Vec<usize> = Vec::new();
        v.push(i);
        proof {
            let p = v@.map_values(|x: usize| x as int);
            assert(p =~= seq![i as int].add(Seq::<int>::empty()));
            assert(p.drop_first() =~= Seq::<int>::empty());
        }
        Some((v, a - need))
    } else {
        match cover_from(s, tails, i + 1, need - a) {
            None => None,
            Some((rest, e)) => {
                let mut v: Vec<usize> = Vec::new();
                v.push(i);
                let mut k: usize = 0;
                while k < rest.len()
                    invariant
                        k <= rest.len(),
                        v@.len() == k + 1,
                        v@[0] == i,
                        forall|j: int| 0 <= j < k ==> v@[j + 1] == rest@[j],
                    decreases rest.len() - k,
                {
                    v.push(rest[k]);
                    k = k + 1;
                }
                proof {
                    let p = v@.map_values(|x: usize| x as int);
                    let q = rest@.map_values(|x: usize| x as int);
                    assert(p =~= seq![i as int].add(q));
                    assert(p.drop_first() =~= q);
                }
                Some((v, e))
            },
        }
    };
    proof {
        lemma_best_cover_sound(s@, i as int + 1, need as int);
        lemma_best_cover_sound(s@, i as int + 1, need - a);
    }
    match take {
        None => skip,
        Some((vb, eb)) => match skip {
            None => Some((vb, eb)),
            Some((va, ea)) => {
                if eb < ea {
                    Some((vb, eb))
                } else {
                    Some((va, ea))
                }
            },
        },
    }
}

/// The positions of the least-total selection of `amounts` that reaches
/// `need`, with the excess of its total over `need`; `None` when all of
/// them together fall short.
pub fn select_cover(amounts: &Vec<u64>, need: u64) -> (r: Option<(Vec<usize>, u64)>)
    ensures
        r is None <==> suffix_sum(amounts@, 0) < need,
        match r {
            None => true,
            Some((v, e)) => best_cover(amounts@, 0, need as int) == Some(
                v@.map_values(|x: usize| x as int),
            ) && e == picks_sum(amounts@, v@.map_values(|x: usize| x as int)) - need,
        },
{
    proof {
        lemma_best_cover_exists(amounts@, 0, need as int);
    }
    let n = amounts.len();
    let mut tails: Vec<u64> = Vec::new();
    let mut k: usize = 0;
    while k < n
        invariant
            n == amounts@.len(),
            k <= n,
            tails@.len() == k,
            forall|j: int| 0 <= j < k ==> #[trigger] tails@[j] == 0u64,
        decreases n - k,
    {
        tails.push(0);
        k = k + 1;
    }
    tails.push(0);
    let mut i: usize = n;
    while i > 0
        invariant
            n == amounts@.len(),
            i <= n,
            tails@.len() == n + 1,
            forall|j: int| i <= j <= n ==> #[trigger] tails@[j] == capped(suffix_sum(amounts@, j)),
        decreases i,
    {
        i = i - 1;
        let next = tails[i + 1];
        let a = amounts[i];
        proof {
            lemma_suffix_sum_nonneg(amounts@, i as int + 1);
        }
        let t = if next > u64::MAX - a {
            u64::MAX
        } else {
            next + a
        };
        tails.set(i, t);
    }
    cover_from(amounts, &tails, 0, need)
}

} // verus!
