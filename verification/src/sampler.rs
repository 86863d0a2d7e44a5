//! Choice of the players for one round, favouring those who have sat out
//! more than the current minimum.

use vstd::prelude::*;
use crate::rng::RandomSource;
use crate::round::{in_court, sorted_distinct};

verus! {

/// `m` is the least wait count of `w`.
pub open spec fn is_min_wait(w: Seq<u32>, m: u32) -> bool {
    &&& exists|i: int| 0 <= i < w.len() && w[i] == m
    &&& forall|i: int| 0 <= i < w.len() ==> (#[trigger] w[i]) >= m
}

/// The players whose wait count differs from the minimum `m` (they have sat
/// out more), in ascending order of index.
pub open spec fn priority_players(w: Seq<u32>, m: u32) -> Seq<usize>
    decreases w.len(),
{
    if w.len() == 0 {
        Seq::empty()
    } else {
        priority_players(w.drop_last(), m) + if w.last() != m {
            seq![(w.len() - 1) as usize]
        } else {
            Seq::empty()
        }
    }
}

/// One more player extends the priority list by that player or not at all.
proof fn lemma_priority_take_succ(w: Seq<u32>, m: u32, i: int)
    requires
        0 <= i < w.len(),
    ensures
        priority_players(w.take(i + 1), m) == priority_players(w.take(i), m) + if w[i] != m {
            seq![i as usize]
        } else {
            Seq::<usize>::empty()
        },
{
    assert(w.take(i + 1).drop_last() =~= w.take(i));
    assert(w.take(i + 1).last() == w[i]);
}

/// The least wait count is unique.
proof fn lemma_min_wait_unique(w: Seq<u32>, a: u32, b: u32)
    requires
        is_min_wait(w, a),
        is_min_wait(w, b),
    ensures
        a == b,
{
    let i = choose|i: int| 0 <= i < w.len() && w[i] == a;
    let j = choose|j: int| 0 <= j < w.len() && w[j] == b;
    assert(w[i] >= b && w[j] >= a);
}

/// What the sampler guarantees of a chosen cohort: a sorted set of
/// `n_playing` players in range; when the players above the minimum wait
/// count just fill the round they are exactly the cohort, and when they fall
/// short they are all in it.
pub open spec fn valid_cohort(
    w: Seq<u32>,
    cohort: Seq<usize>,
    n_playing: nat,
    total_players: nat,
) -> bool {
    &&& sorted_distinct(cohort)
    &&& cohort.len() == n_playing
    &&& forall|i: int| 0 <= i < cohort.len() ==> (#[trigger] cohort[i]) < total_players
    &&& forall|m: u32|
        is_min_wait(w, m) ==> {
            let pv = priority_players(w, m);
            &&& (pv.len() == n_playing ==> cohort == pv)
            &&& (pv.len() < n_playing ==> forall|t: int|
                0 <= t < pv.len() ==> in_court(cohort, #[trigger] pv[t] as int))
        }
}

/// Inserts a new player into a sorted set of players.
fn insert_sorted(v: &mut Vec<usize>, x: usize)
    requires
        sorted_distinct(old(v)@),
        !in_court(old(v)@, x as int),
    ensures
        sorted_distinct(final(v)@),
        final(v)@.len() == old(v)@.len() + 1,
        forall|e: int|
            #![trigger in_court(final(v)@, e)]
            in_court(final(v)@, e) <==> (in_court(old(v)@, e) || e == x as int),
{
    let ghost pre = v@;
    let mut pos: usize = 0;
    while pos < v.len() && v[pos] < x
        invariant
            pos <= v@.len(),
            v@ == pre,
            sorted_distinct(pre),
            forall|j: int| 0 <= j < pos ==> (#[trigger] pre[j]) < x,
        decreases v@.len() - pos,
    {
        pos = pos + 1;
    }
    proof {
        // x is absent, so everything from pos on is strictly larger
        assert forall|j: int| pos <= j < pre.len() implies (#[trigger] pre[j]) > x by {
            if pre[j] == x {
                assert(in_court(pre, x as int));
            }
            if pre[j] < x {
                assert(pre[pos as int] <= pre[j]);
            }
        }
    }
    v.insert(pos, x);
    proof {
        assert(v@ =~= pre.insert(pos as int, x));
        assert forall|i: int, j: int| 0 <= i < j < v@.len() implies v@[i] < v@[j] by {
            assert(v@[i] == if i < pos { pre[i] } else if i == pos { x } else { pre[i - 1] });
            assert(v@[j] == if j < pos { pre[j] } else if j == pos { x } else { pre[j - 1] });
        }
        assert forall|e: int| #![trigger in_court(v@, e)] in_court(v@, e) <==> (in_court(pre, e)
            || e == x as int) by {
            if in_court(v@, e) {
                let i = choose|i: int| 0 <= i < v@.len() && v@[i] == e;
                if i != pos {
                    let oi = if i < pos { i } else { i - 1 };
                    assert(pre[oi] == e);
                }
            }
            if in_court(pre, e) {
                let i = choose|i: int| 0 <= i < pre.len() && pre[i] == e;
                let ni = if i < pos { i } else { i + 1 };
                assert(v@[ni] == e);
            }
            if e == x as int {
                assert(v@[pos as int] == e);
            }
        }
    }
}

/// Sorts a list of pairwise distinct players into a sorted set.
fn sort_players(v: &Vec<usize>) -> (r: Vec<usize>)
    requires
        forall|i: int, j: int| 0 <= i < j < v@.len() ==> v@[i] != v@[j],
    ensures
        sorted_distinct(r@),
        r@.len() == v@.len(),
        forall|e: int| #![trigger in_court(r@, e)] in_court(r@, e) <==> in_court(v@, e),
{
    let mut r: Vec<usize> = Vec::new();
    let mut t: usize = 0;
    while t < v.len()
        invariant
            t <= v@.len(),
            forall|i: int, j: int| 0 <= i < j < v@.len() ==> v@[i] != v@[j],
            sorted_distinct(r@),
            r@.len() == t,
            forall|e: int|
                #![trigger in_court(r@, e)]
                in_court(r@, e) <==> in_court(v@.take(t as int), e),
        decreases v@.len() - t,
    {
        let x = v[t];
        proof {
            if in_court(r@, x as int) {
                assert(in_court(v@.take(t as int), x as int));
                let i = choose|i: int| 0 <= i < t && v@.take(t as int)[i] == x as int;
                assert(v@[i] == v@[t as int]);
            }
        }
        insert_sorted(&mut r, x);
        proof {
            assert forall|e: int| #![trigger in_court(r@, e)] in_court(r@, e) <==> in_court(
                v@.take(t as int + 1),
                e,
            ) by {
                if in_court(v@.take(t as int + 1), e) {
                    let i = choose|i: int|
                        0 <= i < t + 1 && (#[trigger] v@.take(t as int + 1)[i]) == e;
                    if i < t {
                        assert(in_court(v@.take(t as int), e)) by {
                            assert(v@.take(t as int)[i] == e);
                        }
                    } else {
                        assert(e == x as int);
                    }
                }
                if in_court(v@.take(t as int), e) {
                    let i = choose|i: int| 0 <= i < t && v@.take(t as int)[i] == e;
                    assert(v@.take(t as int + 1)[i] == e);
                }
                if e == x as int {
                    assert(v@.take(t as int + 1)[t as int] == e);
                }
            }
        }
        t = t + 1;
    }
    proof {
        assert(v@.take(v@.len() as int) =~= v@);
    }
    r
}

/// Chooses the `n_playing` players of one round: all players who have waited
/// more than the current minimum play when they just fill the round; a
/// shortfall is made up at random from the rest; an excess discards the
/// priority and samples the whole field uniformly.
pub fn sample_waiting_players(
    total_players: usize,
    n_playing: usize,
    n_wait: &Vec<u32>,
    rng: &mut RandomSource,
) -> (r: Vec<usize>)
    requires
        n_wait@.len() == total_players,
        total_players >= 1,
        n_playing <= total_players,
    ensures
        valid_cohort(n_wait@, r@, n_playing as nat, total_players as nat),
{
    let ghost w = n_wait@;
    // the least wait count
    let mut min: u32 = n_wait[0];
    let mut i: usize = 1;
    while i < total_players
        invariant
            1 <= i <= total_players,
            w == n_wait@,
            w.len() == total_players,
            exists|j: int| 0 <= j < i && w[j] == min,
            forall|j: int| 0 <= j < i ==> (#[trigger] w[j]) >= min,
        decreases total_players - i,
    {
        if n_wait[i] < min {
            min = n_wait[i];
        }
        i = i + 1;
    }
    proof {
        assert(is_min_wait(w, min));
    }
    // players above the minimum, and the rest, in ascending index order
    let mut priority: Vec<usize> = Vec::new();
    let mut others: Vec<usize> = Vec::new();
    let mut p: usize = 0;
    while p < total_players
        invariant
            p <= total_players,
            w == n_wait@,
            w.len() == total_players,
            priority@ == priority_players(w.take(p as int), min),
            sorted_distinct(priority@),
            sorted_distinct(others@),
            priority@.len() + others@.len() == p,
            forall|t: int| 0 <= t < priority@.len() ==> (#[trigger] priority@[t]) < p,
            forall|t: int| 0 <= t < others@.len() ==> (#[trigger] others@[t]) < p,
            forall|t: int|
                0 <= t < others@.len() ==> w[#[trigger] others@[t] as int] == min,
            forall|t: int|
                0 <= t < priority@.len() ==> w[#[trigger] priority@[t] as int] != min,
        decreases total_players - p,
    {
        proof {
            lemma_priority_take_succ(w, min, p as int);
        }
        if n_wait[p] != min {
            priority.push(p);
            proof {
                assert(priority@ =~= priority_players(w.take(p as int), min) + seq![p]);
            }
        } else {
            others.push(p);
            proof {
                assert(priority@ =~= priority_players(w.take(p as int), min)
                    + Seq::<usize>::empty());
            }
        }
        p = p + 1;
    }
    proof {
        assert(w.take(total_players as int) =~= w);
    }
    let ghost pv = priority_players(w, min);
    let k = priority.len();
    if k == n_playing {
        proof {
            assert forall|m: u32| is_min_wait(w, m) implies m == min by {
                lemma_min_wait_unique(w, m, min);
            }
        }
        priority
    } else if k > n_playing {
        // the priority does not fit: sample the whole field uniformly
        let mut all: Vec<usize> = Vec::new();
        let mut a: usize = 0;
        while a < total_players
            invariant
                a <= total_players,
                all@ =~= Seq::new(a as nat, |i: int| i as usize),
            decreases total_players - a,
        {
            all.push(a);
            proof {
                assert(all@ =~= Seq::new(a as nat + 1, |i: int| i as usize));
            }
            a = a + 1;
        }
        let picked = rng.choose_distinct(&all, n_playing);
        proof {
            assert forall|t: int| 0 <= t < picked@.len() implies (#[trigger] picked@[t])
                < total_players by {
                assert(in_court(all@, picked@[t] as int));
                let j = choose|j: int| 0 <= j < all@.len() && all@[j] == picked@[t];
            }
            assert forall|m: u32| is_min_wait(w, m) implies m == min by {
                lemma_min_wait_unique(w, m, min);
            }
        }
        let cohort = sort_players(&picked);
        proof {
            assert forall|t: int| 0 <= t < cohort@.len() implies (#[trigger] cohort@[t])
                < total_players by {
                assert(in_court(cohort@, cohort@[t] as int)) by {
                    assert(cohort@[t] == cohort@[t]);
                }
                assert(in_court(picked@, cohort@[t] as int));
                let j = choose|j: int| 0 <= j < picked@.len() && picked@[j] == cohort@[t];
            }
        }
        cohort
    } else {
        // everyone above the minimum plays; fill up at random from the rest
        let picked = rng.choose_distinct(&others, n_playing - k);
        proof {
            assert(others@.len() == total_players - k);
            assert(picked@.len() == n_playing - k);
        }
        let mut cohort = priority;
        let mut t: usize = 0;
        while t < picked.len()
            invariant
                t <= picked@.len(),
                w == n_wait@,
                w.len() == total_players,
                pv == priority_players(w, min),
                sorted_distinct(cohort@),
                cohort@.len() == pv.len() + t,
                forall|i: int, j: int| 0 <= i < j < picked@.len() ==> picked@[i] != picked@[j],
                forall|i: int|
                    0 <= i < picked@.len() ==> in_court(others@, #[trigger] picked@[i] as int),
                forall|i: int| 0 <= i < others@.len() ==> (#[trigger] others@[i]) < total_players,
                forall|i: int|
                    0 <= i < others@.len() ==> w[others@[i] as int] == min,
                forall|e: int|
                    #![trigger in_court(cohort@, e)]
                    in_court(cohort@, e) <==> (in_court(pv, e) || exists|j: int|
                        0 <= j < t && picked@[j] == e),
                forall|i: int| 0 <= i < cohort@.len() ==> (#[trigger] cohort@[i]) < total_players,
                forall|i: int|
                    0 <= i < pv.len() ==> in_court(cohort@, #[trigger] pv[i] as int),
            decreases picked@.len() - t,
        {
            let x = picked[t];
            proof {
                assert(in_court(others@, x as int));
                let j = choose|j: int| 0 <= j < others@.len() && others@[j] == x;
                assert(w[x as int] == min);
                assert(x < total_players);
                // x is no priority player and was not inserted before
                if in_court(cohort@, x as int) {
                    if in_court(pv, x as int) {
                        lemma_priority_is_above_min(w, min, x as int);
                    } else {
                        let jj = choose|jj: int| 0 <= jj < t && picked@[jj] == x as int;
                    }
                }
            }
            let ghost pre_cohort = cohort@;
            insert_sorted(&mut cohort, x);
            proof {
                assert forall|i: int| 0 <= i < cohort@.len() implies (#[trigger] cohort@[i])
                    < total_players by {
                    assert(in_court(cohort@, cohort@[i] as int));
                    if in_court(pre_cohort, cohort@[i] as int) {
                        let j = choose|j: int|
                            0 <= j < pre_cohort.len() && pre_cohort[j] == cohort@[i] as int;
                    } else {
                        assert(cohort@[i] == x);
                    }
                }
                assert forall|i: int| 0 <= i < pv.len() implies in_court(
                    cohort@,
                    #[trigger] pv[i] as int,
                ) by {
                    assert(in_court(pre_cohort, pv[i] as int));
                }
            }
            t = t + 1;
        }
        proof {
            assert forall|m: u32| is_min_wait(w, m) implies m == min by {
                lemma_min_wait_unique(w, m, min);
            }
        }
        cohort
    }
}

/// A priority player's wait count differs from the minimum.
proof fn lemma_priority_is_above_min(w: Seq<u32>, m: u32, e: int)
    requires
        w.len() <= usize::MAX,
        in_court(priority_players(w, m), e),
    ensures
        0 <= e < w.len() && w[e] != m,
    decreases w.len(),
{
    if w.len() > 0 {
        let pv = priority_players(w, m);
        let i = choose|i: int| 0 <= i < pv.len() && pv[i] == e;
        let shorter = priority_players(w.drop_last(), m);
        if i < shorter.len() {
            assert(in_court(shorter, e)) by {
                assert(shorter[i] == e);
            }
            lemma_priority_is_above_min(w.drop_last(), m, e);
            assert(w.drop_last()[e] == w[e]);
        } else {
            assert(w.last() != m);
            assert(pv[i] == (w.len() - 1) as usize);
        }
    }
}

} // verus!
