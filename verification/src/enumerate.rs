//! Exhaustive enumeration of court partitions and of team assignments.

use vstd::prelude::*;
use crate::round::{copy_players, court_in_range, in_court, sorted_distinct, valid_round, vec_contains};

verus! {

/// Some group of `p` holds the player `e`.
pub open spec fn covered_by(p: Seq<Seq<usize>>, e: int) -> bool {
    exists|g: int| 0 <= g < p.len() && in_court(#[trigger] p[g], e)
}

/// `p` splits the sorted player set `s` into `k` disjoint, internally sorted
/// groups of four that cover `s` exactly. The groups come in ascending order
/// of their first (smallest) element, so every set partition has exactly one
/// form that this predicate accepts: court order cannot make duplicates.
pub open spec fn is_partition_of(p: Seq<Seq<usize>>, s: Seq<usize>, k: nat) -> bool {
    &&& p.len() == k
    &&& forall|g: int| 0 <= g < p.len() ==> (#[trigger] p[g]).len() == 4
    &&& forall|g: int| 0 <= g < p.len() ==> sorted_distinct(#[trigger] p[g])
    &&& forall|g: int, i: int|
        0 <= g < p.len() && 0 <= i < 4 ==> in_court(s, #[trigger] p[g][i] as int)
    &&& forall|g1: int, i1: int, g2: int, i2: int|
        #![trigger p[g1][i1], p[g2][i2]]
        0 <= g1 < p.len() && 0 <= i1 < 4 && 0 <= g2 < p.len() && 0 <= i2 < 4 && (g1 != g2 || i1
            != i2) ==> p[g1][i1] != p[g2][i2]
    &&& forall|j: int| 0 <= j < s.len() ==> #[trigger] covered_by(p, s[j] as int)
    &&& forall|g1: int, g2: int|
        #![trigger p[g1][0], p[g2][0]]
        0 <= g1 < g2 < p.len() ==> p[g1][0] < p[g2][0]
}

/// The triple that, together with the anchor, forms a partition's first
/// group.
pub open spec fn first_triple(p: Seq<Seq<usize>>) -> Seq<usize> {
    p[0].subrange(1, 4)
}

/// Strict lexicographic order on triples of players.
pub open spec fn lex3_lt(x: Seq<usize>, y: Seq<usize>) -> bool {
    ||| x[0] < y[0]
    ||| (x[0] == y[0] && x[1] < y[1])
    ||| (x[0] == y[0] && x[1] == y[1] && x[2] < y[2])
}

/// Pushing an element keeps every present player present.
proof fn lemma_in_court_push(s: Seq<usize>, x: usize, e: int)
    requires
        in_court(s, e),
    ensures
        in_court(s.push(x), e),
{
    let i = choose|i: int| 0 <= i < s.len() && s[i] == e;
    assert(s.push(x)[i] == s[i]);
}

/// Some emitted triple is exactly `[a, b, c]`.
pub open spec fn has_triple(rr: Seq<Vec<usize>>, a: usize, b: usize, c: usize) -> bool {
    exists|t: int| 0 <= t < rr.len() && (#[trigger] rr[t])@ == seq![a, b, c]
}

/// An emitted triple stays emitted when more are pushed.
proof fn lemma_has_triple_push(rr: Seq<Vec<usize>>, x: Vec<usize>, a: usize, b: usize, c: usize)
    requires
        has_triple(rr, a, b, c),
    ensures
        has_triple(rr.push(x), a, b, c),
{
    let t = choose|t: int| 0 <= t < rr.len() && (#[trigger] rr[t])@ == seq![a, b, c];
    assert(rr.push(x)[t] == rr[t]);
}

/// All triples that can be drawn from the sorted pool, each internally
/// sorted; positions `i < j < k` of the pool give the triple
/// `[pool[i], pool[j], pool[k]]`.
pub fn combinations3(pool: &Vec<usize>) -> (r: Vec<Vec<usize>>)
    requires
        sorted_distinct(pool@),
    ensures
        forall|t: int| 0 <= t < r@.len() ==> (#[trigger] r@[t]@).len() == 3,
        forall|t: int| 0 <= t < r@.len() ==> sorted_distinct(#[trigger] r@[t]@),
        forall|t: int, i: int|
            0 <= t < r@.len() && 0 <= i < 3 ==> in_court(pool@, #[trigger] r@[t]@[i] as int),
        forall|a: int, b: int| 0 <= a < b < r@.len() ==> lex3_lt(r@[a]@, r@[b]@),
        forall|a: int, b: int| 0 <= a < b < r@.len() ==> r@[a]@ != r@[b]@,
        forall|i1: int, j1: int, k1: int|
            #![trigger pool@[i1], pool@[j1], pool@[k1]]
            0 <= i1 < j1 < k1 < pool@.len() ==> has_triple(r@, pool@[i1], pool@[j1], pool@[k1]),
{
    let mut r: Vec<Vec<usize>> = Vec::new();
    let n = pool.len();
    let mut i: usize = 0;
    while i < n
        invariant
            n == pool@.len(),
            sorted_distinct(pool@),
            forall|t: int| 0 <= t < r@.len() ==> (#[trigger] r@[t]@).len() == 3,
            forall|t: int| 0 <= t < r@.len() ==> sorted_distinct(#[trigger] r@[t]@),
            forall|t: int, q: int|
                0 <= t < r@.len() && 0 <= q < 3 ==> in_court(pool@, #[trigger] r@[t]@[q] as int),
            forall|a: int, b: int| 0 <= a < b < r@.len() ==> lex3_lt(r@[a]@, r@[b]@),
            i < n ==> forall|t: int|
                0 <= t < r@.len() ==> (#[trigger] r@[t]@)[0] < pool@[i as int],
            forall|i1: int, j1: int, k1: int|
                #![trigger pool@[i1], pool@[j1], pool@[k1]]
                0 <= i1 < j1 < k1 < n && i1 < i ==> has_triple(r@, pool@[i1], pool@[j1], pool@[k1]),
        decreases n - i,
    {
        let mut j: usize = i + 1;
        proof {
            assert forall|i1: int, j1: int, k1: int|
                #![trigger pool@[i1], pool@[j1], pool@[k1]]
                0 <= i1 < j1 < k1 < n && (i1 < i || (i1 == i && j1 < j)) implies has_triple(r@, pool@[i1], pool@[j1], pool@[k1]) by {
                assert(i1 < i);
            }
        }
        while j < n
            invariant
                n == pool@.len(),
                i < j || j == i + 1,
                i < n,
                sorted_distinct(pool@),
                forall|t: int| 0 <= t < r@.len() ==> (#[trigger] r@[t]@).len() == 3,
                forall|t: int| 0 <= t < r@.len() ==> sorted_distinct(#[trigger] r@[t]@),
                forall|t: int, q: int|
                    0 <= t < r@.len() && 0 <= q < 3 ==> in_court(
                        pool@,
                        #[trigger] r@[t]@[q] as int,
                    ),
                forall|a: int, b: int| 0 <= a < b < r@.len() ==> lex3_lt(r@[a]@, r@[b]@),
                forall|t: int|
                    0 <= t < r@.len() ==> (#[trigger] r@[t]@)[0] < pool@[i as int] || (r@[t]@[0]
                        == pool@[i as int] && (j < n ==> r@[t]@[1] < pool@[j as int])),
                forall|i1: int, j1: int, k1: int|
                    #![trigger pool@[i1], pool@[j1], pool@[k1]]
                    0 <= i1 < j1 < k1 < n && (i1 < i || (i1 == i && j1 < j)) ==> has_triple(r@, pool@[i1], pool@[j1], pool@[k1]),
            decreases n - j,
        {
            let mut k: usize = j + 1;
            proof {
                assert forall|i1: int, j1: int, k1: int|
                    #![trigger pool@[i1], pool@[j1], pool@[k1]]
                    0 <= i1 < j1 < k1 < n && (i1 < i || (i1 == i && (j1 < j || (j1 == j && k1
                        < k)))) implies has_triple(r@, pool@[i1], pool@[j1], pool@[k1]) by {
                    assert(i1 < i || (i1 == i && j1 < j));
                }
            }
            while k < n
                invariant
                    n == pool@.len(),
                    i < j < k || k == j + 1,
                    i < j,
                    j < n,
                    i < n,
                    sorted_distinct(pool@),
                    forall|t: int| 0 <= t < r@.len() ==> (#[trigger] r@[t]@).len() == 3,
                    forall|t: int| 0 <= t < r@.len() ==> sorted_distinct(#[trigger] r@[t]@),
                    forall|t: int, q: int|
                        0 <= t < r@.len() && 0 <= q < 3 ==> in_court(
                            pool@,
                            #[trigger] r@[t]@[q] as int,
                        ),
                    forall|a: int, b: int| 0 <= a < b < r@.len() ==> lex3_lt(r@[a]@, r@[b]@),
                    forall|t: int|
                        0 <= t < r@.len() ==> (#[trigger] r@[t]@)[0] < pool@[i as int] || (
                        r@[t]@[0] == pool@[i as int] && (r@[t]@[1] < pool@[j as int] || (r@[t]@[1]
                            == pool@[j as int] && (k < n ==> r@[t]@[2] < pool@[k as int])))),
                    forall|i1: int, j1: int, k1: int|
                        #![trigger pool@[i1], pool@[j1], pool@[k1]]
                        0 <= i1 < j1 < k1 < n && (i1 < i || (i1 == i && (j1 < j || (j1 == j && k1
                            < k)))) ==> has_triple(r@, pool@[i1], pool@[j1], pool@[k1]),
                decreases n - k,
            {
                let mut tr: Vec<usize> = Vec::new();
                tr.push(pool[i]);
                tr.push(pool[j]);
                tr.push(pool[k]);
                proof {
                    assert(tr@ =~= seq![pool@[i as int], pool@[j as int], pool@[k as int]]);
                    assert(in_court(pool@, pool@[i as int] as int));
                    assert(in_court(pool@, pool@[j as int] as int));
                    assert(in_court(pool@, pool@[k as int] as int));
                    // every earlier triple is lexicographically smaller:
                    // some earlier coordinate is strictly smaller
                    assert forall|t: int| 0 <= t < r@.len() implies lex3_lt(r@[t]@, tr@) by {}
                }
                let ghost pre = r@;
                r.push(tr);
                proof {
                    assert(r@[pre.len() as int]@ == seq![
                        pool@[i as int],
                        pool@[j as int],
                        pool@[k as int],
                    ]);
                    assert forall|i1: int, j1: int, k1: int|
                        #![trigger pool@[i1], pool@[j1], pool@[k1]]
                        0 <= i1 < j1 < k1 < n && (i1 < i || (i1 == i && (j1 < j || (j1 == j && k1
                            < k + 1)))) implies has_triple(r@, pool@[i1], pool@[j1], pool@[k1]) by {
                        if i1 == i && j1 == j && k1 == k {
                            assert(r@[pre.len() as int]@ == seq![pool@[i1], pool@[j1], pool@[k1]]);
                        } else {
                            let t = choose|t: int|
                                0 <= t < pre.len() && (#[trigger] pre[t])@ == seq![
                                    pool@[i1],
                                    pool@[j1],
                                    pool@[k1],
                                ];
                            assert(r@[t]@ == seq![pool@[i1], pool@[j1], pool@[k1]]);
                        }
                    }
                }
                k = k + 1;
            }
            proof {
                assert forall|i1: int, j1: int, k1: int|
                    #![trigger pool@[i1], pool@[j1], pool@[k1]]
                    0 <= i1 < j1 < k1 < n && (i1 < i || (i1 == i && j1 < j + 1)) implies has_triple(
                    r@,
                    pool@[i1],
                    pool@[j1],
                    pool@[k1],
                ) by {
                    assert(i1 < i || (i1 == i && (j1 < j || (j1 == j && k1 < k))));
                }
            }
            j = j + 1;
        }
        proof {
            assert forall|i1: int, j1: int, k1: int|
                #![trigger pool@[i1], pool@[j1], pool@[k1]]
                0 <= i1 < j1 < k1 < n && i1 < i + 1 implies has_triple(r@, pool@[i1], pool@[j1], pool@[k1]) by {
                assert(i1 < i || (i1 == i && j1 < j));
            }
        }
        i = i + 1;
    }
    proof {
        assert forall|a: int, b: int| 0 <= a < b < r@.len() implies r@[a]@ != r@[b]@ by {
            assert(lex3_lt(r@[a]@, r@[b]@));
        }
    }
    r
}

/// The sorted players of `players` that do not stand in `group`; with them,
/// `group` and the remainder cover `players`.
pub fn remove_group(players: &Vec<usize>, group: &Vec<usize>) -> (rem: Vec<usize>)
    requires
        sorted_distinct(players@),
    ensures
        sorted_distinct(rem@),
        forall|i: int| 0 <= i < rem@.len() ==> in_court(players@, #[trigger] rem@[i] as int),
        forall|i: int| 0 <= i < rem@.len() ==> !in_court(group@, #[trigger] rem@[i] as int),
        forall|j: int|
            0 <= j < players@.len() ==> in_court(group@, #[trigger] players@[j] as int)
                || in_court(rem@, players@[j] as int),
{
    let mut rem: Vec<usize> = Vec::new();
    let mut i: usize = 0;
    while i < players.len()
        invariant
            i <= players@.len(),
            sorted_distinct(players@),
            sorted_distinct(rem@),
            forall|t: int|
                0 <= t < rem@.len() ==> exists|j: int|
                    0 <= j < i && players@[j] == #[trigger] rem@[t],
            forall|t: int| 0 <= t < rem@.len() ==> !in_court(group@, #[trigger] rem@[t] as int),
            forall|j: int|
                0 <= j < i ==> in_court(group@, #[trigger] players@[j] as int) || in_court(
                    rem@,
                    players@[j] as int,
                ),
        decreases players@.len() - i,
    {
        let x = players[i];
        if !vec_contains(group, x) {
            proof {
                assert forall|t: int| 0 <= t < rem@.len() implies #[trigger] rem@[t] < x by {
                    let j = choose|j: int| 0 <= j < i && players@[j] == rem@[t];
                }
                let ghost pre = rem@;
                assert forall|j: int|
                    0 <= j < i && in_court(pre, #[trigger] players@[j] as int) implies in_court(
                    pre.push(x),
                    players@[j] as int,
                ) by {
                    lemma_in_court_push(pre, x, players@[j] as int);
                }
            }
            rem.push(x);
            proof {
                assert(rem@.last() == x);
                assert(in_court(rem@, x as int)) by {
                    assert(rem@[rem@.len() - 1] == x);
                }
            }
        }
        i = i + 1;
    }
    proof {
        assert forall|t: int| 0 <= t < rem@.len() implies in_court(
            players@,
            #[trigger] rem@[t] as int,
        ) by {
            let j = choose|j: int| 0 <= j < players@.len() && players@[j] == rem@[t];
        }
    }
    rem
}

/// Some collected partition is exactly `pd`.
pub open spec fn has_partition(rr: Seq<Vec<Vec<usize>>>, pd: Seq<Seq<usize>>) -> bool {
    exists|t: int| 0 <= t < rr.len() && (#[trigger] rr[t]).deep_view() == pd
}

/// A collected partition stays collected when more are pushed.
proof fn lemma_has_partition_push(rr: Seq<Vec<Vec<usize>>>, x: Vec<Vec<usize>>, pd: Seq<Seq<usize>>)
    requires
        has_partition(rr, pd),
    ensures
        has_partition(rr.push(x), pd),
{
    let t = choose|t: int| 0 <= t < rr.len() && (#[trigger] rr[t]).deep_view() == pd;
    assert(rr.push(x)[t] == rr[t]);
}

/// In a canonical partition of a sorted set, the first group starts with
/// the smallest player of the whole set.
proof fn lemma_partition_first_group(pd: Seq<Seq<usize>>, players: Seq<usize>, k: nat)
    requires
        is_partition_of(pd, players, k),
        k >= 1,
        players.len() > 0,
        sorted_distinct(players),
    ensures
        pd[0].len() == 4,
        pd[0][0] == players[0],
{
    assert(covered_by(pd, players[0] as int));
    let g = choose|g: int| 0 <= g < pd.len() && in_court(#[trigger] pd[g], players[0] as int);
    let q = choose|q: int| 0 <= q < pd[g].len() && pd[g][q] == players[0] as int;
    // no group element lies below the smallest player
    assert forall|gg: int, ii: int| 0 <= gg < pd.len() && 0 <= ii < 4 implies #[trigger] pd[gg][ii]
        >= players[0] by {
        assert(in_court(players, pd[gg][ii] as int));
        let idx = choose|idx: int| 0 <= idx < players.len() && players[idx] == pd[gg][ii] as int;
        if idx > 0 {
            assert(players[0] < players[idx]);
        }
    }
    assert(pd[g][0] <= pd[g][q]);
    assert(pd[g][0] == players[0]);
    if g > 0 {
        assert(pd[0][0] < pd[g][0]);
        assert(false);
    }
}

/// Behind its first group, a canonical partition of the whole set is a
/// canonical partition of the remainder.
proof fn lemma_partition_tail(
    pd: Seq<Seq<usize>>,
    sd: Seq<Seq<usize>>,
    players: Seq<usize>,
    rem: Seq<usize>,
    group: Seq<usize>,
    k: nat,
)
    requires
        sd == pd.subrange(1, pd.len() as int),
        is_partition_of(pd, players, k),
        k >= 1,
        sorted_distinct(players),
        players.len() > 0,
        pd[0] == group,
        sorted_distinct(rem),
        forall|i: int| 0 <= i < rem.len() ==> in_court(players, #[trigger] rem[i] as int),
        forall|i: int| 0 <= i < rem.len() ==> !in_court(group, #[trigger] rem[i] as int),
        forall|j: int|
            0 <= j < players.len() ==> in_court(group, #[trigger] players[j] as int) || in_court(
                rem,
                players[j] as int,
            ),
    ensures
        is_partition_of(sd, rem, (k - 1) as nat),
{
    assert forall|g: int| 0 <= g < sd.len() implies (#[trigger] sd[g]).len() == 4
        && sorted_distinct(sd[g]) by {
        assert(sd[g] == pd[g + 1]);
    }
    // every element of a later group stands in the remainder
    assert forall|g: int, i: int| 0 <= g < sd.len() && 0 <= i < 4 implies in_court(
        rem,
        #[trigger] sd[g][i] as int,
    ) by {
        assert(sd[g] == pd[g + 1]);
        let e = pd[g + 1][i];
        assert(in_court(players, e as int));
        let j = choose|j: int| 0 <= j < players.len() && players[j] == e as int;
        if in_court(group, players[j] as int) {
            let q = choose|q: int| 0 <= q < group.len() && group[q] == players[j] as int;
            assert(pd[0][q] == pd[g + 1][i]);
            assert(false);
        }
    }
    assert forall|g1: int, i1: int, g2: int, i2: int|
        #![trigger sd[g1][i1], sd[g2][i2]]
        0 <= g1 < sd.len() && 0 <= i1 < 4 && 0 <= g2 < sd.len() && 0 <= i2 < 4 && (g1 != g2 || i1
            != i2) implies sd[g1][i1] != sd[g2][i2] by {
        assert(sd[g1] == pd[g1 + 1] && sd[g2] == pd[g2 + 1]);
    }
    // the later groups cover the remainder
    assert forall|j: int| 0 <= j < rem.len() implies #[trigger] covered_by(
        sd,
        rem[j] as int,
    ) by {
        assert(in_court(players, rem[j] as int));
        let jp = choose|jp: int| 0 <= jp < players.len() && players[jp] == rem[j] as int;
        assert(covered_by(pd, players[jp] as int));
        let g = choose|g: int| 0 <= g < pd.len() && in_court(#[trigger] pd[g], players[jp] as int);
        if g == 0 {
            assert(in_court(group, rem[j] as int));
            assert(false);
        }
        assert(sd[g - 1] == pd[g]);
        assert(0 <= g - 1 < sd.len() && in_court(sd[g - 1], rem[j] as int));
    }
    assert forall|g1: int, g2: int|
        #![trigger sd[g1][0], sd[g2][0]]
        0 <= g1 < g2 < sd.len() implies sd[g1][0] < sd[g2][0] by {
        assert(sd[g1] == pd[g1 + 1] && sd[g2] == pd[g2 + 1]);
        assert(pd[g1 + 1][0] < pd[g2 + 1][0]);
    }
}

/// All ways to split the sorted player set `players` into `num_courts`
/// disjoint, unordered groups of four covering the set exactly. Each group's
/// smallest remaining player anchors it, so each distinct partition appears
/// in its one canonical form. Degenerate inputs (a set that cannot be covered
/// by groups of four) yield nothing.
#[verifier::rlimit(100)]
pub fn enumerate_partitions(players: &Vec<usize>, num_courts: usize) -> (r: Vec<Vec<Vec<usize>>>)
    requires
        sorted_distinct(players@),
    ensures
        forall|t: int|
            0 <= t < r@.len() ==> is_partition_of(
                (#[trigger] r@[t]).deep_view(),
                players@,
                num_courts as nat,
            ),
        forall|a: int, b: int|
            #![trigger r@[a], r@[b]]
            0 <= a < b < r@.len() ==> r@[a].deep_view() != r@[b].deep_view(),
        forall|pd: Seq<Seq<usize>>|
            #![trigger is_partition_of(pd, players@, num_courts as nat)]
            is_partition_of(pd, players@, num_courts as nat) ==> has_partition(r@, pd),
    decreases num_courts,
{
    let mut result: Vec<Vec<Vec<usize>>> = Vec::new();
    if num_courts == 0 {
        if players.len() == 0 {
            let empty: Vec<Vec<usize>> = Vec::new();
            proof {
                assert(is_partition_of(empty.deep_view(), players@, 0));
            }
            result.push(empty);
            proof {
                // the empty partition is the only one, and it is collected
                assert forall|pd: Seq<Seq<usize>>|
                    #![trigger is_partition_of(pd, players@, num_courts as nat)]
                    is_partition_of(pd, players@, num_courts as nat) implies has_partition(
                    result@,
                    pd,
                ) by {
                    assert(pd =~~= Seq::<Seq<usize>>::empty());
                    assert(result@[0].deep_view() =~~= pd);
                    assert(result@[0].deep_view() == pd);
                }
            }
        } else {
            proof {
                // leftover players can never be covered by zero groups
                assert forall|pd: Seq<Seq<usize>>|
                    #![trigger is_partition_of(pd, players@, num_courts as nat)]
                    is_partition_of(pd, players@, num_courts as nat) implies has_partition(
                    result@,
                    pd,
                ) by {
                    assert(covered_by(pd, players@[0] as int));
                    let g = choose|g: int|
                        0 <= g < pd.len() && in_court(#[trigger] pd[g], players@[0] as int);
                    assert(false);
                }
            }
        }
        return result;
    }
    if players.len() == 0 {
        proof {
            // a group of four cannot draw from an empty set
            assert forall|pd: Seq<Seq<usize>>|
                #![trigger is_partition_of(pd, players@, num_courts as nat)]
                is_partition_of(pd, players@, num_courts as nat) implies has_partition(
                result@,
                pd,
            ) by {
                assert(in_court(players@, pd[0][0] as int));
                let idx = choose|idx: int|
                    0 <= idx < players@.len() && players@[idx] == pd[0][0] as int;
                assert(false);
            }
        }
        return result;
    }
    let anchor = players[0];
    let mut rest: Vec<usize> = Vec::new();
    let mut ri: usize = 1;
    while ri < players.len()
        invariant
            1 <= ri <= players@.len(),
            sorted_distinct(players@),
            rest@ =~= players@.subrange(1, ri as int),
        decreases players@.len() - ri,
    {
        rest.push(players[ri]);
        ri = ri + 1;
    }
    proof {
        assert(rest@ =~= players@.subrange(1, players@.len() as int));
        assert(sorted_distinct(rest@));
    }
    let triples = combinations3(&rest);
    let ghost n_courts = num_courts as nat;
    let mut ti: usize = 0;
    while ti < triples.len()
        invariant
            ti <= triples@.len(),
            sorted_distinct(players@),
            players@.len() > 0,
            anchor == players@[0],
            num_courts >= 1,
            n_courts == num_courts as nat,
            rest@ =~= players@.subrange(1, players@.len() as int),
            forall|t: int| 0 <= t < triples@.len() ==> (#[trigger] triples@[t]@).len() == 3,
            forall|t: int| 0 <= t < triples@.len() ==> sorted_distinct(#[trigger] triples@[t]@),
            forall|t: int, q: int|
                0 <= t < triples@.len() && 0 <= q < 3 ==> in_court(
                    rest@,
                    #[trigger] triples@[t]@[q] as int,
                ),
            forall|a: int, b: int|
                0 <= a < b < triples@.len() ==> #[trigger] lex3_lt(triples@[a]@, triples@[b]@),
            forall|t: int|
                0 <= t < result@.len() ==> is_partition_of(
                    (#[trigger] result@[t]).deep_view(),
                    players@,
                    n_courts,
                ),
            forall|a: int, b: int|
                #![trigger result@[a], result@[b]]
                0 <= a < b < result@.len() ==> result@[a].deep_view() != result@[b].deep_view(),
            ti < triples@.len() ==> forall|t: int|
                0 <= t < result@.len() ==> lex3_lt(
                    first_triple((#[trigger] result@[t]).deep_view()),
                    triples@[ti as int]@,
                ),
            forall|pd: Seq<Seq<usize>>|
                #![trigger is_partition_of(pd, players@, n_courts)]
                is_partition_of(pd, players@, n_courts) && (exists|tt: int|
                    0 <= tt < ti && (#[trigger] triples@[tt])@ == first_triple(pd))
                    ==> has_partition(result@, pd),
        decreases triples@.len() - ti,
    {
        let tr = &triples[ti];
        let mut group: Vec<usize> = Vec::new();
        group.push(anchor);
        group.push(tr[0]);
        group.push(tr[1]);
        group.push(tr[2]);
        proof {
            assert(group@ =~= seq![anchor, tr@[0], tr@[1], tr@[2]]);
            // every triple element sits strictly after position 0 of players
            assert forall|q: int| 0 <= q < 3 implies anchor < #[trigger] tr@[q] && in_court(
                players@,
                tr@[q] as int,
            ) by {
                assert(in_court(rest@, tr@[q] as int));
                let j = choose|j: int| 0 <= j < rest@.len() && rest@[j] == tr@[q];
                assert(players@[j + 1] == rest@[j]);
                assert(players@[0] < players@[j + 1]);
            }
            assert(sorted_distinct(group@));
            assert(in_court(players@, anchor as int)) by {
                assert(players@[0] == anchor);
            }
            assert(group@.subrange(1, 4) =~= tr@);
        }
        let rem = remove_group(players, &group);
        let subs = enumerate_partitions(&rem, num_courts - 1);
        let ghost base = result@.len();
        let mut si: usize = 0;
        while si < subs.len()
            invariant
                si <= subs@.len(),
                result@.len() == base + si,
                group@.subrange(1, 4) == triples@[ti as int]@,
                0 <= ti < triples@.len(),
                forall|t: int|
                    0 <= t < base ==> lex3_lt(
                        first_triple((#[trigger] result@[t]).deep_view()),
                        triples@[ti as int]@,
                    ),
                forall|a: int, b: int|
                    #![trigger result@[a], result@[b]]
                    0 <= a < b < result@.len() ==> result@[a].deep_view()
                        != result@[b].deep_view(),
                forall|ss: int|
                    0 <= ss < si ==> (#[trigger] result@[base + ss]).deep_view() == seq![group@]
                        + subs@[ss].deep_view(),
                forall|a: int, b: int|
                    #![trigger subs@[a], subs@[b]]
                    0 <= a < b < subs@.len() ==> subs@[a].deep_view() != subs@[b].deep_view(),
                sorted_distinct(players@),
                players@.len() > 0,
                anchor == players@[0],
                num_courts >= 1,
                n_courts == num_courts as nat,
                group@.len() == 4,
                sorted_distinct(group@),
                group@[0] == anchor,
                forall|i: int|
                    0 <= i < 4 ==> in_court(players@, #[trigger] group@[i] as int),
                sorted_distinct(rem@),
                forall|i: int|
                    0 <= i < rem@.len() ==> in_court(players@, #[trigger] rem@[i] as int),
                forall|i: int|
                    0 <= i < rem@.len() ==> !in_court(group@, #[trigger] rem@[i] as int),
                forall|j: int|
                    0 <= j < players@.len() ==> in_court(group@, #[trigger] players@[j] as int)
                        || in_court(rem@, players@[j] as int),
                forall|t: int|
                    0 <= t < subs@.len() ==> is_partition_of(
                        (#[trigger] subs@[t]).deep_view(),
                        rem@,
                        (num_courts - 1) as nat,
                    ),
                forall|pd2: Seq<Seq<usize>>|
                    #![trigger is_partition_of(pd2, rem@, (num_courts - 1) as nat)]
                    is_partition_of(pd2, rem@, (num_courts - 1) as nat) ==> has_partition(
                        subs@,
                        pd2,
                    ),
                forall|pd: Seq<Seq<usize>>|
                    #![trigger is_partition_of(pd, players@, n_courts)]
                    is_partition_of(pd, players@, n_courts) && (exists|tt: int|
                        0 <= tt < ti && (#[trigger] triples@[tt])@ == first_triple(pd))
                        ==> has_partition(result@, pd),
                forall|t: int|
                    0 <= t < result@.len() ==> is_partition_of(
                        (#[trigger] result@[t]).deep_view(),
                        players@,
                        n_courts,
                    ),
            decreases subs@.len() - si,
        {
            let sub = &subs[si];
            let mut part: Vec<Vec<usize>> = Vec::new();
            part.push(copy_players(&group));
            let mut gi: usize = 0;
            while gi < sub.len()
                invariant
                    gi <= sub@.len(),
                    0 <= si < subs@.len(),
                    sub == &subs@[si as int],
                    group@.len() == 4,
                    part.deep_view() =~~= seq![group@] + sub.deep_view().take(gi as int),
                decreases sub@.len() - gi,
            {
                let ghost pdv = part.deep_view();
                let court = copy_players(&sub[gi]);
                let ghost cdv = court@;
                part.push(court);
                proof {
                    assert(part.deep_view() =~~= pdv.push(cdv));
                    assert(cdv == sub.deep_view()[gi as int]) by {
                        assert(sub@[gi as int]@ == sub.deep_view()[gi as int]);
                    }
                    assert(part.deep_view() =~~= seq![group@] + sub.deep_view().take(
                        gi as int + 1,
                    ));
                }
                gi = gi + 1;
            }
            proof {
                assert(sub.deep_view().take(sub@.len() as int) =~~= sub.deep_view());
                let pd = part.deep_view();
                let sd = sub.deep_view();
                assert(pd =~~= seq![group@] + sd);
                assert(pd[0] == group@);
                assert(pd.len() == 1 + sd.len());
                assert forall|g: int| 1 <= g < pd.len() implies pd[g] == sd[g - 1] by {}
                lemma_assemble_partition(pd, group@, sd, players@, rem@, n_courts);
                // the new partition differs from everything collected: an
                // earlier triple gives a smaller first group, and under the
                // same first group the partitions of the remainder differ
                assert(sd == subs@[si as int].deep_view());
                assert forall|t: int| 0 <= t < result@.len() implies (#[trigger] result@[t]).deep_view()
                    != pd by {
                    if t < base {
                        if result@[t].deep_view() == pd {
                            assert(result@[t].deep_view()[0] == group@);
                            assert(first_triple(result@[t].deep_view()) == triples@[ti as int]@);
                            assert(lex3_lt(triples@[ti as int]@, triples@[ti as int]@));
                        }
                    } else {
                        let ss = t - base;
                        assert(result@[base + ss].deep_view() == seq![group@]
                            + subs@[ss].deep_view());
                        if result@[t].deep_view() == pd {
                            let sv = subs@[ss].deep_view();
                            assert(result@[t].deep_view().len() == 1 + sv.len());
                            assert forall|q: int| 0 <= q < sd.len() implies sv[q] == sd[q] by {
                                assert(sv[q] == (seq![group@] + sv)[q + 1]);
                                assert(sd[q] == (seq![group@] + sd)[q + 1]);
                            }
                            assert(subs@[ss].deep_view() =~~= sd);
                            assert(subs@[ss].deep_view() != subs@[si as int].deep_view());
                        }
                    }
                }
            }
            let ghost pre_result = result@;
            let ghost partg = part;
            result.push(part);
            proof {
                assert forall|pd: Seq<Seq<usize>>|
                    #![trigger is_partition_of(pd, players@, n_courts)]
                    is_partition_of(pd, players@, n_courts) && (exists|tt: int|
                        0 <= tt < ti && (#[trigger] triples@[tt])@ == first_triple(pd)) implies
                    has_partition(result@, pd) by {
                    lemma_has_partition_push(pre_result, partg, pd);
                }
            }
            si = si + 1;
        }
        proof {
            lemma_collect_step(
                result@,
                subs@,
                triples@,
                group@,
                players@,
                rem@,
                base as int,
                ti as int,
                n_courts,
            );
            if ti + 1 < triples@.len() {
                assert(lex3_lt(triples@[ti as int]@, triples@[ti as int + 1]@));
                assert forall|t: int| 0 <= t < result@.len() implies lex3_lt(
                    first_triple((#[trigger] result@[t]).deep_view()),
                    triples@[ti as int + 1]@,
                ) by {
                    if t >= base {
                        let ss = t - base;
                        assert(result@[base + ss].deep_view() == seq![group@]
                            + subs@[ss].deep_view());
                        assert(result@[t].deep_view()[0] == group@);
                        assert(first_triple(result@[t].deep_view()) == triples@[ti as int]@);
                    }
                }
            }
        }
        ti = ti + 1;
    }
    proof {
        lemma_collect_all(result@, triples@, rest@, players@, ti as int, n_courts);
    }
    result
}

/// After one triple's partitions are appended, every partition whose first
/// group uses that triple or an earlier one stands collected.
proof fn lemma_collect_step(
    result: Seq<Vec<Vec<usize>>>,
    subs: Seq<Vec<Vec<usize>>>,
    triples: Seq<Vec<usize>>,
    group: Seq<usize>,
    players: Seq<usize>,
    rem: Seq<usize>,
    base: int,
    ti: int,
    k: nat,
)
    requires
        k >= 1,
        sorted_distinct(players),
        players.len() > 0,
        0 <= ti < triples.len(),
        group.len() == 4,
        group[0] == players[0],
        group.subrange(1, 4) == triples[ti]@,
        sorted_distinct(rem),
        forall|i: int| 0 <= i < rem.len() ==> in_court(players, #[trigger] rem[i] as int),
        forall|i: int| 0 <= i < rem.len() ==> !in_court(group, #[trigger] rem[i] as int),
        forall|j: int|
            0 <= j < players.len() ==> in_court(group, #[trigger] players[j] as int) || in_court(
                rem,
                players[j] as int,
            ),
        forall|pd2: Seq<Seq<usize>>|
            #![trigger is_partition_of(pd2, rem, (k - 1) as nat)]
            is_partition_of(pd2, rem, (k - 1) as nat) ==> has_partition(subs, pd2),
        0 <= base,
        result.len() == base + subs.len(),
        forall|ss: int|
            0 <= ss < subs.len() ==> (#[trigger] result[base + ss]).deep_view() == seq![group]
                + subs[ss].deep_view(),
        forall|pd: Seq<Seq<usize>>|
            #![trigger is_partition_of(pd, players, k)]
            is_partition_of(pd, players, k) && (exists|tt: int|
                0 <= tt < ti && (#[trigger] triples[tt])@ == first_triple(pd)) ==> has_partition(
                result,
                pd,
            ),
    ensures
        forall|pd: Seq<Seq<usize>>|
            #![trigger is_partition_of(pd, players, k)]
            is_partition_of(pd, players, k) && (exists|tt: int|
                0 <= tt < ti + 1 && (#[trigger] triples[tt])@ == first_triple(pd))
                ==> has_partition(result, pd),
{
    assert forall|pd: Seq<Seq<usize>>|
        #![trigger is_partition_of(pd, players, k)]
        is_partition_of(pd, players, k) && (exists|tt: int|
            0 <= tt < ti + 1 && (#[trigger] triples[tt])@ == first_triple(pd)) implies
        has_partition(result, pd) by {
        let tt = choose|tt: int| 0 <= tt < ti + 1 && (#[trigger] triples[tt])@ == first_triple(pd);
        if tt < ti {
            assert(exists|tt2: int|
                0 <= tt2 < ti && (#[trigger] triples[tt2])@ == first_triple(pd));
        } else {
            lemma_partition_first_group(pd, players, k);
            assert(first_triple(pd) == triples[ti]@);
            assert forall|i: int| 1 <= i < 4 implies pd[0][i] == group[i] by {
                assert(pd[0].subrange(1, 4)[i - 1] == pd[0][i]);
                assert(group.subrange(1, 4)[i - 1] == group[i]);
            }
            assert(pd[0] =~= group);
            let sd = pd.subrange(1, pd.len() as int);
            lemma_partition_tail(pd, sd, players, rem, group, k);
            assert(has_partition(subs, sd));
            let ss = choose|ss: int|
                0 <= ss < subs.len() && (#[trigger] subs[ss]).deep_view() == sd;
            assert(result[base + ss].deep_view() == seq![group] + subs[ss].deep_view());
            assert(pd =~~= seq![group] + sd);
            assert(result[base + ss].deep_view() == pd);
        }
    }
}

/// When the triples of the sorted remainder are exhausted, every canonical
/// partition of the whole set stands collected: its anchored first group's
/// triple was enumerated.
proof fn lemma_collect_all(
    result: Seq<Vec<Vec<usize>>>,
    triples: Seq<Vec<usize>>,
    rest: Seq<usize>,
    players: Seq<usize>,
    ti: int,
    k: nat,
)
    requires
        k >= 1,
        sorted_distinct(players),
        players.len() > 0,
        rest =~= players.subrange(1, players.len() as int),
        ti == triples.len(),
        forall|i1: int, j1: int, k1: int|
            #![trigger rest[i1], rest[j1], rest[k1]]
            0 <= i1 < j1 < k1 < rest.len() ==> has_triple(triples, rest[i1], rest[j1], rest[k1]),
        forall|pd: Seq<Seq<usize>>|
            #![trigger is_partition_of(pd, players, k)]
            is_partition_of(pd, players, k) && (exists|tt: int|
                0 <= tt < ti && (#[trigger] triples[tt])@ == first_triple(pd)) ==> has_partition(
                result,
                pd,
            ),
    ensures
        forall|pd: Seq<Seq<usize>>|
            #![trigger is_partition_of(pd, players, k)]
            is_partition_of(pd, players, k) ==> has_partition(result, pd),
{
    assert forall|pd: Seq<Seq<usize>>|
        #![trigger is_partition_of(pd, players, k)]
        is_partition_of(pd, players, k) implies has_partition(result, pd) by {
        lemma_partition_first_group(pd, players, k);
        let e1 = pd[0][1];
        let e2 = pd[0][2];
        let e3 = pd[0][3];
        assert(in_court(players, e1 as int) && in_court(players, e2 as int) && in_court(
            players,
            e3 as int,
        ));
        let jp1 = choose|jp: int| 0 <= jp < players.len() && players[jp] == e1 as int;
        let jp2 = choose|jp: int| 0 <= jp < players.len() && players[jp] == e2 as int;
        let jp3 = choose|jp: int| 0 <= jp < players.len() && players[jp] == e3 as int;
        // the three triple players sit strictly after the anchor
        assert(pd[0][0] < e1 && e1 < e2 && e2 < e3);
        assert(jp1 >= 1 && jp2 >= 1 && jp3 >= 1);
        assert(jp1 < jp2 && jp2 < jp3) by {
            if jp1 >= jp2 {
                assert(players[jp2] <= players[jp1]);
            }
            if jp2 >= jp3 {
                assert(players[jp3] <= players[jp2]);
            }
        }
        assert(rest[jp1 - 1] == players[jp1] && rest[jp2 - 1] == players[jp2] && rest[jp3 - 1]
            == players[jp3]);
        assert(has_triple(triples, rest[jp1 - 1], rest[jp2 - 1], rest[jp3 - 1]));
        let tt = choose|tt: int|
            0 <= tt < triples.len() && (#[trigger] triples[tt])@ == seq![
                rest[jp1 - 1],
                rest[jp2 - 1],
                rest[jp3 - 1],
            ];
        assert(first_triple(pd) =~= seq![rest[jp1 - 1], rest[jp2 - 1], rest[jp3 - 1]]);
        assert(exists|tt2: int|
            0 <= tt2 < triples.len() && (#[trigger] triples[tt2])@ == first_triple(pd));
    }
}

/// `3^n`, the number of team assignments over `n` courts.
pub open spec fn pow3(n: nat) -> nat
    decreases n,
{
    if n == 0 {
        1nat
    } else {
        3 * pow3((n - 1) as nat)
    }
}

/// The three 2-vs-2 splits of a court `[a, b, c, d]`: `ab|cd`, `ac|bd` and
/// `ad|bc`, each written first team first.
pub open spec fn court_split_of(s: Seq<usize>, c: Seq<usize>) -> bool {
    &&& c.len() == 4
    &&& (s == c || s == seq![c[0], c[2], c[1], c[3]] || s == seq![c[0], c[3], c[1], c[2]])
}

/// `v` chooses one of the three team splits on every court of `courts`.
pub open spec fn is_team_variant(v: Seq<Seq<usize>>, courts: Seq<Seq<usize>>) -> bool {
    &&& v.len() == courts.len()
    &&& forall|k: int| 0 <= k < v.len() ==> court_split_of(#[trigger] v[k], courts[k])
}

/// Some collected team assignment is exactly `v`.
pub open spec fn has_variant(rr: Seq<Vec<Vec<usize>>>, v: Seq<Seq<usize>>) -> bool {
    exists|t: int| 0 <= t < rr.len() && (#[trigger] rr[t]).deep_view() == v
}

/// A fresh copy of a round.
pub(crate) fn copy_round(g: &Vec<Vec<usize>>) -> (r: Vec<Vec<usize>>)
    ensures
        r.deep_view() == g.deep_view(),
{
    let mut r: Vec<Vec<usize>> = Vec::new();
    let mut i: usize = 0;
    while i < g.len()
        invariant
            i <= g@.len(),
            r.deep_view() =~~= g.deep_view().take(i as int),
        decreases g@.len() - i,
    {
        let ghost pre = r.deep_view();
        let court = copy_players(&g[i]);
        let ghost cv = court@;
        r.push(court);
        proof {
            assert(r.deep_view() =~~= pre.push(cv));
            assert(cv == g.deep_view()[i as int]);
        }
        i = i + 1;
    }
    proof {
        assert(g.deep_view().take(g@.len() as int) =~~= g.deep_view());
    }
    r
}

/// Every combination, across all courts, of the three 2-vs-2 splits of each
/// court: the full Cartesian product, `3^len` team assignments per
/// partition, in order-preserving form.
pub fn enumerate_all_games(courts: &Vec<Vec<usize>>) -> (r: Vec<Vec<Vec<usize>>>)
    requires
        forall|k: int| 0 <= k < courts.deep_view().len() ==> (#[trigger] courts.deep_view()[k]).len() == 4,
        forall|k: int|
            0 <= k < courts.deep_view().len() ==> ((#[trigger] courts.deep_view()[k])[1]
                != courts.deep_view()[k][2] && courts.deep_view()[k][1]
                != courts.deep_view()[k][3] && courts.deep_view()[k][2]
                != courts.deep_view()[k][3]),
    ensures
        r@.len() == pow3(courts@.len() as nat),
        forall|t: int|
            0 <= t < r@.len() ==> is_team_variant((#[trigger] r@[t]).deep_view(), courts.deep_view()),
        forall|a: int, b: int|
            #![trigger r@[a], r@[b]]
            0 <= a < b < r@.len() ==> r@[a].deep_view() != r@[b].deep_view(),
        forall|v: Seq<Seq<usize>>|
            #![trigger is_team_variant(v, courts.deep_view())]
            is_team_variant(v, courts.deep_view()) ==> has_variant(r@, v),
{
    let ghost cd = courts.deep_view();
    let mut games: Vec<Vec<Vec<usize>>> = Vec::new();
    let first: Vec<Vec<usize>> = Vec::new();
    proof {
        assert(is_team_variant(first.deep_view(), cd.take(0)));
    }
    games.push(first);
    proof {
        assert forall|v: Seq<Seq<usize>>|
            #![trigger is_team_variant(v, cd.take(0))]
            is_team_variant(v, cd.take(0)) implies has_variant(games@, v) by {
            assert(v =~~= Seq::<Seq<usize>>::empty());
            assert(games@[0].deep_view() =~~= v);
            assert(games@[0].deep_view() == v);
        }
    }
    let mut c: usize = 0;
    while c < courts.len()
        invariant
            c <= courts@.len(),
            cd == courts.deep_view(),
            forall|k: int| 0 <= k < cd.len() ==> (#[trigger] cd[k]).len() == 4,
            forall|k: int|
                0 <= k < cd.len() ==> ((#[trigger] cd[k])[1] != cd[k][2] && cd[k][1] != cd[k][3]
                    && cd[k][2] != cd[k][3]),
            games@.len() == pow3(c as nat),
            forall|t: int|
                0 <= t < games@.len() ==> is_team_variant(
                    (#[trigger] games@[t]).deep_view(),
                    cd.take(c as int),
                ),
            forall|a: int, b: int|
                #![trigger games@[a], games@[b]]
                0 <= a < b < games@.len() ==> games@[a].deep_view() != games@[b].deep_view(),
            forall|v: Seq<Seq<usize>>|
                #![trigger is_team_variant(v, cd.take(c as int))]
                is_team_variant(v, cd.take(c as int)) ==> has_variant(games@, v),
        decreases courts@.len() - c,
    {
        let court = &courts[c];
        let ghost cs = cd[c as int];
        proof {
            assert(cs =~= court@);
        }
        let a = court[0];
        let b = court[1];
        let x = court[2];
        let y = court[3];
        let ghost sp0 = cs;
        let ghost sp1 = seq![cs[0], cs[2], cs[1], cs[3]];
        let ghost sp2 = seq![cs[0], cs[3], cs[1], cs[2]];
        let mut next: Vec<Vec<Vec<usize>>> = Vec::new();
        let mut gi: usize = 0;
        while gi < games.len()
            invariant
                gi <= games@.len(),
                cd == courts.deep_view(),
                0 <= c < cd.len(),
                cs == cd[c as int],
                cs.len() == 4,
                cs[1] != cs[2] && cs[1] != cs[3] && cs[2] != cs[3],
                a == cs[0] && b == cs[1] && x == cs[2] && y == cs[3],
                sp0 == cs,
                sp1 == seq![cs[0], cs[2], cs[1], cs[3]],
                sp2 == seq![cs[0], cs[3], cs[1], cs[2]],
                forall|t: int|
                    0 <= t < games@.len() ==> is_team_variant(
                        (#[trigger] games@[t]).deep_view(),
                        cd.take(c as int),
                    ),
                forall|a1: int, b1: int|
                    #![trigger games@[a1], games@[b1]]
                    0 <= a1 < b1 < games@.len() ==> games@[a1].deep_view()
                        != games@[b1].deep_view(),
                forall|v: Seq<Seq<usize>>|
                    #![trigger is_team_variant(v, cd.take(c as int))]
                    is_team_variant(v, cd.take(c as int)) ==> has_variant(games@, v),
                next@.len() == 3 * gi,
                forall|t: int|
                    0 <= t < next@.len() ==> is_team_variant(
                        (#[trigger] next@[t]).deep_view(),
                        cd.take(c as int + 1),
                    ),
                forall|g: int|
                    0 <= g < gi ==> (#[trigger] next@[3 * g]).deep_view()
                        == games@[g].deep_view().push(sp0),
                forall|g: int|
                    0 <= g < gi ==> (#[trigger] next@[3 * g + 1]).deep_view()
                        == games@[g].deep_view().push(sp1),
                forall|g: int|
                    0 <= g < gi ==> (#[trigger] next@[3 * g + 2]).deep_view()
                        == games@[g].deep_view().push(sp2),
                forall|t1: int, t2: int|
                    #![trigger next@[t1], next@[t2]]
                    0 <= t1 < t2 < next@.len() ==> next@[t1].deep_view() != next@[t2].deep_view(),
            decreases games@.len() - gi,
        {
            let base = &games[gi];
            let ghost bd = base.deep_view();
            proof {
                assert(bd == games@[gi as int].deep_view());
                assert(is_team_variant(bd, cd.take(c as int)));
            }
            let mut s0: Vec<usize> = Vec::new();
            s0.push(a);
            s0.push(b);
            s0.push(x);
            s0.push(y);
            let mut s1: Vec<usize> = Vec::new();
            s1.push(a);
            s1.push(x);
            s1.push(b);
            s1.push(y);
            let mut s2: Vec<usize> = Vec::new();
            s2.push(a);
            s2.push(y);
            s2.push(b);
            s2.push(x);
            proof {
                assert(s0@ =~= cs);
                assert(s1@ =~= seq![cs[0], cs[2], cs[1], cs[3]]);
                assert(s2@ =~= seq![cs[0], cs[3], cs[1], cs[2]]);
                assert(court_split_of(s0@, cs));
                assert(court_split_of(s1@, cs));
                assert(court_split_of(s2@, cs));
            }
            let ghost s0v = s0@;
            let ghost s1v = s1@;
            let ghost s2v = s2@;
            let mut v0 = copy_round(base);
            v0.push(s0);
            let mut v1 = copy_round(base);
            v1.push(s1);
            let mut v2 = copy_round(base);
            v2.push(s2);
            proof {
                assert(v0.deep_view() =~~= bd.push(s0v));
                assert(v1.deep_view() =~~= bd.push(s1v));
                assert(v2.deep_view() =~~= bd.push(s2v));
                lemma_variant_extend(v0.deep_view(), bd, cd, c as int);
                lemma_variant_extend(v1.deep_view(), bd, cd, c as int);
                lemma_variant_extend(v2.deep_view(), bd, cd, c as int);
            }
            next.push(v0);
            next.push(v1);
            next.push(v2);
            proof {
                assert(s0v == sp0 && s1v == sp1 && s2v == sp2);
                assert(next@[3 * gi as int].deep_view() == games@[gi as int].deep_view().push(
                    sp0,
                ));
                assert(next@[3 * gi as int + 1].deep_view() == games@[gi as int].deep_view().push(
                    sp1,
                ));
                assert(next@[3 * gi as int + 2].deep_view() == games@[gi as int].deep_view().push(
                    sp2,
                ));
                assert(sp0 != sp1 && sp0 != sp2 && sp1 != sp2) by {
                    assert(sp0[1] == cs[1] && sp1[1] == cs[2] && sp2[1] == cs[3]);
                }
                // all collected assignments differ: different bases differ in
                // a prefix, the three splits of one base differ in the last
                // court
                assert forall|t1: int, t2: int|
                    #![trigger next@[t1], next@[t2]]
                    0 <= t1 < t2 < next@.len() implies next@[t1].deep_view()
                    != next@[t2].deep_view() by {
                    if t2 >= 3 * gi {
                        let g1 = t1 / 3;
                        let q1 = t1 % 3;
                        let g2 = t2 / 3;
                        let q2 = t2 % 3;
                        assert(t1 == 3 * g1 + q1 && 0 <= q1 < 3 && 0 <= g1 <= gi);
                        assert(t2 == 3 * g2 + q2 && 0 <= q2 < 3 && g2 == gi);
                        let base1 = games@[g1].deep_view();
                        let base2 = games@[g2].deep_view();
                        assert(base1.len() == c && base2.len() == c) by {
                            assert(is_team_variant(games@[g1].deep_view(), cd.take(c as int)));
                            assert(is_team_variant(games@[g2].deep_view(), cd.take(c as int)));
                        }
                        let d1 = next@[t1].deep_view();
                        let d2 = next@[t2].deep_view();
                        assert(d1 == base1.push(if q1 == 0 {
                            sp0
                        } else if q1 == 1 {
                            sp1
                        } else {
                            sp2
                        })) by {
                            if q1 == 0 {
                                assert(next@[3 * g1].deep_view() == base1.push(sp0));
                            } else if q1 == 1 {
                                assert(next@[3 * g1 + 1].deep_view() == base1.push(sp1));
                            } else {
                                assert(next@[3 * g1 + 2].deep_view() == base1.push(sp2));
                            }
                        }
                        assert(d2 == base2.push(if q2 == 0 {
                            sp0
                        } else if q2 == 1 {
                            sp1
                        } else {
                            sp2
                        })) by {
                            if q2 == 0 {
                                assert(next@[3 * g2].deep_view() == base2.push(sp0));
                            } else if q2 == 1 {
                                assert(next@[3 * g2 + 1].deep_view() == base2.push(sp1));
                            } else {
                                assert(next@[3 * g2 + 2].deep_view() == base2.push(sp2));
                            }
                        }
                        if d1 == d2 {
                            lemma_push_inj(
                                base1,
                                base2,
                                if q1 == 0 {
                                    sp0
                                } else if q1 == 1 {
                                    sp1
                                } else {
                                    sp2
                                },
                                if q2 == 0 {
                                    sp0
                                } else if q2 == 1 {
                                    sp1
                                } else {
                                    sp2
                                },
                            );
                            if g1 < g2 {
                                assert(games@[g1].deep_view() != games@[g2].deep_view());
                            }
                        }
                    }
                }
            }
            gi = gi + 1;
        }
        proof {
            // every team assignment over one more court extends a collected
            // one by one of the three splits of that court
            assert forall|v: Seq<Seq<usize>>|
                #![trigger is_team_variant(v, cd.take(c as int + 1))]
                is_team_variant(v, cd.take(c as int + 1)) implies has_variant(next@, v) by {
                assert(v.len() == c + 1);
                let vd = v.drop_last();
                assert forall|kk: int| 0 <= kk < vd.len() implies court_split_of(
                    #[trigger] vd[kk],
                    cd.take(c as int)[kk],
                ) by {
                    assert(vd[kk] == v[kk]);
                    assert(court_split_of(v[kk], cd.take(c as int + 1)[kk]));
                    assert(cd.take(c as int + 1)[kk] == cd.take(c as int)[kk]);
                }
                assert(is_team_variant(vd, cd.take(c as int)));
                assert(has_variant(games@, vd));
                let t = choose|t: int|
                    0 <= t < games@.len() && (#[trigger] games@[t]).deep_view() == vd;
                assert(court_split_of(v[c as int], cd.take(c as int + 1)[c as int]));
                assert(cd.take(c as int + 1)[c as int] == cs);
                assert(v =~~= vd.push(v[c as int]));
                if v[c as int] == sp0 {
                    assert(next@[3 * t].deep_view() == games@[t].deep_view().push(sp0));
                    assert(next@[3 * t].deep_view() == v);
                } else if v[c as int] == sp1 {
                    assert(next@[3 * t + 1].deep_view() == games@[t].deep_view().push(sp1));
                    assert(next@[3 * t + 1].deep_view() == v);
                } else {
                    assert(v[c as int] == sp2);
                    assert(next@[3 * t + 2].deep_view() == games@[t].deep_view().push(sp2));
                    assert(next@[3 * t + 2].deep_view() == v);
                }
            }
        }
        games = next;
        c = c + 1;
    }
    proof {
        assert(cd.take(courts@.len() as int) =~= cd);
        assert forall|v: Seq<Seq<usize>>|
            #![trigger is_team_variant(v, cd)]
            is_team_variant(v, cd) implies has_variant(games@, v) by {
            assert(is_team_variant(v, cd.take(courts@.len() as int)));
        }
    }
    games
}

/// Two equal rounds that end in one appended court had equal fronts and
/// equal appended courts.
proof fn lemma_push_inj(p: Seq<Seq<usize>>, q: Seq<Seq<usize>>, x: Seq<usize>, y: Seq<usize>)
    requires
        p.push(x) == q.push(y),
        p.len() == q.len(),
    ensures
        p == q,
        x == y,
{
    assert(p.push(x).last() == x);
    assert(q.push(y).last() == y);
    assert(p =~~= p.push(x).drop_last());
    assert(q =~~= q.push(y).drop_last());
}

/// Appending one more court's split extends a team variant by one court.
proof fn lemma_variant_extend(vd: Seq<Seq<usize>>, bd: Seq<Seq<usize>>, cd: Seq<Seq<usize>>, c: int)
    requires
        0 <= c < cd.len(),
        is_team_variant(bd, cd.take(c)),
        vd.len() == bd.len() + 1,
        forall|k: int| 0 <= k < bd.len() ==> #[trigger] vd[k] == bd[k],
        court_split_of(vd[vd.len() - 1], cd[c]),
    ensures
        is_team_variant(vd, cd.take(c + 1)),
{
    assert forall|k: int| 0 <= k < vd.len() implies court_split_of(
        #[trigger] vd[k],
        cd.take(c + 1)[k],
    ) by {
        if k < c {
            assert(vd[k] == bd[k]);
            assert(court_split_of(bd[k], cd.take(c)[k]));
            assert(cd.take(c + 1)[k] == cd.take(c)[k]);
        } else {
            assert(cd.take(c + 1)[k] == cd[c]);
        }
    }
}

/// A team variant of a valid round is itself a valid round: each court keeps
/// the same four players, merely reordered into teams.
pub proof fn lemma_variant_valid(v: Seq<Seq<usize>>, courts: Seq<Seq<usize>>, n: nat)
    requires
        is_team_variant(v, courts),
        valid_round(courts, n),
    ensures
        valid_round(v, n),
{
    assert forall|k: int| 0 <= k < v.len() implies court_in_range(#[trigger] v[k], n) by {
        assert(court_split_of(v[k], courts[k]));
        assert(court_in_range(courts[k], n));
        assert forall|i: int| 0 <= i < v[k].len() implies (#[trigger] v[k][i]) < n by {
            assert(courts[k][0] < n && courts[k][1] < n && courts[k][2] < n && courts[k][3] < n);
        }
    }
    assert forall|k1: int, i1: int, k2: int, i2: int|
        #![trigger v[k1][i1], v[k2][i2]]
        0 <= k1 < v.len() && 0 <= i1 < 4 && 0 <= k2 < v.len() && 0 <= i2 < 4 && (k1 != k2 || i1
            != i2) implies v[k1][i1] != v[k2][i2] by {
        assert(court_split_of(v[k1], courts[k1]));
        assert(court_split_of(v[k2], courts[k2]));
    }
}

/// A partition of an in-range player set is a valid round.
pub proof fn lemma_partition_round_valid(p: Seq<Seq<usize>>, s: Seq<usize>, k: nat, n: nat)
    requires
        is_partition_of(p, s, k),
        forall|i: int| 0 <= i < s.len() ==> (#[trigger] s[i]) < n,
    ensures
        valid_round(p, n),
{
    assert forall|g: int| 0 <= g < p.len() implies court_in_range(#[trigger] p[g], n) by {
        assert forall|i: int| 0 <= i < p[g].len() implies (#[trigger] p[g][i]) < n by {
            assert(in_court(s, p[g][i] as int));
            let j = choose|j: int| 0 <= j < s.len() && s[j] == p[g][i] as int;
        }
    }
}

/// Gluing an anchored first group onto a partition of the remainder gives a
/// partition of the whole sorted set.
proof fn lemma_assemble_partition(
    pd: Seq<Seq<usize>>,
    group: Seq<usize>,
    sd: Seq<Seq<usize>>,
    players: Seq<usize>,
    rem: Seq<usize>,
    k: nat,
)
    requires
        k >= 1,
        pd.len() == 1 + sd.len(),
        pd[0] == group,
        forall|g: int| 1 <= g < pd.len() ==> pd[g] == sd[g - 1],
        sorted_distinct(players),
        players.len() > 0,
        group.len() == 4,
        sorted_distinct(group),
        group[0] == players[0],
        forall|i: int| 0 <= i < 4 ==> in_court(players, #[trigger] group[i] as int),
        sorted_distinct(rem),
        forall|i: int| 0 <= i < rem.len() ==> in_court(players, #[trigger] rem[i] as int),
        forall|i: int| 0 <= i < rem.len() ==> !in_court(group, #[trigger] rem[i] as int),
        forall|j: int|
            0 <= j < players.len() ==> in_court(group, #[trigger] players[j] as int) || in_court(
                rem,
                players[j] as int,
            ),
        is_partition_of(sd, rem, (k - 1) as nat),
    ensures
        is_partition_of(pd, players, k),
{
    // each group holds four sorted players of the whole set
    assert forall|g: int| 0 <= g < pd.len() implies (#[trigger] pd[g]).len() == 4
        && sorted_distinct(pd[g]) by {
        if g >= 1 {
            assert(pd[g] == sd[g - 1]);
        }
    }
    assert forall|g: int, i: int| 0 <= g < pd.len() && 0 <= i < 4 implies in_court(
        players,
        #[trigger] pd[g][i] as int,
    ) by {
        if g >= 1 {
            assert(pd[g] == sd[g - 1]);
            assert(in_court(rem, pd[g][i] as int));
            let t = choose|t: int| 0 <= t < rem.len() && rem[t] == pd[g][i] as int;
            assert(in_court(players, rem[t] as int));
        }
    }
    // no player stands twice
    assert forall|g1: int, i1: int, g2: int, i2: int|
        #![trigger pd[g1][i1], pd[g2][i2]]
        0 <= g1 < pd.len() && 0 <= i1 < 4 && 0 <= g2 < pd.len() && 0 <= i2 < 4 && (g1 != g2 || i1
            != i2) implies pd[g1][i1] != pd[g2][i2] by {
        if g1 == 0 && g2 == 0 {
            assert(sorted_distinct(group));
        } else if g1 == 0 && g2 >= 1 {
            assert(pd[g2] == sd[g2 - 1]);
            assert(in_court(rem, sd[g2 - 1][i2] as int));
            let t = choose|t: int| 0 <= t < rem.len() && rem[t] == sd[g2 - 1][i2] as int;
            assert(!in_court(group, rem[t] as int));
            if pd[g1][i1] == pd[g2][i2] {
                assert(group[i1] == rem[t]);
                assert(in_court(group, rem[t] as int));
            }
        } else if g1 >= 1 && g2 == 0 {
            assert(pd[g1] == sd[g1 - 1]);
            assert(in_court(rem, sd[g1 - 1][i1] as int));
            let t = choose|t: int| 0 <= t < rem.len() && rem[t] == sd[g1 - 1][i1] as int;
            assert(!in_court(group, rem[t] as int));
            if pd[g1][i1] == pd[g2][i2] {
                assert(group[i2] == rem[t]);
                assert(in_court(group, rem[t] as int));
            }
        } else {
            assert(pd[g1] == sd[g1 - 1] && pd[g2] == sd[g2 - 1]);
        }
    }
    // every player of the set is covered
    assert forall|j: int| 0 <= j < players.len() implies #[trigger] covered_by(
        pd,
        players[j] as int,
    ) by {
        if in_court(group, players[j] as int) {
            assert(0 <= 0 < pd.len() && in_court(pd[0], players[j] as int));
        } else {
            assert(in_court(rem, players[j] as int));
            let t = choose|t: int| 0 <= t < rem.len() && rem[t] == players[j] as int;
            assert(covered_by(sd, rem[t] as int));
            let g = choose|g: int| 0 <= g < sd.len() && in_court(#[trigger] sd[g], rem[t] as int);
            assert(pd[g + 1] == sd[g]);
            assert(0 <= g + 1 < pd.len() && in_court(pd[g + 1], players[j] as int));
        }
    }
    // group heads ascend: the anchor is the smallest player of the whole set
    assert forall|g1: int, g2: int|
        #![trigger pd[g1][0], pd[g2][0]]
        0 <= g1 < g2 < pd.len() implies pd[g1][0] < pd[g2][0] by {
        if g1 == 0 {
            assert(pd[g2] == sd[g2 - 1]);
            assert(in_court(rem, sd[g2 - 1][0] as int));
            let t = choose|t: int| 0 <= t < rem.len() && rem[t] == sd[g2 - 1][0] as int;
            assert(in_court(players, rem[t] as int));
            let j = choose|j: int| 0 <= j < players.len() && players[j] == rem[t];
            assert(!in_court(group, rem[t] as int));
            if j == 0 {
                assert(group[0] == players[0]);
                assert(in_court(group, players[0] as int));
            }
            assert(j > 0);
            assert(players[0] < players[j]);
        } else {
            assert(pd[g1] == sd[g1 - 1] && pd[g2] == sd[g2 - 1]);
        }
    }
}

} // verus!
