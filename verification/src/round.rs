//! The round model: courts of four players and validity of a round.

use vstd::prelude::*;

verus! {

/// A court is a fixed-order list of four players: team `{c[0], c[1]}` plays
/// against team `{c[2], c[3]}`. All four players lie below `total_players`.
pub open spec fn court_in_range(c: Seq<usize>, total_players: nat) -> bool {
    &&& c.len() == 4
    &&& forall|i: int| 0 <= i < c.len() ==> (#[trigger] c[i]) < total_players
}

/// A valid round assignment: every court holds four players below
/// `total_players`, and no player stands in two positions of the round.
pub open spec fn valid_round(g: Seq<Seq<usize>>, total_players: nat) -> bool {
    &&& forall|k: int| 0 <= k < g.len() ==> court_in_range(#[trigger] g[k], total_players)
    &&& forall|k1: int, i1: int, k2: int, i2: int|
        #![trigger g[k1][i1], g[k2][i2]]
        0 <= k1 < g.len() && 0 <= i1 < 4 && 0 <= k2 < g.len() && 0 <= i2 < 4
            && (k1 != k2 || i1 != i2) ==> g[k1][i1] != g[k2][i2]
}

/// The player `x` stands at some position of the court `c`.
pub open spec fn in_court(c: Seq<usize>, x: int) -> bool {
    exists|i: int| 0 <= i < c.len() && c[i] == x
}

/// The player `x` takes part in some court of the round `g`.
pub open spec fn in_round(g: Seq<Seq<usize>>, x: int) -> bool {
    exists|k: int| 0 <= k < g.len() && in_court(#[trigger] g[k], x)
}

/// The entries of `s` are strictly increasing: a sorted set of players.
pub open spec fn sorted_distinct(s: Seq<usize>) -> bool {
    forall|i: int, j: int| 0 <= i < j < s.len() ==> s[i] < s[j]
}

/// Whether the player `x` stands somewhere in `v`.
pub fn vec_contains(v: &Vec<usize>, x: usize) -> (r: bool)
    ensures
        r == in_court(v@, x as int),
{
    let mut i: usize = 0;
    while i < v.len()
        invariant
            i <= v@.len(),
            forall|j: int| 0 <= j < i ==> v@[j] != x,
        decreases v@.len() - i,
    {
        if v[i] == x {
            return true;
        }
        i = i + 1;
    }
    false
}

/// A fresh copy of a list of players.
pub fn copy_players(v: &Vec<usize>) -> (r: Vec<usize>)
    ensures
        r@ == v@,
{
    let mut r: Vec<usize> = Vec::new();
    let mut i: usize = 0;
    while i < v.len()
        invariant
            i <= v@.len(),
            r@ =~= v@.take(i as int),
        decreases v@.len() - i,
    {
        r.push(v[i]);
        i = i + 1;
    }
    proof {
        assert(v@.take(v@.len() as int) =~= v@);
    }
    r
}

/// The deterministic fallback: players grouped into courts in ascending
/// index order, court `k` holding players `4k, 4k+1, 4k+2, 4k+3`.
pub open spec fn is_default_round(g: Seq<Seq<usize>>, used_courts: nat) -> bool {
    &&& g.len() == used_courts
    &&& forall|k: int| 0 <= k < used_courts ==> (#[trigger] g[k]).len() == 4
    &&& forall|k: int, i: int|
        0 <= k < used_courts && 0 <= i < 4 ==> #[trigger] g[k][i] == 4 * k + i
}

/// The default round: players grouped into courts in ascending index order,
/// court `k` holding players `4k, 4k+1, 4k+2, 4k+3`.
pub fn default_round(used_courts: usize) -> (r: Vec<Vec<usize>>)
    requires
        4 * used_courts <= usize::MAX,
    ensures
        is_default_round(r.deep_view(), used_courts as nat),
{
    let mut r: Vec<Vec<usize>> = Vec::new();
    let mut k: usize = 0;
    while k < used_courts
        invariant
            k <= used_courts,
            4 * used_courts <= usize::MAX,
            r.deep_view().len() == k,
            forall|j: int| 0 <= j < k ==> (#[trigger] r.deep_view()[j]).len() == 4,
            forall|j: int, i: int|
                0 <= j < k && 0 <= i < 4 ==> #[trigger] r.deep_view()[j][i] == 4 * j + i,
        decreases used_courts - k,
    {
        let base: usize = 4 * k;
        let mut court: Vec<usize> = Vec::new();
        court.push(base);
        court.push(base + 1);
        court.push(base + 2);
        court.push(base + 3);
        let ghost prev = r.deep_view();
        let ghost cv = court@;
        r.push(court);
        proof {
            assert(r.deep_view() =~~= prev.push(cv));
        }
        k = k + 1;
    }
    r
}

/// The default round is a valid round whenever its players fit below
/// `total_players`.
pub proof fn lemma_default_round_valid(g: Seq<Seq<usize>>, used_courts: nat, total_players: nat)
    requires
        is_default_round(g, used_courts),
        4 * used_courts <= total_players,
    ensures
        valid_round(g, total_players),
{
    assert forall|k: int| 0 <= k < g.len() implies court_in_range(#[trigger] g[k], total_players) by {
        assert(g[k].len() == 4);
        assert forall|i: int| 0 <= i < g[k].len() implies (#[trigger] g[k][i]) < total_players by {
            assert(g[k][i] == 4 * k + i);
        }
    }
}

} // verus!
