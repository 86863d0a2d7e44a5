//! Scoring of a candidate round against the cumulative history.

use vstd::prelude::*;
use crate::history::{
    courts_with_both, lemma_counts_bounds, lemma_cwb_le_one, lemma_cwb_take_succ,
    CumulativeGamesInfo,
};
use crate::round::{court_in_range, in_court, valid_round, vec_contains};

verus! {

/// A bound on the cost one court can contribute: `28 * u32::MAX + 192` is
/// rounded up to `2^37`.
pub open spec fn court_cost_limit() -> int {
    0x20_0000_0000
}

/// How many courts of the previous round hold both `x` and `y`; zero when no
/// round has been played yet.
pub open spec fn prev_count(info: CumulativeGamesInfo, x: int, y: int) -> int {
    match info.previous_game {
        Option::None => 0,
        Option::Some(pg) => courts_with_both(pg.deep_view(), x, y),
    }
}

/// The penalty of one ordered pair sharing a court: weight 2 on every past
/// shared court, weight 16 on a shared court in the immediately preceding
/// round.
pub open spec fn pair_cost(info: CumulativeGamesInfo, x: int, y: int) -> int {
    2 * info.gp()[x][y] + 16 * prev_count(info, x, y)
}

/// The cost of one court `[a, b, c, d]`: weight 2 on each team's past
/// teammate count, plus the pair penalty of all twelve ordered pairs.
pub open spec fn court_cost(c: Seq<usize>, info: CumulativeGamesInfo) -> int {
    let a = c[0] as int;
    let b = c[1] as int;
    let x = c[2] as int;
    let y = c[3] as int;
    2 * info.tm()[a][b] + 2 * info.tm()[x][y] + pair_cost(info, a, b) + pair_cost(info, a, x)
        + pair_cost(info, a, y) + pair_cost(info, b, a) + pair_cost(info, b, x) + pair_cost(
        info,
        b,
        y,
    ) + pair_cost(info, x, a) + pair_cost(info, x, b) + pair_cost(info, x, y) + pair_cost(
        info,
        y,
        a,
    ) + pair_cost(info, y, b) + pair_cost(info, y, x)
}

/// The cost of a whole candidate round: the sum of its court costs.
pub open spec fn round_cost(g: Seq<Seq<usize>>, info: CumulativeGamesInfo) -> int
    decreases g.len(),
{
    if g.len() == 0 {
        0
    } else {
        round_cost(g.drop_last(), info) + court_cost(g.last(), info)
    }
}

/// Law: the evaluator is deterministic. The cost is a function of the
/// assignment and the history alone, so two evaluations of the same pair
/// agree.
pub proof fn lemma_cost_deterministic(
    g: Seq<Seq<usize>>,
    info: CumulativeGamesInfo,
    c1: int,
    c2: int,
)
    requires
        c1 == round_cost(g, info),
        c2 == round_cost(g, info),
    ensures
        c1 == c2,
{
}

/// One court in range contributes a non-negative cost below the limit.
pub proof fn lemma_court_cost_bound(c: Seq<usize>, info: CumulativeGamesInfo, n: nat)
    requires
        info.wf(n),
        court_in_range(c, n),
    ensures
        0 <= court_cost(c, info) < court_cost_limit(),
{
    assert forall|x: int, y: int| 0 <= x < n && 0 <= y < n implies 0 <= #[trigger] prev_count(
        info,
        x,
        y,
    ) <= 1 by {
        match info.previous_game {
            Option::None => {},
            Option::Some(pg) => {
                lemma_counts_bounds(pg.deep_view(), x, y);
                lemma_cwb_le_one(pg.deep_view(), n, x, y);
            },
        }
    }
}

/// A valid round's cost is non-negative and below `len * court_cost_limit()`.
pub proof fn lemma_round_cost_bound(g: Seq<Seq<usize>>, info: CumulativeGamesInfo, n: nat)
    requires
        info.wf(n),
        valid_round(g, n),
    ensures
        0 <= round_cost(g, info) <= g.len() * court_cost_limit(),
    decreases g.len(),
{
    if g.len() == 0 {
    } else {
        let m = g.len() - 1;
        assert(g.drop_last() =~= g.take(m));
        crate::history::lemma_valid_take(g, n, m);
        lemma_round_cost_bound(g.take(m), info, n);
        lemma_court_cost_bound(g.last(), info, n);
        assert((g.len() - 1) * court_cost_limit() + court_cost_limit() == g.len()
            * court_cost_limit()) by (nonlinear_arith);
    }
}

/// Counts the courts of the previous round that hold both `x` and `y`.
fn count_prev_both(prev: &Vec<Vec<usize>>, x: usize, y: usize) -> (cnt: usize)
    ensures
        cnt == courts_with_both(prev.deep_view(), x as int, y as int),
{
    let ghost g = prev.deep_view();
    let mut cnt: usize = 0;
    let mut c: usize = 0;
    while c < prev.len()
        invariant
            c <= prev@.len(),
            g == prev.deep_view(),
            cnt == courts_with_both(g.take(c as int), x as int, y as int),
            cnt <= c,
        decreases prev@.len() - c,
    {
        proof {
            lemma_cwb_take_succ(g, c as int, x as int, y as int);
            assert(g[c as int] =~= prev@[c as int]@);
        }
        let court = &prev[c];
        if vec_contains(court, x) && vec_contains(court, y) {
            cnt = cnt + 1;
        }
        c = c + 1;
    }
    proof {
        assert(g.take(prev@.len() as int) =~= g);
    }
    cnt
}

/// The penalty of one ordered pair, as executable arithmetic.
fn pair_cost_exec(info: &CumulativeGamesInfo, x: usize, y: usize, total_players: usize) -> (r:
    u128)
    requires
        info.wf(total_players as nat),
        x < total_players,
        y < total_players,
    ensures
        r == pair_cost(*info, x as int, y as int),
        r < 0x20_0000_0000_0000_0000u128,
{
    proof {
        assert(info.games_played@.len() == info.gp().len());
        assert(info.games_played@[x as int]@.len() == info.gp()[x as int].len());
    }
    let gp = info.games_played[x][y];
    let pc: usize = match &info.previous_game {
        None => 0,
        Some(pg) => count_prev_both(pg, x, y),
    };
    proof {
        assert(info.gp()[x as int][y as int] == gp);
    }
    2u128 * (gp as u128) + 16u128 * (pc as u128)
}

/// Scores one candidate round against the history: weighted teammate-repeat,
/// shared-court, and previous-round-repeat penalties, summed over courts.
/// Deterministic and free of side effects.
pub fn cost_function(games: &Vec<Vec<usize>>, info: &CumulativeGamesInfo, total_players: usize) -> (
    cost: u128)
    requires
        info.wf(total_players as nat),
        valid_round(games.deep_view(), total_players as nat),
    ensures
        cost == round_cost(games.deep_view(), *info),
{
    let ghost g = games.deep_view();
    let ghost n = total_players as nat;
    let mut cost: u128 = 0;
    let mut c: usize = 0;
    while c < games.len()
        invariant
            c <= games@.len(),
            g == games.deep_view(),
            n == total_players as nat,
            info.wf(n),
            valid_round(g, n),
            cost == round_cost(g.take(c as int), *info),
            cost <= (c as int) * court_cost_limit(),
        decreases games@.len() - c,
    {
        let court = &games[c];
        let ghost cs = g[c as int];
        proof {
            assert(cs =~= court@);
            assert(court_in_range(cs, n));
        }
        let a = court[0];
        let b = court[1];
        let x = court[2];
        let y = court[3];
        proof {
            assert(info.all_teammates@.len() == info.tm().len());
            assert(info.all_teammates@[a as int]@.len() == info.tm()[a as int].len());
            assert(info.all_teammates@[x as int]@.len() == info.tm()[x as int].len());
        }
        let tm1 = info.all_teammates[a][b];
        let tm2 = info.all_teammates[x][y];
        let mut court_total: u128 = 2u128 * (tm1 as u128) + 2u128 * (tm2 as u128);
        court_total = court_total + pair_cost_exec(info, a, b, total_players);
        court_total = court_total + pair_cost_exec(info, a, x, total_players);
        court_total = court_total + pair_cost_exec(info, a, y, total_players);
        court_total = court_total + pair_cost_exec(info, b, a, total_players);
        court_total = court_total + pair_cost_exec(info, b, x, total_players);
        court_total = court_total + pair_cost_exec(info, b, y, total_players);
        court_total = court_total + pair_cost_exec(info, x, a, total_players);
        court_total = court_total + pair_cost_exec(info, x, b, total_players);
        court_total = court_total + pair_cost_exec(info, x, y, total_players);
        court_total = court_total + pair_cost_exec(info, y, a, total_players);
        court_total = court_total + pair_cost_exec(info, y, b, total_players);
        court_total = court_total + pair_cost_exec(info, y, x, total_players);
        proof {
            assert(info.tm()[cs[0] as int][cs[1] as int] == tm1);
            assert(info.tm()[cs[2] as int][cs[3] as int] == tm2);
            lemma_court_cost_bound(cs, *info, n);
            assert(court_total == court_cost(cs, *info));
            lemma_cost_take_succ(g, *info, c as int);
            assert((c as int) * court_cost_limit() + court_cost_limit() == (c as int + 1)
                * court_cost_limit()) by (nonlinear_arith);
        }
        cost = cost + court_total;
        c = c + 1;
    }
    proof {
        assert(g.take(games@.len() as int) =~= g);
    }
    cost
}

/// One more court extends the round cost by that court's cost.
pub proof fn lemma_cost_take_succ(g: Seq<Seq<usize>>, info: CumulativeGamesInfo, c: int)
    requires
        0 <= c < g.len(),
    ensures
        round_cost(g.take(c + 1), info) == round_cost(g.take(c), info) + court_cost(g[c], info),
{
    assert(g.take(c + 1).drop_last() =~= g.take(c));
    assert(g.take(c + 1).last() == g[c]);
}

} // verus!
