//! The round loop: a deterministic first round, then a fixed number of
//! optimized rounds, with the cumulative history threaded through.

use vstd::prelude::*;
use crate::history::{
    lemma_counts_bounds, lemma_cwb_le_one, matrix_symmetric, new_info, update_games_info,
    updated_by, CumulativeGamesInfo,
};
use crate::rng::RandomSource;
use crate::round::{
    default_round, in_round, is_default_round, lemma_default_round_valid, valid_round,
};
use crate::selector::find_best_games;

verus! {

/// The fixed number of rounds a schedule holds.
pub const GAMES_NUMBER: usize = 11;

/// How many rounds of `rounds` leave the player `p` sitting out.
pub open spec fn wait_count(rounds: Seq<Seq<Seq<usize>>>, p: int) -> int
    decreases rounds.len(),
{
    if rounds.len() == 0 {
        0
    } else {
        wait_count(rounds.drop_last(), p) + if in_round(rounds.last(), p) {
            0int
        } else {
            1int
        }
    }
}

/// One more round adds one wait for exactly the players it leaves out.
proof fn lemma_wait_count_push(rounds: Seq<Seq<Seq<usize>>>, r: Seq<Seq<usize>>, p: int)
    ensures
        wait_count(rounds.push(r), p) == wait_count(rounds, p) + if in_round(r, p) {
            0int
        } else {
            1int
        },
{
    assert(rounds.push(r).drop_last() =~= rounds);
    assert(rounds.push(r).last() == r);
}

/// How many courts are used: the courts that can be filled with four
/// players, capped by the courts available.
pub fn used_courts(total_players: usize, court_number: usize) -> (r: usize)
    ensures
        r == if total_players as int / 4 < court_number {
            total_players as int / 4
        } else {
            court_number as int
        },
        4 * r <= total_players,
{
    let quarter = total_players / 4;
    proof {
        assert(4 * (total_players as int / 4) <= total_players) by (nonlinear_arith);
    }
    if quarter < court_number {
        quarter
    } else {
        court_number
    }
}

/// Builds the whole schedule: round zero is the ascending default round, and
/// each later round is picked by the selector against the history so far.
/// Returns the rounds and the final cumulative state, whose wait counts
/// record, for every player, exactly the number of returned rounds that
/// player sat out, and whose matrices are symmetric.
pub fn generate_schedule(total_players: usize, court_number: usize, rng: &mut RandomSource) -> (r:
    (Vec<Vec<Vec<usize>>>, CumulativeGamesInfo))
    requires
        total_players >= 1,
    ensures
        r.0@.len() == GAMES_NUMBER,
        forall|t: int|
            0 <= t < r.0@.len() ==> valid_round(
                (#[trigger] r.0@[t]).deep_view(),
                total_players as nat,
            ),
        is_default_round(
            r.0@[0].deep_view(),
            (if total_players as int / 4 < court_number {
                total_players as int / 4
            } else {
                court_number as int
            }) as nat,
        ),
        forall|t: int|
            0 <= t < r.0@.len() ==> (#[trigger] r.0@[t]).deep_view().len()
                == if total_players as int / 4 < court_number {
                total_players as int / 4
            } else {
                court_number as int
            },
        r.1.wf(total_players as nat),
        matrix_symmetric(r.1.gp(), total_players as nat),
        matrix_symmetric(r.1.tm(), total_players as nat),
        forall|p: int|
            0 <= p < total_players ==> #[trigger] r.1.n_wait@[p] == wait_count(
                r.0.deep_view(),
                p,
            ),
{
    let ghost n = total_players as nat;
    let uc = used_courts(total_players, court_number);
    let mut info = new_info(total_players);
    let mut rounds: Vec<Vec<Vec<usize>>> = Vec::new();

    let first = default_round(uc);
    let ghost fd = first.deep_view();
    proof {
        lemma_default_round_valid(fd, uc as nat, n);
    }
    let ghost info0 = info;
    update_games_info(&first, &mut info, total_players);
    proof {
        lemma_headroom_after(info0, info, fd, n, 1);
        crate::history::lemma_update_keeps_symmetry_and_growth(info0, info, fd, n);
    }
    rounds.push(first);
    proof {
        assert(rounds.deep_view() =~~= Seq::<Seq<Seq<usize>>>::empty().push(fd));
        assert forall|p: int| 0 <= p < n implies #[trigger] info.n_wait@[p] == wait_count(
            rounds.deep_view(),
            p,
        ) by {
            lemma_wait_count_push(Seq::<Seq<Seq<usize>>>::empty(), fd, p);
        }
    }

    let mut i: usize = 1;
    while i < GAMES_NUMBER
        invariant
            1 <= i <= GAMES_NUMBER,
            n == total_players as nat,
            total_players >= 1,
            4 * uc <= total_players,
            info.wf(n),
            matrix_symmetric(info.gp(), n),
            matrix_symmetric(info.tm(), n),
            forall|x: int, y: int|
                0 <= x < n && 0 <= y < n ==> #[trigger] info.gp()[x][y] <= i,
            forall|x: int, y: int|
                0 <= x < n && 0 <= y < n ==> #[trigger] info.tm()[x][y] <= i,
            forall|p: int| 0 <= p < n ==> #[trigger] info.n_wait@[p] <= i,
            rounds.deep_view().len() == i,
            forall|t: int|
                0 <= t < i ==> valid_round(#[trigger] rounds.deep_view()[t], n),
            is_default_round(rounds.deep_view()[0], uc as nat),
            forall|t: int| 0 <= t < i ==> (#[trigger] rounds.deep_view()[t]).len() == uc,
            forall|p: int|
                0 <= p < n ==> #[trigger] info.n_wait@[p] == wait_count(rounds.deep_view(), p),
        decreases GAMES_NUMBER - i,
    {
        let best = find_best_games(total_players, uc, &info, rng);
        let ghost bd = best.deep_view();
        let ghost pre = info;
        proof {
            assert(info.has_headroom(n)) by {
                assert(i < GAMES_NUMBER);
            }
        }
        update_games_info(&best, &mut info, total_players);
        proof {
            lemma_headroom_after(pre, info, bd, n, i as int + 1);
            crate::history::lemma_update_keeps_symmetry_and_growth(pre, info, bd, n);
        }
        let ghost rd = rounds.deep_view();
        rounds.push(best);
        proof {
            assert(rounds.deep_view() =~~= rd.push(bd));
            assert forall|p: int| 0 <= p < n implies #[trigger] info.n_wait@[p] == wait_count(
                rounds.deep_view(),
                p,
            ) by {
                lemma_wait_count_push(rd, bd, p);
            }
        }
        i = i + 1;
    }
    proof {
        assert forall|t: int| 0 <= t < rounds@.len() implies (#[trigger] rounds@[t]).deep_view()
            == rounds.deep_view()[t] by {}
    }
    (rounds, info)
}

/// After recording a valid round on top of counters bounded by `b - 1`, all
/// counters stay bounded by `b`: a pair shares at most one court per round.
proof fn lemma_headroom_after(
    pre: CumulativeGamesInfo,
    post: CumulativeGamesInfo,
    g: Seq<Seq<usize>>,
    n: nat,
    b: int,
)
    requires
        updated_by(pre, post, g, n),
        valid_round(g, n),
        forall|x: int, y: int| 0 <= x < n && 0 <= y < n ==> #[trigger] pre.gp()[x][y] <= b - 1,
        forall|x: int, y: int| 0 <= x < n && 0 <= y < n ==> #[trigger] pre.tm()[x][y] <= b - 1,
        forall|p: int| 0 <= p < n ==> #[trigger] pre.n_wait@[p] <= b - 1,
    ensures
        forall|x: int, y: int| 0 <= x < n && 0 <= y < n ==> #[trigger] post.gp()[x][y] <= b,
        forall|x: int, y: int| 0 <= x < n && 0 <= y < n ==> #[trigger] post.tm()[x][y] <= b,
        forall|p: int| 0 <= p < n ==> #[trigger] post.n_wait@[p] <= b,
{
    assert forall|x: int, y: int| 0 <= x < n && 0 <= y < n implies #[trigger] post.gp()[x][y]
        <= b by {
        if x != y {
            lemma_cwb_le_one(g, n, x, y);
            lemma_counts_bounds(g, x, y);
        }
    }
    assert forall|x: int, y: int| 0 <= x < n && 0 <= y < n implies #[trigger] post.tm()[x][y]
        <= b by {
        if x != y {
            lemma_cwb_le_one(g, n, x, y);
            lemma_counts_bounds(g, x, y);
        }
    }
    assert forall|p: int| 0 <= p < n implies #[trigger] post.n_wait@[p] <= b by {
        assert(post.n_wait@[p] == pre.n_wait@[p] + if in_round(g, p) {
            0int
        } else {
            1int
        });
    }
}

} // verus!
