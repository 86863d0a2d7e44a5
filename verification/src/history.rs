//! Cumulative match history: pair counts, teammate counts, wait counts, and
//! the courts of the immediately preceding round.

use vstd::prelude::*;
use crate::round::{valid_round, court_in_range, in_court, in_round};

verus! {

/// An `n x n` matrix of counters.
pub open spec fn matrix_wf(m: Seq<Seq<u32>>, n: nat) -> bool {
    &&& m.len() == n
    &&& forall|i: int| 0 <= i < n ==> (#[trigger] m[i]).len() == n
}

/// The matrix is symmetric over indices below `n`.
pub open spec fn matrix_symmetric(m: Seq<Seq<u32>>, n: nat) -> bool {
    forall|i: int, j: int| 0 <= i < n && 0 <= j < n ==> #[trigger] m[i][j] == m[j][i]
}

/// How many courts of the round `g` hold both `x` and `y`.
pub open spec fn courts_with_both(g: Seq<Seq<usize>>, x: int, y: int) -> int
    decreases g.len(),
{
    if g.len() == 0 {
        0
    } else {
        courts_with_both(g.drop_last(), x, y) + if in_court(g.last(), x) && in_court(
            g.last(),
            y,
        ) {
            1int
        } else {
            0int
        }
    }
}

/// Whether `{x, y}` is one of the two teams of the court `c`.
pub open spec fn team_of_court(c: Seq<usize>, x: int, y: int) -> bool {
    &&& c.len() == 4
    &&& ((x == c[0] && y == c[1]) || (x == c[1] && y == c[0]) || (x == c[2] && y == c[3]) || (x
        == c[3] && y == c[2]))
}

/// How many courts of the round `g` have `{x, y}` as one of their teams.
pub open spec fn teams_with_pair(g: Seq<Seq<usize>>, x: int, y: int) -> int
    decreases g.len(),
{
    if g.len() == 0 {
        0
    } else {
        teams_with_pair(g.drop_last(), x, y) + if team_of_court(g.last(), x, y) {
            1int
        } else {
            0int
        }
    }
}

/// Membership in a court of four is membership at one of its four positions.
pub proof fn lemma_in_court_4(c: Seq<usize>, x: int)
    requires
        c.len() == 4,
    ensures
        in_court(c, x) <==> (x == c[0] || x == c[1] || x == c[2] || x == c[3]),
{
    if in_court(c, x) {
        let i = choose|i: int| 0 <= i < c.len() && c[i] == x;
        assert(i == 0 || i == 1 || i == 2 || i == 3);
    }
    if x == c[0] || x == c[1] || x == c[2] || x == c[3] {
        if x == c[0] {
            assert(0 <= 0 < c.len() && c[0] == x);
        } else if x == c[1] {
            assert(0 <= 1 < c.len() && c[1] == x);
        } else if x == c[2] {
            assert(0 <= 2 < c.len() && c[2] == x);
        } else {
            assert(0 <= 3 < c.len() && c[3] == x);
        }
    }
}

/// One more court extends the count by that court's contribution.
pub proof fn lemma_cwb_take_succ(g: Seq<Seq<usize>>, c: int, x: int, y: int)
    requires
        0 <= c < g.len(),
    ensures
        courts_with_both(g.take(c + 1), x, y) == courts_with_both(g.take(c), x, y) + if in_court(
            g[c],
            x,
        ) && in_court(g[c], y) {
            1int
        } else {
            0int
        },
{
    assert(g.take(c + 1).drop_last() =~= g.take(c));
    assert(g.take(c + 1).last() == g[c]);
}

/// One more court extends the teammate count by that court's contribution.
pub proof fn lemma_twp_take_succ(g: Seq<Seq<usize>>, c: int, x: int, y: int)
    requires
        0 <= c < g.len(),
    ensures
        teams_with_pair(g.take(c + 1), x, y) == teams_with_pair(g.take(c), x, y) + if team_of_court(
            g[c],
            x,
            y,
        ) {
            1int
        } else {
            0int
        },
{
    assert(g.take(c + 1).drop_last() =~= g.take(c));
    assert(g.take(c + 1).last() == g[c]);
}

/// The shared-court count does not depend on the order of the pair.
pub proof fn lemma_cwb_comm(g: Seq<Seq<usize>>, x: int, y: int)
    ensures
        courts_with_both(g, x, y) == courts_with_both(g, y, x),
    decreases g.len(),
{
    if g.len() > 0 {
        lemma_cwb_comm(g.drop_last(), x, y);
    }
}

/// The teammate count does not depend on the order of the pair.
pub proof fn lemma_twp_comm(g: Seq<Seq<usize>>, x: int, y: int)
    ensures
        teams_with_pair(g, x, y) == teams_with_pair(g, y, x),
    decreases g.len(),
{
    if g.len() > 0 {
        lemma_twp_comm(g.drop_last(), x, y);
    }
}

/// Both counts are non-negative, and teammates share a court, so the teammate
/// count never exceeds the shared-court count.
pub proof fn lemma_counts_bounds(g: Seq<Seq<usize>>, x: int, y: int)
    ensures
        0 <= teams_with_pair(g, x, y) <= courts_with_both(g, x, y) <= g.len(),
    decreases g.len(),
{
    if g.len() > 0 {
        lemma_counts_bounds(g.drop_last(), x, y);
        if team_of_court(g.last(), x, y) {
            lemma_in_court_4(g.last(), x);
            lemma_in_court_4(g.last(), y);
        }
    }
}

/// A prefix of a valid round is a valid round.
pub proof fn lemma_valid_take(g: Seq<Seq<usize>>, n: nat, m: int)
    requires
        valid_round(g, n),
        0 <= m <= g.len(),
    ensures
        valid_round(g.take(m), n),
{
    assert forall|k: int| 0 <= k < m implies court_in_range(#[trigger] g.take(m)[k], n) by {
        assert(g.take(m)[k] == g[k]);
    }
}

/// If `x` sits in no court of `g`, no court holds both `x` and `y`.
pub proof fn lemma_cwb_absent(g: Seq<Seq<usize>>, x: int, y: int)
    requires
        forall|k: int| 0 <= k < g.len() ==> !in_court(#[trigger] g[k], x),
    ensures
        courts_with_both(g, x, y) == 0,
    decreases g.len(),
{
    if g.len() > 0 {
        assert(g.last() == g[g.len() - 1]);
        assert forall|k: int| 0 <= k < g.drop_last().len() implies !in_court(
            #[trigger] g.drop_last()[k],
            x,
        ) by {
            assert(g.drop_last()[k] == g[k]);
        }
        lemma_cwb_absent(g.drop_last(), x, y);
    }
}

/// In a valid round, a pair of players shares at most one court.
pub proof fn lemma_cwb_le_one(g: Seq<Seq<usize>>, n: nat, x: int, y: int)
    requires
        valid_round(g, n),
    ensures
        courts_with_both(g, x, y) <= 1,
    decreases g.len(),
{
    if g.len() > 0 {
        let last = g.len() - 1;
        assert(g.drop_last() =~= g.take(last));
        lemma_valid_take(g, n, last);
        if in_court(g.last(), x) && in_court(g.last(), y) {
            let i = choose|i: int| 0 <= i < g[last].len() && g[last][i] == x;
            assert forall|k: int| 0 <= k < g.take(last).len() implies !in_court(
                #[trigger] g.take(last)[k],
                x,
            ) by {
                assert forall|ii: int| 0 <= ii < g[k].len() implies g[k][ii] != x by {
                    assert(g[k][ii] != g[last][i]);
                }
                assert(g.take(last)[k] == g[k]);
            }
            lemma_cwb_absent(g.take(last), x, y);
        } else {
            lemma_cwb_le_one(g.take(last), n, x, y);
        }
    }
}

/// Cumulative state of the schedule, created once and mutated only between
/// rounds.
pub struct CumulativeGamesInfo {
    /// `games_played[x][y]`: how many rounds put `x` and `y` on one court.
    pub games_played: Vec<Vec<u32>>,
    /// `all_teammates[x][y]`: how many rounds put `x` and `y` on one team.
    pub all_teammates: Vec<Vec<u32>>,
    /// The courts of the immediately preceding round, if any.
    pub previous_game: Option<Vec<Vec<usize>>>,
    /// `n_wait[p]`: how many rounds player `p` sat out.
    pub n_wait: Vec<u32>,
}

impl CumulativeGamesInfo {
    /// The shared-court matrix as a mathematical value.
    pub open spec fn gp(&self) -> Seq<Seq<u32>> {
        self.games_played.deep_view()
    }

    /// The teammate matrix as a mathematical value.
    pub open spec fn tm(&self) -> Seq<Seq<u32>> {
        self.all_teammates.deep_view()
    }

    /// Shape of the whole state for `total_players` players; the previous
    /// round, when present, is itself a valid round.
    pub open spec fn wf(&self, total_players: nat) -> bool {
        &&& matrix_wf(self.gp(), total_players)
        &&& matrix_wf(self.tm(), total_players)
        &&& self.n_wait@.len() == total_players
        &&& (self.previous_game matches Some(pg) ==> valid_round(pg.deep_view(), total_players))
    }

    /// All counters lie strictly below their type's maximum, so one more
    /// round can be recorded.
    pub open spec fn has_headroom(&self, total_players: nat) -> bool {
        &&& forall|x: int, y: int|
            0 <= x < total_players && 0 <= y < total_players ==> #[trigger] self.gp()[x][y]
                < u32::MAX
        &&& forall|x: int, y: int|
            0 <= x < total_players && 0 <= y < total_players ==> #[trigger] self.tm()[x][y]
                < u32::MAX
        &&& forall|p: int| 0 <= p < total_players ==> #[trigger] self.n_wait@[p] < u32::MAX
    }
}

/// How one finalized round changes the cumulative state: shared-court and
/// teammate counts grow by that round's contribution, every absent player
/// waits one more round, and the round becomes the previous round.
pub open spec fn updated_by(
    pre: CumulativeGamesInfo,
    post: CumulativeGamesInfo,
    g: Seq<Seq<usize>>,
    n: nat,
) -> bool {
    &&& forall|x: int, y: int|
        0 <= x < n && 0 <= y < n && x != y ==> #[trigger] post.gp()[x][y] == pre.gp()[x][y]
            + courts_with_both(g, x, y)
    &&& forall|x: int| 0 <= x < n ==> #[trigger] post.gp()[x][x] == pre.gp()[x][x]
    &&& forall|x: int, y: int|
        0 <= x < n && 0 <= y < n && x != y ==> #[trigger] post.tm()[x][y] == pre.tm()[x][y]
            + teams_with_pair(g, x, y)
    &&& forall|x: int| 0 <= x < n ==> #[trigger] post.tm()[x][x] == pre.tm()[x][x]
    &&& forall|p: int|
        0 <= p < n ==> #[trigger] post.n_wait@[p] == pre.n_wait@[p] + if in_round(g, p) {
            0int
        } else {
            1int
        }
    &&& post.previous_game matches Some(pg) && pg.deep_view() == g
}

/// A fresh state: zero everywhere, no previous round.
pub fn new_info(total_players: usize) -> (r: CumulativeGamesInfo)
    ensures
        r.wf(total_players as nat),
        r.has_headroom(total_players as nat),
        r.previous_game is None,
        forall|x: int, y: int|
            0 <= x < total_players && 0 <= y < total_players ==> #[trigger] r.gp()[x][y] == 0,
        forall|x: int, y: int|
            0 <= x < total_players && 0 <= y < total_players ==> #[trigger] r.tm()[x][y] == 0,
        forall|p: int| 0 <= p < total_players ==> #[trigger] r.n_wait@[p] == 0,
{
    let mut gp: Vec<Vec<u32>> = Vec::new();
    let mut tm: Vec<Vec<u32>> = Vec::new();
    let mut i: usize = 0;
    while i < total_players
        invariant
            i <= total_players,
            gp.deep_view().len() == i,
            tm.deep_view().len() == i,
            forall|k: int| 0 <= k < i ==> (#[trigger] gp.deep_view()[k]).len() == total_players,
            forall|k: int| 0 <= k < i ==> (#[trigger] tm.deep_view()[k]).len() == total_players,
            forall|k: int, j: int|
                0 <= k < i && 0 <= j < total_players ==> #[trigger] gp.deep_view()[k][j] == 0,
            forall|k: int, j: int|
                0 <= k < i && 0 <= j < total_players ==> #[trigger] tm.deep_view()[k][j] == 0,
        decreases total_players - i,
    {
        let row1: Vec<u32> = vec![0u32; total_players];
        let row2: Vec<u32> = vec![0u32; total_players];
        let ghost gpp = gp.deep_view();
        let ghost tmp = tm.deep_view();
        let ghost r1 = row1@;
        let ghost r2 = row2@;
        gp.push(row1);
        tm.push(row2);
        proof {
            assert(gp.deep_view() =~~= gpp.push(r1));
            assert(tm.deep_view() =~~= tmp.push(r2));
        }
        i = i + 1;
    }
    let n_wait: Vec<u32> = vec![0u32; total_players];
    CumulativeGamesInfo { games_played: gp, all_teammates: tm, previous_game: None, n_wait }
}

/// Records a finalized round into the cumulative state: both matrices grow
/// symmetrically by the round's pair and team contributions, each absent
/// player's wait count rises by one, and the round replaces the previous one.
pub fn update_games_info(
    games: &Vec<Vec<usize>>,
    info: &mut CumulativeGamesInfo,
    total_players: usize,
)
    requires
        old(info).wf(total_players as nat),
        old(info).has_headroom(total_players as nat),
        valid_round(games.deep_view(), total_players as nat),
    ensures
        final(info).wf(total_players as nat),
        updated_by(*old(info), *final(info), games.deep_view(), total_players as nat),
{
    let ghost g = games.deep_view();
    let ghost n = total_players as nat;
    let mut has_played: Vec<bool> = vec![false; total_players];
    let mut prev: Vec<Vec<usize>> = Vec::new();

    let mut c: usize = 0;
    while c < games.len()
        invariant
            c <= games.len(),
            g == games.deep_view(),
            valid_round(g, n),
            n == total_players as nat,
            matrix_wf(info.gp(), n),
            matrix_wf(info.tm(), n),
            info.n_wait == old(info).n_wait,
            info.previous_game == old(info).previous_game,
            old(info).has_headroom(n),
            forall|x: int, y: int|
                0 <= x < n && 0 <= y < n && x != y ==> #[trigger] info.gp()[x][y] == old(
                    info,
                ).gp()[x][y] + courts_with_both(g.take(c as int), x, y),
            forall|x: int| 0 <= x < n ==> #[trigger] info.gp()[x][x] == old(info).gp()[x][x],
            forall|x: int, y: int|
                0 <= x < n && 0 <= y < n && x != y ==> #[trigger] info.tm()[x][y] == old(
                    info,
                ).tm()[x][y] + teams_with_pair(g.take(c as int), x, y),
            forall|x: int| 0 <= x < n ==> #[trigger] info.tm()[x][x] == old(info).tm()[x][x],
            has_played@.len() == n,
            forall|p: int|
                0 <= p < n ==> #[trigger] has_played@[p] == in_round(g.take(c as int), p),
            prev.deep_view() =~~= g.take(c as int),
        decreases games.len() - c,
    {
        let court = &games[c];
        let ghost hp0 = has_played@;
        let ghost cs = g[c as int];
        proof {
            assert(court_in_range(cs, n));
            assert(cs =~= court@);
        }
        let p0 = court[0];
        let p1 = court[1];
        let p2 = court[2];
        let p3 = court[3];
        proof {
            // the four players of one court are pairwise distinct
            assert(cs[0] != cs[1] && cs[0] != cs[2] && cs[0] != cs[3] && cs[1] != cs[2] && cs[1]
                != cs[3] && cs[2] != cs[3]);
            // within this court, the counts so far are untouched: none of its
            // players sits in an earlier court
            lemma_valid_take(g, n, c as int);
            assert forall|x: int, y: int|
                0 <= x < n && 0 <= y < n && x != y && in_court(cs, x) implies courts_with_both(
                g.take(c as int),
                x,
                y,
            ) == 0 by {
                let i = choose|i: int| 0 <= i < cs.len() && cs[i] == x;
                assert forall|k: int| 0 <= k < g.take(c as int).len() implies !in_court(
                    #[trigger] g.take(c as int)[k],
                    x,
                ) by {
                    assert forall|ii: int| 0 <= ii < g[k].len() implies g[k][ii] != x by {
                        assert(g[k][ii] != g[c as int][i]);
                    }
                    assert(g.take(c as int)[k] == g[k]);
                }
                lemma_cwb_absent(g.take(c as int), x, y);
            }
            assert forall|x: int, y: int|
                #![trigger teams_with_pair(g.take(c as int), x, y)]
                0 <= x < n && 0 <= y < n && x != y && in_court(cs, x) implies 0 <= teams_with_pair(
                g.take(c as int),
                x,
                y,
            ) <= courts_with_both(g.take(c as int), x, y) by {
                lemma_counts_bounds(g.take(c as int), x, y);
            }
            lemma_in_court_4(cs, p0 as int);
            lemma_in_court_4(cs, p1 as int);
            lemma_in_court_4(cs, p2 as int);
            lemma_in_court_4(cs, p3 as int);
        }
        mat_inc_sym(&mut info.games_played, p0, p1, total_players);
        mat_inc_sym(&mut info.games_played, p0, p2, total_players);
        mat_inc_sym(&mut info.games_played, p0, p3, total_players);
        mat_inc_sym(&mut info.games_played, p1, p2, total_players);
        mat_inc_sym(&mut info.games_played, p1, p3, total_players);
        mat_inc_sym(&mut info.games_played, p2, p3, total_players);
        mat_inc_sym(&mut info.all_teammates, p0, p1, total_players);
        mat_inc_sym(&mut info.all_teammates, p2, p3, total_players);
        has_played[p0] = true;
        has_played[p1] = true;
        has_played[p2] = true;
        has_played[p3] = true;
        let mut court_copy: Vec<usize> = Vec::new();
        court_copy.push(p0);
        court_copy.push(p1);
        court_copy.push(p2);
        court_copy.push(p3);
        let ghost prevdv = prev.deep_view();
        prev.push(court_copy);
        proof {
            assert(prev.deep_view() =~~= prevdv.push(cs));
            assert forall|x: int, y: int|
                0 <= x < n && 0 <= y < n && x != y implies #[trigger] info.gp()[x][y] == old(
                info,
            ).gp()[x][y] + courts_with_both(g.take(c as int + 1), x, y) by {
                lemma_cwb_take_succ(g, c as int, x, y);
                lemma_in_court_4(cs, x);
                lemma_in_court_4(cs, y);
            }
            assert forall|x: int, y: int|
                0 <= x < n && 0 <= y < n && x != y implies #[trigger] info.tm()[x][y] == old(
                info,
            ).tm()[x][y] + teams_with_pair(g.take(c as int + 1), x, y) by {
                lemma_twp_take_succ(g, c as int, x, y);
            }
            assert forall|p: int| 0 <= p < n implies #[trigger] has_played@[p] == in_round(
                g.take(c as int + 1),
                p,
            ) by {
                lemma_in_court_4(cs, p);
                assert(g.take(c as int + 1)[c as int] == g[c as int]);
                if p == p0 as int || p == p1 as int || p == p2 as int || p == p3 as int {
                    assert(in_court(cs, p));
                    assert(in_court(g.take(c as int + 1)[c as int], p));
                    assert(in_round(g.take(c as int + 1), p));
                    assert(has_played@[p] == true);
                } else {
                    assert(has_played@[p] == hp0[p]);
                    if in_round(g.take(c as int), p) {
                        let k = choose|k: int|
                            0 <= k < g.take(c as int).len() && in_court(
                                #[trigger] g.take(c as int)[k],
                                p,
                            );
                        assert(g.take(c as int + 1)[k] == g[k]);
                        assert(in_court(g.take(c as int + 1)[k], p));
                    }
                    if in_round(g.take(c as int + 1), p) {
                        let k = choose|k: int|
                            0 <= k < g.take(c as int + 1).len() && in_court(
                                #[trigger] g.take(c as int + 1)[k],
                                p,
                            );
                        if k == c as int {
                            assert(in_court(cs, p));
                        } else {
                            assert(g.take(c as int)[k] == g[k]);
                            assert(in_court(g.take(c as int)[k], p));
                        }
                    }
                }
            }
        }
        c = c + 1;
    }
    proof {
        assert(g.take(games.len() as int) =~= g);
    }
    let mut p: usize = 0;
    while p < total_players
        invariant
            p <= total_players,
            g == games.deep_view(),
            n == total_players as nat,
            matrix_wf(info.gp(), n),
            matrix_wf(info.tm(), n),
            info.previous_game == old(info).previous_game,
            old(info).has_headroom(n),
            info.n_wait@.len() == n,
            forall|x: int, y: int|
                0 <= x < n && 0 <= y < n && x != y ==> #[trigger] info.gp()[x][y] == old(
                    info,
                ).gp()[x][y] + courts_with_both(g, x, y),
            forall|x: int| 0 <= x < n ==> #[trigger] info.gp()[x][x] == old(info).gp()[x][x],
            forall|x: int, y: int|
                0 <= x < n && 0 <= y < n && x != y ==> #[trigger] info.tm()[x][y] == old(
                    info,
                ).tm()[x][y] + teams_with_pair(g, x, y),
            forall|x: int| 0 <= x < n ==> #[trigger] info.tm()[x][x] == old(info).tm()[x][x],
            prev.deep_view() =~~= g,
            has_played@.len() == n,
            forall|q: int| 0 <= q < n ==> #[trigger] has_played@[q] == in_round(g, q),
            forall|q: int|
                0 <= q < p ==> #[trigger] info.n_wait@[q] == old(info).n_wait@[q] + if in_round(
                    g,
                    q,
                ) {
                    0int
                } else {
                    1int
                },
            forall|q: int| p <= q < n ==> #[trigger] info.n_wait@[q] == old(info).n_wait@[q],
        decreases total_players - p,
    {
        if !has_played[p] {
            let w = info.n_wait[p];
            info.n_wait[p] = w + 1;
        }
        p = p + 1;
    }
    info.previous_game = Some(prev);
}

/// Law: the pair and teammate matrices remain symmetric, and no cell of
/// either ever decreases, across every update by a finalized round.
pub proof fn lemma_update_keeps_symmetry_and_growth(
    pre: CumulativeGamesInfo,
    post: CumulativeGamesInfo,
    g: Seq<Seq<usize>>,
    n: nat,
)
    requires
        matrix_symmetric(pre.gp(), n),
        matrix_symmetric(pre.tm(), n),
        updated_by(pre, post, g, n),
    ensures
        matrix_symmetric(post.gp(), n),
        matrix_symmetric(post.tm(), n),
        forall|x: int, y: int|
            0 <= x < n && 0 <= y < n ==> #[trigger] post.gp()[x][y] >= pre.gp()[x][y],
        forall|x: int, y: int|
            0 <= x < n && 0 <= y < n ==> #[trigger] post.tm()[x][y] >= pre.tm()[x][y],
{
    assert forall|x: int, y: int| 0 <= x < n && 0 <= y < n implies #[trigger] post.gp()[x][y]
        == post.gp()[y][x] by {
        lemma_cwb_comm(g, x, y);
    }
    assert forall|x: int, y: int| 0 <= x < n && 0 <= y < n implies #[trigger] post.tm()[x][y]
        == post.tm()[y][x] by {
        lemma_twp_comm(g, x, y);
    }
    assert forall|x: int, y: int| 0 <= x < n && 0 <= y < n implies #[trigger] post.gp()[x][y]
        >= pre.gp()[x][y] by {
        lemma_counts_bounds(g, x, y);
    }
    assert forall|x: int, y: int| 0 <= x < n && 0 <= y < n implies #[trigger] post.tm()[x][y]
        >= pre.tm()[x][y] by {
        lemma_counts_bounds(g, x, y);
    }
}

/// Increments the two cells `m[x][y]` and `m[y][x]` of a square matrix.
fn mat_inc_sym(m: &mut Vec<Vec<u32>>, x: usize, y: usize, total_players: usize)
    requires
        matrix_wf(old(m).deep_view(), total_players as nat),
        x < total_players,
        y < total_players,
        x != y,
        old(m).deep_view()[x as int][y as int] < u32::MAX,
        old(m).deep_view()[y as int][x as int] < u32::MAX,
    ensures
        matrix_wf(final(m).deep_view(), total_players as nat),
        forall|i: int, j: int|
            0 <= i < total_players && 0 <= j < total_players ==> #[trigger] final(m).deep_view()[i][j]
                == old(m).deep_view()[i][j] + if (i == x && j == y) || (i == y && j == x) {
                    1int
                } else {
                    0int
                },
{
    let ghost pre = m.deep_view();
    let vxy = m[x][y];
    m[x][y] = vxy + 1;
    proof {
        assert(m.deep_view() =~~= pre.update(
            x as int,
            pre[x as int].update(y as int, (vxy + 1) as u32),
        ));
    }
    let ghost mid = m.deep_view();
    let vyx = m[y][x];
    m[y][x] = vyx + 1;
    proof {
        assert(m.deep_view() =~~= mid.update(
            y as int,
            mid[y as int].update(x as int, (vyx + 1) as u32),
        ));
    }
}

} // verus!
