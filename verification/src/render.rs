//! Rendering of a schedule as its line-oriented text artifact: one header
//! line, then one line per round.

use vstd::prelude::*;
use vstd::string::StringExecFns;
use crate::round::{in_court, in_round, vec_contains};

verus! {

/// The decimal digit character of `d`.
pub open spec fn digit_char(d: nat) -> char {
    if d == 0 {
        '0'
    } else if d == 1 {
        '1'
    } else if d == 2 {
        '2'
    } else if d == 3 {
        '3'
    } else if d == 4 {
        '4'
    } else if d == 5 {
        '5'
    } else if d == 6 {
        '6'
    } else if d == 7 {
        '7'
    } else if d == 8 {
        '8'
    } else {
        '9'
    }
}

/// The decimal rendering of `n`, most significant digit first.
pub open spec fn dec_rep(n: nat) -> Seq<char>
    decreases n,
{
    if n < 10 {
        seq![digit_char(n)]
    } else {
        dec_rep(n / 10).push(digit_char(n % 10))
    }
}

/// A decimal rendering holds at least one digit.
pub proof fn lemma_dec_rep_len(n: nat)
    ensures
        dec_rep(n).len() >= 1,
    decreases n,
{
    if n >= 10 {
        lemma_dec_rep_len(n / 10);
    }
}

/// The one-character string of a decimal digit.
fn digit_str(d: usize) -> (r: &'static str)
    requires
        d < 10,
    ensures
        r@ == seq![digit_char(d as nat)],
{
    let s: &'static str = match d {
        0 => "0",
        1 => "1",
        2 => "2",
        3 => "3",
        4 => "4",
        5 => "5",
        6 => "6",
        7 => "7",
        8 => "8",
        _ => "9",
    };
    proof {
        reveal_strlit("0");
        reveal_strlit("1");
        reveal_strlit("2");
        reveal_strlit("3");
        reveal_strlit("4");
        reveal_strlit("5");
        reveal_strlit("6");
        reveal_strlit("7");
        reveal_strlit("8");
        reveal_strlit("9");
        assert(s@ =~= seq![digit_char(d as nat)]);
    }
    s
}

/// Appends the decimal rendering of `n`.
fn push_number(s: &mut String, n: usize)
    ensures
        final(s)@ == old(s)@ + dec_rep(n as nat),
    decreases n,
{
    if n >= 10 {
        push_number(s, n / 10);
        s.append(digit_str(n % 10));
        proof {
            assert(s@ =~= old(s)@ + dec_rep(n as nat));
        }
    } else {
        s.append(digit_str(n));
        proof {
            assert(s@ =~= old(s)@ + dec_rep(n as nat));
        }
    }
}

/// The text of one court: `p0-p1 vs p2-p3,`.
pub open spec fn court_frag(c: Seq<usize>) -> Seq<char> {
    dec_rep(c[0] as nat) + "-"@ + dec_rep(c[1] as nat) + " vs "@ + dec_rep(c[2] as nat) + "-"@
        + dec_rep(c[3] as nat) + ","@
}

/// The texts of all courts of a round, in order.
pub open spec fn courts_frag(g: Seq<Seq<usize>>) -> Seq<char>
    decreases g.len(),
{
    if g.len() == 0 {
        Seq::empty()
    } else {
        courts_frag(g.drop_last()) + court_frag(g.last())
    }
}

/// The space-terminated identifiers of the players below `upto` who sit out
/// of the round `g`, in ascending order.
pub open spec fn waiting_frag(g: Seq<Seq<usize>>, upto: nat) -> Seq<char>
    decreases upto,
{
    if upto == 0 {
        Seq::empty()
    } else {
        waiting_frag(g, (upto - 1) as nat) + if in_round(g, upto - 1) {
            Seq::<char>::empty()
        } else {
            dec_rep((upto - 1) as nat) + " "@
        }
    }
}

/// One round's line: `Round <index>,` then every court, then the waiting
/// players when any player waits.
pub open spec fn round_line(idx: nat, g: Seq<Seq<usize>>, total_players: nat) -> Seq<char> {
    let head = "Round "@ + dec_rep(idx) + ","@ + courts_frag(g);
    let w = waiting_frag(g, total_players);
    if w.len() == 0 {
        head
    } else {
        head + "Waiting: "@ + w
    }
}

/// The header line naming the player and court counts.
pub open spec fn header_line(total_players: nat, court_number: nat) -> Seq<char> {
    "# Schedule for "@ + dec_rep(total_players) + " players on "@ + dec_rep(court_number)
        + " courts."@
}

/// Whether the player `p` takes part in the round.
fn round_has(g: &Vec<Vec<usize>>, p: usize) -> (b: bool)
    ensures
        b == in_round(g.deep_view(), p as int),
{
    let ghost dv = g.deep_view();
    let mut c: usize = 0;
    while c < g.len()
        invariant
            c <= g@.len(),
            dv == g.deep_view(),
            forall|k: int| 0 <= k < c ==> !in_court(#[trigger] dv[k], p as int),
        decreases g@.len() - c,
    {
        let court = &g[c];
        proof {
            assert(dv[c as int] =~= court@);
        }
        if vec_contains(court, p) {
            proof {
                assert(in_court(dv[c as int], p as int));
            }
            return true;
        }
        c = c + 1;
    }
    proof {
        if in_round(dv, p as int) {
            let k = choose|k: int| 0 <= k < dv.len() && in_court(#[trigger] dv[k], p as int);
        }
    }
    false
}

/// Renders one round's line.
pub fn render_round_line(index: usize, games: &Vec<Vec<usize>>, total_players: usize) -> (s:
    String)
    requires
        forall|k: int|
            0 <= k < games.deep_view().len() ==> (#[trigger] games.deep_view()[k]).len() == 4,
    ensures
        s@ == round_line(index as nat, games.deep_view(), total_players as nat),
{
    let ghost dv = games.deep_view();
    let mut s = String::new();
    s.append("Round ");
    push_number(&mut s, index);
    s.append(",");
    let ghost head0 = "Round "@ + dec_rep(index as nat) + ","@;
    proof {
        assert(s@ =~= head0);
    }
    let mut c: usize = 0;
    while c < games.len()
        invariant
            c <= games@.len(),
            dv == games.deep_view(),
            forall|k: int| 0 <= k < dv.len() ==> (#[trigger] dv[k]).len() == 4,
            head0 == "Round "@ + dec_rep(index as nat) + ","@,
            s@ == head0 + courts_frag(dv.take(c as int)),
        decreases games@.len() - c,
    {
        let court = &games[c];
        proof {
            assert(dv[c as int] =~= court@);
        }
        push_number(&mut s, court[0]);
        s.append("-");
        push_number(&mut s, court[1]);
        s.append(" vs ");
        push_number(&mut s, court[2]);
        s.append("-");
        push_number(&mut s, court[3]);
        s.append(",");
        proof {
            assert(dv.take(c as int + 1).drop_last() =~= dv.take(c as int));
            assert(dv.take(c as int + 1).last() == dv[c as int]);
            assert(s@ =~= head0 + courts_frag(dv.take(c as int + 1)));
        }
        c = c + 1;
    }
    proof {
        assert(dv.take(games@.len() as int) =~= dv);
    }
    let mut w = String::new();
    let mut any_waiting = false;
    let mut p: usize = 0;
    while p < total_players
        invariant
            p <= total_players,
            dv == games.deep_view(),
            w@ == waiting_frag(dv, p as nat),
            any_waiting <==> w@.len() > 0,
        decreases total_players - p,
    {
        if !round_has(games, p) {
            push_number(&mut w, p);
            w.append(" ");
            any_waiting = true;
            proof {
                lemma_dec_rep_len(p as nat);
                assert(w@ =~= waiting_frag(dv, p as nat) + (dec_rep(p as nat) + " "@));
            }
        }
        p = p + 1;
    }
    if any_waiting {
        s.append("Waiting: ");
        s.append(w.as_str());
    }
    proof {
        assert(s@ =~= round_line(index as nat, dv, total_players as nat));
    }
    s
}

/// Renders the header line.
pub fn render_header(total_players: usize, court_number: usize) -> (s: String)
    ensures
        s@ == header_line(total_players as nat, court_number as nat),
{
    let mut s = String::new();
    s.append("# Schedule for ");
    push_number(&mut s, total_players);
    s.append(" players on ");
    push_number(&mut s, court_number);
    s.append(" courts.");
    proof {
        assert(s@ =~= header_line(total_players as nat, court_number as nat));
    }
    s
}

/// Renders the whole artifact: one header line, then one line per round, in
/// round order.
pub fn render_schedule(
    rounds: &Vec<Vec<Vec<usize>>>,
    total_players: usize,
    court_number: usize,
) -> (r: Vec<String>)
    requires
        forall|t: int, k: int|
            0 <= t < rounds.deep_view().len() && 0 <= k < rounds.deep_view()[t].len()
                ==> (#[trigger] rounds.deep_view()[t][k]).len() == 4,
    ensures
        r@.len() == rounds@.len() + 1,
        r@[0]@ == header_line(total_players as nat, court_number as nat),
        forall|t: int|
            1 <= t < r@.len() ==> (#[trigger] r@[t])@ == round_line(
                (t - 1) as nat,
                rounds.deep_view()[t - 1],
                total_players as nat,
            ),
{
    let mut r: Vec<String> = Vec::new();
    r.push(render_header(total_players, court_number));
    let mut t: usize = 0;
    while t < rounds.len()
        invariant
            t <= rounds@.len(),
            forall|tt: int, k: int|
                0 <= tt < rounds.deep_view().len() && 0 <= k < rounds.deep_view()[tt].len()
                    ==> (#[trigger] rounds.deep_view()[tt][k]).len() == 4,
            r@.len() == t + 1,
            r@[0]@ == header_line(total_players as nat, court_number as nat),
            forall|tt: int|
                1 <= tt < r@.len() ==> (#[trigger] r@[tt])@ == round_line(
                    (tt - 1) as nat,
                    rounds.deep_view()[tt - 1],
                    total_players as nat,
                ),
        decreases rounds@.len() - t,
    {
        let games = &rounds[t];
        proof {
            assert(games.deep_view() =~~= rounds.deep_view()[t as int]);
        }
        let line = render_round_line(t, games, total_players);
        r.push(line);
        t = t + 1;
    }
    r
}

} // verus!
