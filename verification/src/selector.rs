//! Selection of one round: enumerate the candidates for a sampled cohort,
//! score each against the history, and keep a minimal-cost one with random
//! tie-breaking.

use vstd::prelude::*;
use crate::cost::cost_function;
use crate::enumerate::{
    enumerate_all_games, enumerate_partitions, copy_round, is_partition_of, is_team_variant,
    lemma_partition_round_valid, lemma_variant_valid,
};
use crate::history::CumulativeGamesInfo;
use crate::rng::RandomSource;
use crate::round::{default_round, is_default_round, lemma_default_round_valid, valid_round};
use crate::sampler::{sample_waiting_players, valid_cohort};

verus! {

/// The round `g` is a candidate for the cohort: a team split of some
/// anchored partition of the cohort into courts of four.
pub open spec fn candidate_for(g: Seq<Seq<usize>>, cohort: Seq<usize>, used_courts: nat) -> bool {
    exists|pd: Seq<Seq<usize>>|
        #[trigger] is_partition_of(pd, cohort, used_courts) && is_team_variant(g, pd)
}

/// Picks the round to play: samples the cohort, enumerates every anchored
/// partition and every team split of it, scores each candidate, and keeps a
/// minimal-cost one, breaking exact cost ties by a coin flip biased toward
/// later candidates. When the enumeration yields nothing the ascending
/// default round stands.
pub fn find_best_games(
    total_players: usize,
    used_courts: usize,
    info: &CumulativeGamesInfo,
    rng: &mut RandomSource,
) -> (r: Vec<Vec<usize>>)
    requires
        info.wf(total_players as nat),
        total_players >= 1,
        4 * used_courts <= total_players,
    ensures
        r.deep_view().len() == used_courts,
        valid_round(r.deep_view(), total_players as nat),
        exists|cohort: Seq<usize>|
            #![trigger valid_cohort(info.n_wait@, cohort, (4 * used_courts) as nat, total_players as nat)]
            valid_cohort(info.n_wait@, cohort, (4 * used_courts) as nat, total_players as nat)
                && (is_default_round(r.deep_view(), used_courts as nat) || candidate_for(
                r.deep_view(),
                cohort,
                used_courts as nat,
            )),
{
    let ghost n = total_players as nat;
    let ghost uc = used_courts as nat;
    let n_playing = 4 * used_courts;
    let mut best = default_round(used_courts);
    proof {
        lemma_default_round_valid(best.deep_view(), uc, n);
    }
    let mut have_cost = false;
    let mut best_cost: u128 = 0;
    let players = sample_waiting_players(total_players, n_playing, &info.n_wait, rng);
    let ghost cohort = players@;
    let partitions = enumerate_partitions(&players, used_courts);
    let mut pi: usize = 0;
    while pi < partitions.len()
        invariant
            pi <= partitions@.len(),
            n == total_players as nat,
            uc == used_courts as nat,
            info.wf(n),
            valid_cohort(info.n_wait@, cohort, (4 * used_courts) as nat, n),
            forall|i: int| 0 <= i < cohort.len() ==> (#[trigger] cohort[i]) < total_players,
            forall|t: int|
                0 <= t < partitions@.len() ==> is_partition_of(
                    (#[trigger] partitions@[t]).deep_view(),
                    cohort,
                    uc,
                ),
            best.deep_view().len() == used_courts,
            valid_round(best.deep_view(), n),
            is_default_round(best.deep_view(), uc) || candidate_for(best.deep_view(), cohort, uc),
        decreases partitions@.len() - pi,
    {
        let part = &partitions[pi];
        let ghost pd = part.deep_view();
        proof {
            assert(is_partition_of(pd, cohort, uc));
            assert forall|k: int| 0 <= k < pd.len() implies ((#[trigger] pd[k])[1] != pd[k][2]
                && pd[k][1] != pd[k][3] && pd[k][2] != pd[k][3]) by {}
        }
        let variants = enumerate_all_games(part);
        let mut vi: usize = 0;
        while vi < variants.len()
            invariant
                vi <= variants@.len(),
                n == total_players as nat,
                uc == used_courts as nat,
                info.wf(n),
                valid_cohort(info.n_wait@, cohort, (4 * used_courts) as nat, n),
                forall|i: int| 0 <= i < cohort.len() ==> (#[trigger] cohort[i]) < total_players,
                is_partition_of(pd, cohort, uc),
                forall|t: int|
                    0 <= t < variants@.len() ==> is_team_variant(
                        (#[trigger] variants@[t]).deep_view(),
                        pd,
                    ),
                best.deep_view().len() == used_courts,
                valid_round(best.deep_view(), n),
                is_default_round(best.deep_view(), uc) || candidate_for(
                    best.deep_view(),
                    cohort,
                    uc,
                ),
            decreases variants@.len() - vi,
        {
            let cand = &variants[vi];
            let ghost cd = cand.deep_view();
            proof {
                assert(is_team_variant(cd, pd));
                lemma_partition_round_valid(pd, cohort, uc, n);
                lemma_variant_valid(cd, pd, n);
            }
            let cost = cost_function(cand, info, total_players);
            let take = if !have_cost {
                true
            } else if cost < best_cost {
                true
            } else if cost == best_cost {
                rng.coin_flip()
            } else {
                false
            };
            if take {
                have_cost = true;
                best_cost = cost;
                best = copy_round(cand);
                proof {
                    assert(candidate_for(best.deep_view(), cohort, uc));
                }
            }
            vi = vi + 1;
        }
        pi = pi + 1;
    }
    best
}

} // verus!
