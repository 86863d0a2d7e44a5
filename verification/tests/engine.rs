use matchups::cost::cost_function;
use matchups::enumerate::{enumerate_all_games, enumerate_partitions};
use matchups::history::{new_info, update_games_info};
use matchups::rng::RandomSource;
use matchups::sampler::sample_waiting_players;

#[test]
fn partitions_of_one_court() {
    let players: Vec<usize> = vec![2, 5, 7, 9];
    let parts = enumerate_partitions(&players, 1);
    assert_eq!(parts.len(), 1);
    assert_eq!(parts[0], vec![vec![2, 5, 7, 9]]);
}

#[test]
fn partitions_of_two_courts_are_each_distinct() {
    // 8 players over 2 courts: the anchor fixes player 0 in the first
    // group, so there are C(7,3) = 35 partitions, each exactly once.
    let players: Vec<usize> = (0..8).collect();
    let parts = enumerate_partitions(&players, 2);
    assert_eq!(parts.len(), 35);
    for (a, pa) in parts.iter().enumerate() {
        assert_eq!(pa.len(), 2);
        // first group anchored at the minimum player
        assert_eq!(pa[0][0], 0);
        // the two groups cover all eight players exactly
        let mut seen = vec![false; 8];
        for g in pa.iter() {
            assert_eq!(g.len(), 4);
            for &p in g.iter() {
                assert!(!seen[p]);
                seen[p] = true;
            }
        }
        assert!(seen.iter().all(|&s| s));
        for (b, pb) in parts.iter().enumerate() {
            if a != b {
                assert_ne!(pa, pb);
            }
        }
    }
}

#[test]
fn partitions_of_degenerate_input_are_empty() {
    let players: Vec<usize> = vec![0, 1, 2];
    let parts = enumerate_partitions(&players, 1);
    assert_eq!(parts.len(), 0);
}

#[test]
fn team_variants_of_one_court() {
    let courts = vec![vec![0, 1, 2, 3]];
    let games = enumerate_all_games(&courts);
    assert_eq!(games.len(), 3);
    assert!(games.contains(&vec![vec![0, 1, 2, 3]]));
    assert!(games.contains(&vec![vec![0, 2, 1, 3]]));
    assert!(games.contains(&vec![vec![0, 3, 1, 2]]));
}

#[test]
fn team_variants_count_is_three_to_the_courts() {
    let courts = vec![vec![0, 1, 2, 3], vec![4, 5, 6, 7]];
    let games = enumerate_all_games(&courts);
    assert_eq!(games.len(), 9);
    let courts3 = vec![vec![0, 1, 2, 3], vec![4, 5, 6, 7], vec![8, 9, 10, 11]];
    let games3 = enumerate_all_games(&courts3);
    assert_eq!(games3.len(), 27);
}

#[test]
fn cost_of_exact_repeat_round() {
    // after one round [0,1,2,3], replaying it costs
    // 2*(1+1) teammates + 2*12 pairs + 16*12 previous-round repeats = 220
    let mut info = new_info(4);
    let round = vec![vec![0, 1, 2, 3]];
    update_games_info(&round, &mut info, 4);
    let c = cost_function(&round, &info, 4);
    assert_eq!(c, 220u128);
    // the alternative splits repay the same pair penalties but fresh teams
    let other = vec![vec![0, 2, 1, 3]];
    let c2 = cost_function(&other, &info, 4);
    assert_eq!(c2, 216u128);
}

#[test]
fn cost_is_deterministic_across_calls() {
    let mut info = new_info(8);
    update_games_info(&vec![vec![0, 1, 2, 3], vec![4, 5, 6, 7]], &mut info, 8);
    let round = vec![vec![0, 4, 1, 5], vec![2, 6, 3, 7]];
    let first = cost_function(&round, &info, 8);
    for _ in 0..5 {
        assert_eq!(cost_function(&round, &info, 8), first);
    }
}

#[test]
fn update_keeps_matrices_symmetric_and_growing() {
    let mut info = new_info(8);
    let rounds = vec![
        vec![vec![0, 1, 2, 3], vec![4, 5, 6, 7]],
        vec![vec![0, 4, 1, 5], vec![2, 6, 3, 7]],
        vec![vec![0, 2, 4, 6], vec![1, 3, 5, 7]],
    ];
    let mut prev_gp = vec![vec![0u32; 8]; 8];
    let mut prev_tm = vec![vec![0u32; 8]; 8];
    for r in rounds.iter() {
        update_games_info(r, &mut info, 8);
        for x in 0..8 {
            for y in 0..8 {
                assert_eq!(info.games_played[x][y], info.games_played[y][x]);
                assert_eq!(info.all_teammates[x][y], info.all_teammates[y][x]);
                assert!(info.games_played[x][y] >= prev_gp[x][y]);
                assert!(info.all_teammates[x][y] >= prev_tm[x][y]);
            }
        }
        prev_gp = info.games_played.clone();
        prev_tm = info.all_teammates.clone();
    }
}

#[test]
fn update_counts_pairs_teams_and_waits() {
    let mut info = new_info(5);
    update_games_info(&vec![vec![0, 1, 2, 3]], &mut info, 5);
    assert_eq!(info.games_played[0][1], 1);
    assert_eq!(info.games_played[1][0], 1);
    assert_eq!(info.games_played[0][4], 0);
    assert_eq!(info.all_teammates[0][1], 1);
    assert_eq!(info.all_teammates[0][2], 0);
    assert_eq!(info.all_teammates[2][3], 1);
    assert_eq!(info.n_wait, vec![0, 0, 0, 0, 1]);
    assert_eq!(info.previous_game, Some(vec![vec![0, 1, 2, 3]]));
}

#[test]
fn sampler_returns_exact_priority_cohort() {
    let mut rng = RandomSource::from_seed(7);
    // players 0 and 4 have waited more than the minimum; with two more
    // needed they must both play
    let waits: Vec<u32> = vec![1, 0, 0, 0, 1];
    for seed in 0..20u64 {
        let mut r = RandomSource::from_seed(seed);
        let cohort = sample_waiting_players(5, 4, &waits, &mut r);
        assert_eq!(cohort.len(), 4);
        assert!(cohort.windows(2).all(|w| w[0] < w[1]));
        assert!(cohort.contains(&0));
        assert!(cohort.contains(&4));
        assert!(cohort.iter().all(|&p| p < 5));
    }
    // exactly four priority players: the cohort is exactly them
    let waits2: Vec<u32> = vec![2, 0, 1, 1, 3];
    let cohort2 = sample_waiting_players(5, 4, &waits2, &mut rng);
    assert_eq!(cohort2, vec![0, 2, 3, 4]);
}

#[test]
fn sampler_uniform_when_priority_exceeds_demand() {
    // five players above the minimum but only four places: any four
    // distinct in-range players may come back
    let waits: Vec<u32> = vec![1, 1, 1, 1, 1, 0];
    for seed in 0..20u64 {
        let mut r = RandomSource::from_seed(seed);
        let cohort = sample_waiting_players(6, 4, &waits, &mut r);
        assert_eq!(cohort.len(), 4);
        assert!(cohort.windows(2).all(|w| w[0] < w[1]));
        assert!(cohort.iter().all(|&p| p < 6));
    }
}
