use matchups::render::render_schedule;
use matchups::rng::RandomSource;
use matchups::schedule::{generate_schedule, used_courts};
use matchups::selector::find_best_games;
use matchups::history::new_info;

fn assert_round_players_distinct(round: &Vec<Vec<usize>>, total_players: usize, courts: usize) {
    assert_eq!(round.len(), courts);
    let mut seen = vec![false; total_players];
    for court in round.iter() {
        assert_eq!(court.len(), 4);
        for &p in court.iter() {
            assert!(p < total_players);
            assert!(!seen[p]);
            seen[p] = true;
        }
    }
    assert_eq!(seen.iter().filter(|&&s| s).count(), 4 * courts);
}

#[test]
fn every_round_uses_distinct_players() {
    for seed in 0..5u64 {
        let mut rng = RandomSource::from_seed(seed);
        let (rounds, _info) = generate_schedule(9, 2, &mut rng);
        assert_eq!(rounds.len(), 11);
        for round in rounds.iter() {
            assert_round_players_distinct(round, 9, 2);
        }
    }
}

#[test]
fn selector_round_is_valid() {
    let mut rng = RandomSource::from_seed(42);
    let info = new_info(8);
    let round = find_best_games(8, 2, &info, &mut rng);
    assert_round_players_distinct(&round, 8, 2);
}

#[test]
fn scenario_eight_players_two_courts() {
    assert_eq!(used_courts(8, 2), 2);
    for seed in 0..5u64 {
        let mut rng = RandomSource::from_seed(seed);
        let (rounds, _info) = generate_schedule(8, 2, &mut rng);
        assert_eq!(rounds[0], vec![vec![0, 1, 2, 3], vec![4, 5, 6, 7]]);
        for round in rounds.iter() {
            assert_round_players_distinct(round, 8, 2);
        }
    }
}

#[test]
fn scenario_five_players_one_court() {
    assert_eq!(used_courts(5, 1), 1);
    for seed in 0..10u64 {
        let mut rng = RandomSource::from_seed(seed);
        let (rounds, info) = generate_schedule(5, 1, &mut rng);
        assert_eq!(rounds.len(), 11);
        // exactly one player sits out each round
        for round in rounds.iter() {
            assert_round_players_distinct(round, 5, 1);
        }
        assert_eq!(info.n_wait.iter().map(|&w| w as u64).sum::<u64>(), 11);
        // correct priority sampling keeps wait counts within 1 of each other
        let lo = info.n_wait.iter().min().unwrap();
        let hi = info.n_wait.iter().max().unwrap();
        assert!(hi - lo <= 1, "wait counts drifted apart: {:?}", info.n_wait);
    }
}

#[test]
fn wait_counts_match_absences() {
    for seed in 0..5u64 {
        let mut rng = RandomSource::from_seed(seed);
        let (rounds, info) = generate_schedule(6, 1, &mut rng);
        for p in 0..6usize {
            let absences = rounds
                .iter()
                .filter(|round| !round.iter().any(|court| court.contains(&p)))
                .count();
            assert_eq!(info.n_wait[p] as usize, absences);
        }
    }
}

#[test]
fn used_courts_is_capped_both_ways() {
    assert_eq!(used_courts(8, 1), 1);
    assert_eq!(used_courts(7, 2), 1);
    assert_eq!(used_courts(16, 3), 3);
    assert_eq!(used_courts(3, 1), 0);
}

#[test]
fn artifact_has_header_and_eleven_round_lines() {
    let mut rng = RandomSource::from_seed(1);
    let (rounds, _info) = generate_schedule(8, 2, &mut rng);
    let lines = render_schedule(&rounds, 8, 2);
    assert_eq!(lines.len(), 12);
    assert_eq!(lines[0], "# Schedule for 8 players on 2 courts.");
    assert_eq!(lines[1], "Round 0,0-1 vs 2-3,4-5 vs 6-7,");
    for (i, line) in lines.iter().enumerate().skip(1) {
        assert!(line.starts_with(&format!("Round {},", i - 1)));
        // eight players on two courts: nobody waits
        assert!(!line.contains("Waiting:"));
    }
}

#[test]
fn artifact_names_waiting_players() {
    let mut rng = RandomSource::from_seed(3);
    let (rounds, _info) = generate_schedule(5, 1, &mut rng);
    let lines = render_schedule(&rounds, 5, 1);
    assert_eq!(lines.len(), 12);
    let sitter: usize = (0..5)
        .find(|p| !rounds[0].iter().any(|court| court.contains(p)))
        .unwrap();
    assert_eq!(sitter, 4);
    assert_eq!(lines[1], "Round 0,0-1 vs 2-3,Waiting: 4 ");
    for line in lines.iter().skip(1) {
        assert!(line.contains("Waiting: "));
        assert!(line.ends_with(' '));
    }
}
