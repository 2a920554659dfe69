use monty_hall::{
    check_params, eliminable_doors, parse_args, parse_count, simulate_monty_hall,
    simulate_monty_hall_once, switch_candidates, tally_results, trial_outcome, DoorRng, MontyError,
    Tally,
};
use rand::rngs::StdRng;
use rand::SeedableRng;

fn args(v: &[&str]) -> Vec<String> {
    v.iter().map(|s| s.to_string()).collect()
}

#[test]
fn counts_stay_within_trial_count() {
    let mut rng = DoorRng::new(StdRng::seed_from_u64(7));
    for &(n_door, n_leftclose) in &[(3, 2), (4, 2), (4, 3), (10, 2), (10, 5), (10, 9), (50, 20)] {
        for &n_trial in &[1usize, 2, 37, 500] {
            let t = simulate_monty_hall(n_door, n_leftclose, n_trial, &mut rng).unwrap();
            assert_eq!(t.n_trial, n_trial);
            assert!(t.stayed_hits <= n_trial);
            assert!(t.switched_hits <= n_trial);
            assert!(t.stayed_hits + t.switched_hits <= n_trial);
        }
    }
}

#[test]
fn classic_game_switching_wins_two_thirds() {
    let mut rng = DoorRng::new(StdRng::seed_from_u64(2024));
    let n_trial = 100_000;
    let t = simulate_monty_hall(3, 2, n_trial, &mut rng).unwrap();
    assert_eq!(t.stayed_hits + t.switched_hits, n_trial);
    let stay = t.stayed_hits as f64 / n_trial as f64;
    let switch = t.switched_hits as f64 / n_trial as f64;
    assert!((stay - 0.333).abs() <= 0.01, "stay rate {}", stay);
    assert!((switch - 0.667).abs() <= 0.01, "switch rate {}", switch);
}

#[test]
fn two_left_closed_exactly_one_strategy_wins() {
    let mut rng = DoorRng::new(StdRng::seed_from_u64(11));
    let n_trial = 20_000;
    let t = simulate_monty_hall(10, 2, n_trial, &mut rng).unwrap();
    assert_eq!(t.stayed_hits + t.switched_hits, n_trial);
    let switch = t.switched_hits as f64 / n_trial as f64;
    assert!((switch - 0.9).abs() <= 0.01, "switch rate {}", switch);
    for _ in 0..1000 {
        let (stayed, switched) = simulate_monty_hall_once(5, 2, &mut rng).unwrap();
        assert_ne!(stayed, switched);
    }
}

#[test]
fn host_opens_one_door_of_four() {
    // n_leftclose = n_door - 1: staying wins 1/4, switching 3/4 * 1/2.
    let mut rng = DoorRng::new(StdRng::seed_from_u64(5));
    let n_trial = 100_000;
    let t = simulate_monty_hall(4, 3, n_trial, &mut rng).unwrap();
    let stay = t.stayed_hits as f64 / n_trial as f64;
    let switch = t.switched_hits as f64 / n_trial as f64;
    assert!((stay - 0.25).abs() <= 0.01, "stay rate {}", stay);
    assert!((switch - 0.375).abs() <= 0.01, "switch rate {}", switch);
}

#[test]
fn stay_and_switch_never_both_win() {
    let mut rng = DoorRng::new(StdRng::seed_from_u64(99));
    for _ in 0..2000 {
        let (stayed, switched) = simulate_monty_hall_once(6, 4, &mut rng).unwrap();
        assert!(!(stayed && switched));
    }
}

#[test]
fn one_left_closed_is_rejected() {
    let mut rng = DoorRng::new(StdRng::seed_from_u64(1));
    for n_door in [0usize, 1, 2, 3, 10, 1000] {
        assert_eq!(check_params(n_door, 1), Err(MontyError::InvalidParameter));
        assert_eq!(
            simulate_monty_hall(n_door, 1, 10, &mut rng),
            Err(MontyError::InvalidParameter)
        );
        assert_eq!(
            simulate_monty_hall_once(n_door, 1, &mut rng),
            Err(MontyError::InvalidParameter)
        );
    }
    assert_eq!(check_params(5, 0), Err(MontyError::InvalidParameter));
}

#[test]
fn too_few_doors_are_rejected() {
    let mut rng = DoorRng::new(StdRng::seed_from_u64(1));
    assert_eq!(check_params(3, 3), Err(MontyError::InvalidParameter));
    assert_eq!(check_params(2, 2), Err(MontyError::InvalidParameter));
    assert_eq!(check_params(3, 4), Err(MontyError::InvalidParameter));
    assert_eq!(
        simulate_monty_hall(3, 3, 10, &mut rng),
        Err(MontyError::InvalidParameter)
    );
    assert_eq!(
        simulate_monty_hall_once(3, 3, &mut rng),
        Err(MontyError::InvalidParameter)
    );
    assert_eq!(check_params(3, 2), Ok(()));
    assert_eq!(check_params(4, 3), Ok(()));
}

#[test]
fn zero_trials_report_zero_counts() {
    let mut rng = DoorRng::new(StdRng::seed_from_u64(3));
    let t = simulate_monty_hall(3, 2, 0, &mut rng).unwrap();
    assert_eq!(t, Tally { stayed_hits: 0, switched_hits: 0, n_trial: 0 });
    assert_eq!(t.stayed_ratio(), None);
    assert_eq!(t.switched_ratio(), None);
}

#[test]
fn ratios_of_a_tally() {
    let t = Tally { stayed_hits: 3, switched_hits: 6, n_trial: 9 };
    assert_eq!(t.stayed_ratio(), Some((3, 9)));
    assert_eq!(t.switched_ratio(), Some((6, 9)));
}

#[test]
fn record_adds_one_trial() {
    let mut t = Tally::new();
    t.record((true, false));
    t.record((false, true));
    t.record((false, false));
    t.record((false, true));
    assert_eq!(t, Tally { stayed_hits: 1, switched_hits: 2, n_trial: 4 });
}

#[test]
fn tally_of_results() {
    let results = vec![(true, false), (false, true), (false, true), (false, false), (true, false)];
    let t = tally_results(&results);
    assert_eq!(t, Tally { stayed_hits: 2, switched_hits: 2, n_trial: 5 });
    assert_eq!(tally_results(&Vec::new()), Tally::new());
}

#[test]
fn no_arguments_give_defaults() {
    assert_eq!(parse_args(&args(&[])), Ok((3, 2, 1000)));
}

#[test]
fn three_arguments_override_defaults() {
    assert_eq!(parse_args(&args(&["5", "3", "100"])), Ok((5, 3, 100)));
    assert_eq!(parse_args(&args(&["10", "2", "0"])), Ok((10, 2, 0)));
}

#[test]
fn one_or_two_arguments_are_refused() {
    assert_eq!(parse_args(&args(&["3"])), Err(MontyError::ArgumentCountError));
    assert_eq!(parse_args(&args(&["3", "2"])), Err(MontyError::ArgumentCountError));
    assert_eq!(
        parse_args(&args(&["3", "2", "1", "0"])),
        Err(MontyError::ArgumentCountError)
    );
}

#[test]
fn non_integer_argument_is_refused() {
    assert_eq!(parse_args(&args(&["a", "2", "10"])), Err(MontyError::ArgumentParseError));
    assert_eq!(parse_args(&args(&["3", "-2", "10"])), Err(MontyError::ArgumentParseError));
    assert_eq!(parse_args(&args(&["3", "2", "1.5"])), Err(MontyError::ArgumentParseError));
}

#[test]
fn counts_parse_like_unsigned_integers() {
    assert_eq!(parse_count("0"), Some(0));
    assert_eq!(parse_count("42"), Some(42));
    assert_eq!(parse_count("+7"), Some(7));
    assert_eq!(parse_count("007"), Some(7));
    assert_eq!(parse_count(""), None);
    assert_eq!(parse_count("+"), None);
    assert_eq!(parse_count("-1"), None);
    assert_eq!(parse_count(" 1"), None);
    assert_eq!(parse_count("1x"), None);
    assert_eq!(parse_count("++1"), None);
    let max = usize::MAX.to_string();
    assert_eq!(parse_count(&max), Some(usize::MAX));
    let over = format!("{}0", usize::MAX);
    assert_eq!(parse_count(&over), None);
    for s in ["12", "+3", "x", "", "99999999999999999999999"] {
        assert_eq!(parse_count(s), s.parse::<usize>().ok(), "text {:?}", s);
    }
}

#[test]
fn openable_doors_skip_prize_and_pick() {
    assert_eq!(eliminable_doors(5, 1, 3), vec![0, 2, 4]);
    assert_eq!(eliminable_doors(3, 0, 0), vec![1, 2]);
    assert_eq!(eliminable_doors(3, 2, 0), vec![1]);
    assert_eq!(eliminable_doors(0, 0, 0), Vec::<usize>::new());
}

#[test]
fn switch_pool_adds_prize_and_drops_pick() {
    assert_eq!(switch_candidates(&vec![2, 4], 1, 3), vec![2, 4, 1]);
    assert_eq!(switch_candidates(&vec![], 1, 0), vec![1]);
}

#[test]
fn switch_pool_when_pick_is_prize() {
    // The pick is the prize: the prize is not among the switch candidates.
    assert_eq!(switch_candidates(&vec![2], 0, 0), vec![2]);
    assert_eq!(switch_candidates(&vec![4, 1, 3], 2, 2), vec![4, 1, 3]);
}

#[test]
fn outcome_scores_both_strategies() {
    assert_eq!(trial_outcome(1, 1, 2), (true, false));
    assert_eq!(trial_outcome(1, 0, 1), (false, true));
    assert_eq!(trial_outcome(2, 0, 1), (false, false));
}
