use champ_select::choose_champions::ChooseAndRemoveManager;
use champ_select::errors::{RepairOutcome, SelectError};
use champ_select::pool::CandidatePool;
use champ_select::rng::RandomSource;

fn s(x: &str) -> String {
    x.to_string()
}

fn pool_from(entries: &[(&str, &[&str])]) -> CandidatePool {
    let mut pool = CandidatePool::new();
    for (player, items) in entries {
        let items: Vec<String> = items.iter().map(|i| s(i)).collect();
        pool.insert_many(&s(player), &items);
    }
    pool
}

fn team(names: &[&str]) -> Vec<String> {
    names.iter().map(|n| s(n)).collect()
}

#[test]
fn starvation_is_surfaced() {
    // pool = {A: [x, y], B: [x], C: [y, z]}, teams {A, B} vs {C}, jungle {z};
    // with every draw forced to the first option, A takes x, which empties
    // B's list: the run must fail, not skip B.
    let pool = pool_from(&[("A", &["x", "y"]), ("B", &["x"]), ("C", &["y", "z"])]);
    let mut manager = ChooseAndRemoveManager::new(pool, team(&["A", "B"]), team(&["C"]), team(&["z"]));
    let mut src = RandomSource::from_words(vec![0]);
    let r = manager.select_champs_with_removal_from(&mut src);
    assert!(matches!(r, Err(SelectError::EmptyCandidateSet)));
}

#[test]
fn unknown_player_is_surfaced() {
    // B is on the roster but was never given a pool entry.
    let pool = pool_from(&[("A", &["x", "y"])]);
    let mut manager = ChooseAndRemoveManager::new(pool, team(&["A", "B"]), team(&[]), team(&[]));
    let mut src = RandomSource::from_words(vec![0]);
    let r = manager.select_champs_with_removal_from(&mut src);
    assert!(matches!(r, Err(SelectError::UnknownPlayer)));
}

#[test]
fn repair_takes_the_only_candidate() {
    // After first-choice picks P1 holds Ashe and P2 holds Garen; P1's
    // leftover list holds Lee Sin, P2's is empty.  Whatever the shuffle,
    // repair must hand P1 Lee Sin and leave P2 alone.
    // The first word is even in each tape, so P1's own pick stays Ashe and
    // only the repair shuffle differs.
    for tape in [vec![0], vec![2, 3, 5, 7], vec![4, 9, 1]] {
        let pool = pool_from(&[("P1", &["Ashe", "Lee Sin"]), ("P2", &["Garen"])]);
        let mut manager =
            ChooseAndRemoveManager::new(pool, team(&["P1", "P2"]), team(&[]), team(&["Lee Sin"]));
        let mut src = RandomSource::from_words(tape);
        let (asg, o1, _o2) = manager.select_champs_with_removal_from(&mut src).unwrap();
        assert_eq!(asg.get(&s("P1")), Some(s("Lee Sin")));
        assert_eq!(asg.get(&s("P2")), Some(s("Garen")));
        assert_eq!(o1, RepairOutcome::Repaired);
    }
}

#[test]
fn repair_leaves_satisfied_team_alone() {
    // P1's first pick is already jungle-capable: nothing may change.
    let pool = pool_from(&[("P1", &["Jax", "Other"]), ("P2", &["Garen", "Jax"])]);
    let mut manager =
        ChooseAndRemoveManager::new(pool, team(&["P1", "P2"]), team(&[]), team(&["Jax"]));
    let mut src = RandomSource::from_words(vec![0]);
    let (asg, o1, _o2) = manager.select_champs_with_removal_from(&mut src).unwrap();
    assert_eq!(o1, RepairOutcome::Satisfied);
    assert_eq!(asg.get(&s("P1")), Some(s("Jax")));
    assert_eq!(asg.get(&s("P2")), Some(s("Garen")));
}

#[test]
fn unrepairable_team_is_left_without_jungle() {
    // No jungle-capable champion anywhere: the outcome is reported, the
    // assignment stands.
    let pool = pool_from(&[("P1", &["Ashe"]), ("P2", &["Garen"])]);
    let mut manager =
        ChooseAndRemoveManager::new(pool, team(&["P1", "P2"]), team(&[]), team(&["Lee Sin"]));
    let mut src = RandomSource::from_words(vec![0]);
    let (asg, o1, _o2) = manager.select_champs_with_removal_from(&mut src).unwrap();
    assert_eq!(o1, RepairOutcome::Unrepairable);
    assert_eq!(asg.get(&s("P1")), Some(s("Ashe")));
    assert_eq!(asg.get(&s("P2")), Some(s("Garen")));
}

#[test]
fn full_run_assigns_every_player_a_distinct_champion() {
    // A 5-a-side run over a rich pool: everyone is covered, and since at
    // most one team is repaired here, no champion repeats.
    let champs: Vec<&str> = vec!["c1", "c2", "c3", "c4", "c5", "c6", "c7", "c8", "c9", "c10", "j1"];
    let players = ["a1", "a2", "a3", "a4", "a5", "b1", "b2", "b3", "b4", "b5"];
    let mut entries: Vec<(&str, &[&str])> = Vec::new();
    for p in &players {
        entries.push((*p, &champs[..]));
    }
    let pool = pool_from(&entries);
    let mut manager = ChooseAndRemoveManager::new(
        pool,
        team(&["a1", "a2", "a3", "a4", "a5"]),
        team(&["b1", "b2", "b3", "b4", "b5"]),
        team(&["j1"]),
    );
    let mut src = RandomSource::from_words(vec![7, 3, 9, 1, 12, 5, 2, 8, 4, 6, 11, 13, 0]);
    let (asg, o1, o2) = manager.select_champs_with_removal_from(&mut src).unwrap();
    let mut seen: Vec<String> = Vec::new();
    for p in &players {
        let c = asg.get(&s(p)).expect("every roster player is assigned");
        seen.push(c);
    }
    if !(o1 == RepairOutcome::Repaired && o2 == RepairOutcome::Repaired) {
        for i in 0..seen.len() {
            for j in 0..i {
                assert_ne!(seen[i], seen[j], "champion assigned twice");
            }
        }
    }
}

#[test]
fn fixed_tape_makes_runs_identical() {
    // Two managers built from the same data and driven by the same word
    // tape give the same assignment and outcomes.
    let build = || {
        pool_from(&[
            ("A", &["x", "y", "z"][..]),
            ("B", &["x", "y", "z"]),
            ("C", &["x", "y", "z", "w"]),
        ])
    };
    let mk = |pool| ChooseAndRemoveManager::new(pool, team(&["A", "B"]), team(&["C"]), team(&["z"]));
    let mut m1 = mk(build());
    let mut m2 = mk(build());
    let mut s1 = RandomSource::from_words(vec![42, 7, 19, 3, 88]);
    let mut s2 = RandomSource::from_words(vec![42, 7, 19, 3, 88]);
    let r1 = m1.select_champs_with_removal_from(&mut s1).unwrap();
    let r2 = m2.select_champs_with_removal_from(&mut s2).unwrap();
    for p in ["A", "B", "C"] {
        assert_eq!(r1.0.get(&s(p)), r2.0.get(&s(p)));
    }
    assert_eq!(r1.1, r2.1);
    assert_eq!(r1.2, r2.2);
}

#[test]
fn fresh_randomness_still_covers_everyone() {
    // The thread-randomness entry point: same guarantees, unknown draws.
    let pool = pool_from(&[
        ("A", &["x", "y", "z"][..]),
        ("B", &["x", "y", "z"]),
        ("C", &["x", "y", "z", "w"]),
    ]);
    let mut manager =
        ChooseAndRemoveManager::new(pool, team(&["A", "B"]), team(&["C"]), team(&["w"]));
    let (asg, _o1, _o2) = manager.select_champs_with_removal().unwrap();
    for p in ["A", "B", "C"] {
        assert!(asg.get(&s(p)).is_some());
    }
}

#[test]
fn empty_jungle_set_never_errors() {
    // With no jungle-capable champion defined, every team ends
    // unrepairable, but the run itself succeeds.
    let pool = pool_from(&[("A", &["x", "y"]), ("B", &["y", "x"])]);
    let mut manager = ChooseAndRemoveManager::new(pool, team(&["A"]), team(&["B"]), team(&[]));
    let mut src = RandomSource::from_words(vec![0]);
    let (asg, o1, o2) = manager.select_champs_with_removal_from(&mut src).unwrap();
    assert_eq!(o1, RepairOutcome::Unrepairable);
    assert_eq!(o2, RepairOutcome::Unrepairable);
    assert_eq!(asg.get(&s("A")), Some(s("x")));
    assert_eq!(asg.get(&s("B")), Some(s("y")));
}

#[test]
fn duplicate_items_in_one_list_weight_the_draw() {
    // A list may repeat an item; indices 0 and 1 of A's list are both x, so
    // a draw of either gives x, and every copy is consumed at once.
    let pool = pool_from(&[("A", &["x", "x", "y"]), ("B", &["x", "y"])]);
    let mut manager = ChooseAndRemoveManager::new(pool, team(&["A", "B"]), team(&[]), team(&[]));
    let mut src = RandomSource::from_words(vec![1, 0]);
    let (asg, _o1, _o2) = manager.select_champs_with_removal_from(&mut src).unwrap();
    assert_eq!(asg.get(&s("A")), Some(s("x")));
    assert_eq!(asg.get(&s("B")), Some(s("y")));
}

#[test]
fn team_has_jg_reads_the_assignment() {
    let pool = pool_from(&[("P1", &["Jax"]), ("P2", &["Garen"])]);
    let mut manager =
        ChooseAndRemoveManager::new(pool, team(&["P1", "P2"]), team(&[]), team(&["Jax"]));
    let mut src = RandomSource::from_words(vec![0]);
    let (asg, _o1, _o2) = manager.select_champs_with_removal_from(&mut src).unwrap();
    assert!(manager.team_has_jg(&team(&["P1", "P2"]), &asg));
    assert!(!manager.team_has_jg(&team(&["P2"]), &asg));
}
