use santa_vis::puzzle::{Env, LoadError};
use santa_vis::solution::{Agent, SolutionError};

// labels A, B, C as 0, 1, 2
fn cycle_env(target: Vec<usize>, w: usize) -> Env {
    Env::new(
        3,
        1,
        w,
        "cycle".to_string(),
        vec!["r".to_string()],
        target,
        vec![0, 1, 2],
        vec![vec![1, 2, 0]],
    )
    .unwrap()
}

fn final_labels(e: &Env, a: &Agent) -> Vec<usize> {
    let mut state = e.initial_state.clone();
    for &(id, power) in &a.moves {
        e.allowed_moves[id].apply_inplace(&mut state, power);
    }
    state
}

#[test]
fn single_move_and_its_inverse() {
    let e = cycle_env(vec![2, 0, 1], 0);
    let fwd = Agent::new(&e, "r").unwrap();
    assert_eq!(fwd.moves, vec![(0, 1)]);
    assert_eq!(final_labels(&e, &fwd), vec![1, 2, 0]);
    assert_eq!(fwd.wrong_facelets(&e), 3);
    assert!(!fwd.validate(&e));

    let inv = Agent::new(&e, "-r").unwrap();
    assert_eq!(inv.moves, vec![(0, -1)]);
    assert_eq!(final_labels(&e, &inv), vec![2, 0, 1]);
    assert_eq!(inv.wrong_facelets(&e), 0);
    assert!(inv.validate(&e));
    assert_eq!(inv.compute_score(), 1);
}

#[test]
fn repeated_move_equals_power_two() {
    let e = cycle_env(vec![2, 0, 1], 0);
    let twice = Agent::new(&e, "r.r").unwrap();
    assert_eq!(twice.moves, vec![(0, 1), (0, 1)]);
    let after = final_labels(&e, &twice);
    assert_eq!(after, e.allowed_moves[0].apply(&e.initial_state, 2));
    assert_eq!(after, vec![2, 0, 1]);
    assert!(twice.validate(&e));
    assert_eq!(twice.compute_score(), 2);
}

#[test]
fn threshold_is_inclusive() {
    // "r" leaves [1, 2, 0]; this target differs from it in exactly two places
    let target = vec![1, 0, 2];
    let a = Agent::new(&cycle_env(target.clone(), 2), "r").unwrap();
    assert_eq!(a.wrong_facelets(&cycle_env(target.clone(), 2)), 2);
    assert!(a.validate(&cycle_env(target.clone(), 2)));
    assert!(!a.validate(&cycle_env(target, 1)));
}

#[test]
fn text_is_trimmed_first() {
    let e = cycle_env(vec![2, 0, 1], 0);
    let a = Agent::new(&e, "  -r.r.-r\n").unwrap();
    assert_eq!(a.moves, vec![(0, -1), (0, 1), (0, -1)]);
    assert!(a.validate(&e));
    assert_eq!(a.compute_score(), 3);
}

#[test]
fn from_text_does_not_trim() {
    let e = cycle_env(vec![2, 0, 1], 0);
    assert_eq!(
        Agent::from_text(&e, "r\n").err(),
        Some(SolutionError::UnknownMove(vec!['r', '\n']))
    );
}

#[test]
fn unknown_move_is_reported() {
    let e = cycle_env(vec![2, 0, 1], 0);
    assert_eq!(
        Agent::new(&e, "r.-q.x").err(),
        Some(SolutionError::UnknownMove(vec!['q']))
    );
    assert_eq!(Agent::new(&e, "r..r").err(), Some(SolutionError::UnknownMove(vec![])));
    assert_eq!(Agent::new(&e, "").err(), Some(SolutionError::UnknownMove(vec![])));
}

#[test]
fn several_moves_by_name() {
    let e = Env::new(
        4,
        2,
        0,
        "pair".to_string(),
        vec!["a".to_string(), "bb".to_string()],
        vec![0, 1, 2, 3],
        vec![1, 0, 3, 2],
        vec![vec![1, 0, 2, 3], vec![0, 1, 3, 2]],
    )
    .unwrap();
    let a = Agent::new(&e, "bb.-a").unwrap();
    assert_eq!(a.moves, vec![(1, 1), (0, -1)]);
    assert!(a.validate(&e));
    let b = Agent::new(&e, "a").unwrap();
    assert_eq!(b.wrong_facelets(&e), 2);
    assert!(!b.validate(&e));
}

#[test]
fn load_errors() {
    let bad_len = Env::new(
        3,
        1,
        0,
        "t".to_string(),
        vec!["r".to_string()],
        vec![0, 1],
        vec![0, 1, 2],
        vec![vec![1, 2, 0]],
    );
    assert_eq!(bad_len.err(), Some(LoadError::BadLength));
    let bad_move = Env::new(
        3,
        2,
        0,
        "t".to_string(),
        vec!["r".to_string(), "s".to_string()],
        vec![0, 1, 2],
        vec![0, 1, 2],
        vec![vec![1, 2, 0], vec![1, 1, 0]],
    );
    assert_eq!(bad_move.err(), Some(LoadError::BadMove(1)));
    let short_move = Env::new(
        3,
        1,
        0,
        "t".to_string(),
        vec!["r".to_string()],
        vec![0, 1, 2],
        vec![0, 1, 2],
        vec![vec![1, 0]],
    );
    assert_eq!(short_move.err(), Some(LoadError::BadMove(0)));
}

#[test]
fn built_moves_keep_only_moved_positions() {
    let e = Env::new(
        5,
        1,
        0,
        "t".to_string(),
        vec!["s".to_string()],
        vec![0; 5],
        vec![0; 5],
        vec![vec![0, 3, 2, 1, 4]],
    )
    .unwrap();
    assert_eq!(e.allowed_moves[0].len(), 2);
}
