use fifteen::game::position::MoveDirection;
use fifteen::game::state::GameState;
use fifteen::solver::SolverState;
use fifteen::solver::depth_limited_dfs;
use fifteen::solver::solve_guided;
use fifteen::solver::solve_idfs;

const DEPTH_CAP: u64 = 80;
const ITERATION_CAP: u64 = 1_000_000;

fn replay(state: GameState, path: &[MoveDirection]) -> Option<GameState> {
    let mut current = state;
    for d in path.iter() {
        match current.move_space(*d) {
            Some(next) => current = next,
            None => return None,
        }
    }
    Some(current)
}

/// Smallest number of moves (of any shape, reversals included) that solves
/// `state`, searching exhaustively up to `bound` moves.
fn brute_force_minimum(state: GameState, bound: usize) -> Option<usize> {
    let directions = [
        MoveDirection::Left,
        MoveDirection::Right,
        MoveDirection::Up,
        MoveDirection::Down,
    ];
    let mut frontier = vec![state];
    if state.is_solved() {
        return Some(0);
    }
    for length in 1..=bound {
        let mut next_frontier = Vec::new();
        for s in frontier.iter() {
            for d in directions.iter() {
                if let Some(n) = s.move_space(*d) {
                    if n.is_solved() {
                        return Some(length);
                    }
                    next_frontier.push(n);
                }
            }
        }
        frontier = next_frontier;
    }
    None
}

#[test]
fn solver_state_reports_solved_and_extends_its_path() {
    let node = SolverState::new(GameState::new(), vec![MoveDirection::Left]);
    assert!(node.is_solved());
    let extended = node.steps_with(MoveDirection::Up);
    assert_eq!(vec![MoveDirection::Left, MoveDirection::Up], extended);
}

#[test]
fn should_skip_refuses_only_the_exact_reversal() {
    let node = SolverState::new(GameState::new(), vec![MoveDirection::Left]);
    assert!(node.should_skip(MoveDirection::Right));
    assert!(!node.should_skip(MoveDirection::Left));
    assert!(!node.should_skip(MoveDirection::Up));
    assert!(!node.should_skip(MoveDirection::Down));

    let fresh = SolverState::new(GameState::new(), vec![]);
    assert!(!fresh.should_skip(MoveDirection::Right));
}

#[test]
fn depth_limited_search_finds_exact_length_continuations() {
    let solved_node = SolverState::new(GameState::new(), vec![]);
    assert_eq!(Some(vec![]), depth_limited_dfs(solved_node, 0));

    let scrambled = GameState::new().move_space(MoveDirection::Up).unwrap();
    let node = SolverState::new(scrambled, vec![]);
    assert!(depth_limited_dfs(node, 0).is_none());

    let node1 = SolverState::new(scrambled, vec![]);
    assert_eq!(Some(vec![MoveDirection::Down]), depth_limited_dfs(node1, 1));
}

#[test]
fn solve_already_solved() {
    match solve_guided(GameState::new(), ITERATION_CAP) {
        Some(path) => assert_eq!(0, path.len()),
        None => panic!(),
    }
}

#[test]
fn solve_simple_case() {
    let game_state = GameState::new().move_spaces(vec![
        MoveDirection::Up,
        MoveDirection::Left,
        MoveDirection::Up,
    ]);

    match game_state {
        Some(g) => match solve_idfs(g, DEPTH_CAP) {
            Some(path) => assert_eq!(3, path.len()),
            None => panic!(),
        },
        None => panic!(),
    };
}

#[test]
fn solve_medium_case() {
    let game_state = GameState::new().move_spaces(vec![
        MoveDirection::Left,
        MoveDirection::Left,
        MoveDirection::Up,
        MoveDirection::Up,
        MoveDirection::Up,
        MoveDirection::Left,
        MoveDirection::Down,
        MoveDirection::Down,
        MoveDirection::Right,
        MoveDirection::Right,
        MoveDirection::Up,
        MoveDirection::Right,
        MoveDirection::Up,
    ]);

    match game_state {
        Some(g) => match solve_idfs(g, DEPTH_CAP) {
            Some(path) => assert_eq!(13, path.len()),
            None => panic!(),
        },
        None => panic!(),
    };
}

#[test]
fn solve_hard_case() {
    let game_state = GameState::new().move_spaces(vec![
        MoveDirection::Left,
        MoveDirection::Left,
        MoveDirection::Up,
        MoveDirection::Up,
        MoveDirection::Up,
        MoveDirection::Left,
        MoveDirection::Down,
        MoveDirection::Down,
        MoveDirection::Right,
        MoveDirection::Right,
        MoveDirection::Up,
        MoveDirection::Right,
        MoveDirection::Up,
        MoveDirection::Left,
        MoveDirection::Left,
        MoveDirection::Left,
        MoveDirection::Down,
        MoveDirection::Right,
        MoveDirection::Down,
        MoveDirection::Right,
    ]);

    match game_state {
        Some(g) => match solve_idfs(g, DEPTH_CAP) {
            Some(path) => assert_eq!(20, path.len()),
            None => panic!(),
        },
        None => panic!(),
    };
}

#[test]
fn solve_optimal_on_solved_state_returns_empty_path() {
    let path = solve_idfs(GameState::new(), DEPTH_CAP).unwrap();
    assert_eq!(0, path.len());
}

#[test]
fn solve_optimal_after_one_move_returns_the_undoing_move() {
    let cases = [
        (MoveDirection::Left, MoveDirection::Right),
        (MoveDirection::Up, MoveDirection::Down),
    ];
    for (taken, undo) in cases.iter() {
        let scrambled = GameState::new().move_space(*taken).unwrap();
        let path = solve_idfs(scrambled, DEPTH_CAP).unwrap();
        assert_eq!(vec![*undo], path);
    }
}

#[test]
fn solve_optimal_matches_brute_force_minimum_on_shallow_scrambles() {
    let scrambles: Vec<Vec<MoveDirection>> = vec![
        vec![],
        vec![MoveDirection::Up],
        vec![MoveDirection::Left, MoveDirection::Up],
        vec![MoveDirection::Left, MoveDirection::Left, MoveDirection::Up],
        vec![
            MoveDirection::Up,
            MoveDirection::Up,
            MoveDirection::Left,
            MoveDirection::Down,
        ],
        vec![
            MoveDirection::Left,
            MoveDirection::Up,
            MoveDirection::Right,
            MoveDirection::Up,
            MoveDirection::Left,
            MoveDirection::Left,
        ],
    ];
    for scramble in scrambles.into_iter() {
        let state = GameState::new().move_spaces(scramble).unwrap();
        let minimum = brute_force_minimum(state, 6).unwrap();
        let path = solve_idfs(state, DEPTH_CAP).unwrap();
        assert_eq!(minimum, path.len());
    }
}

#[test]
fn solve_optimal_reports_absence_when_the_bound_is_too_small() {
    let state = GameState::new()
        .move_spaces(vec![
            MoveDirection::Left,
            MoveDirection::Left,
            MoveDirection::Up,
        ])
        .unwrap();
    assert!(solve_idfs(state, 2).is_none());
}

#[test]
fn three_move_scramble_solves_in_three_and_scores_positive() {
    let state = GameState::new()
        .move_spaces(vec![
            MoveDirection::Left,
            MoveDirection::Left,
            MoveDirection::Up,
        ])
        .unwrap();
    assert!(state.get_score() > 0);
    let path = solve_idfs(state, DEPTH_CAP).unwrap();
    assert_eq!(3, path.len());
    let landed = replay(state, &path).unwrap();
    assert!(landed.is_solved());
}

#[test]
fn thirteen_move_scramble_replay_lands_solved_within_thirteen() {
    let scramble = vec![
        MoveDirection::Left,
        MoveDirection::Left,
        MoveDirection::Up,
        MoveDirection::Up,
        MoveDirection::Up,
        MoveDirection::Left,
        MoveDirection::Down,
        MoveDirection::Down,
        MoveDirection::Right,
        MoveDirection::Right,
        MoveDirection::Up,
        MoveDirection::Right,
        MoveDirection::Up,
    ];
    let state = GameState::new().move_spaces(scramble).unwrap();
    let path = solve_idfs(state, DEPTH_CAP).unwrap();
    assert!(path.len() <= 13);
    let landed = replay(state, &path).unwrap();
    assert!(landed.is_solved());
}

#[test]
fn guided_search_path_replays_to_the_solved_state() {
    let state = GameState::new()
        .move_spaces(vec![
            MoveDirection::Left,
            MoveDirection::Left,
            MoveDirection::Up,
            MoveDirection::Right,
            MoveDirection::Up,
        ])
        .unwrap();
    let path = solve_guided(state, ITERATION_CAP).unwrap();
    let landed = replay(state, &path).unwrap();
    assert!(landed.is_solved());
}

#[test]
fn guided_search_runs_out_when_the_budget_is_zero() {
    let state = GameState::new().move_space(MoveDirection::Left).unwrap();
    assert!(solve_guided(state, 0).is_none());
}
