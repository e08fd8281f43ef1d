use fifteen::game::bitboard::BitBoard;
use fifteen::game::position::MoveDirection;
use fifteen::game::position::Position;
use fifteen::game::state::GameState;

#[test]
fn new_bitboard_uses_empty_state() {
    let b: BitBoard = BitBoard::new();
    for row in 0..4u8 {
        for col in 0..4u8 {
            let index = row * 4 + col;
            let expected = (index + 1) % 16;
            assert!(b.get(Position::new(row, col)) == expected);
        }
    }
}

#[test]
fn is_solved_true_for_new_board() {
    let b: BitBoard = BitBoard::new();
    assert!(b.is_solved());
}

#[test]
fn set_value_at_valid_position() {
    let b: BitBoard = BitBoard::new().set(Position::new(0, 3), 7);

    assert_eq!(7, b.get(Position::new(0, 3)));
}

#[test]
fn set_values_at_valid_positions() {
    for value in 0..16u8 {
        for row in 0..4u8 {
            for col in 0..4u8 {
                let b = BitBoard::new().set(Position::new(row, col), value);

                assert_eq!(value, b.get(Position::new(row, col)));
            }
        }
    }
}

#[test]
fn set_truncates_label_to_low_four_bits() {
    let p = Position::new(1, 2);
    let b = BitBoard::new().set(p, 255);
    assert_eq!(15, b.get(p));

    let b2 = BitBoard::new().set(p, 23);
    assert_eq!(7, b2.get(p));
}

#[test]
fn set_leaves_every_other_position_unchanged() {
    let base = BitBoard::new();
    let target = Position::new(2, 1);
    let b = base.set(target, 9);
    for row in 0..4u8 {
        for col in 0..4u8 {
            let p = Position::new(row, col);
            if p == target {
                assert_eq!(9, b.get(p));
            } else {
                assert_eq!(base.get(p), b.get(p));
            }
        }
    }
}

#[test]
fn swap_two_valid_positions() {
    let b1 = BitBoard::new();

    for row1 in 0..4u8 {
        for col1 in 0..4u8 {
            for row2 in 0..4u8 {
                for col2 in 0..4u8 {
                    let p1 = Position::new(row1, col1);
                    let p2 = Position::new(row2, col2);

                    let b2 = b1.swap(p1, p2);

                    assert_eq!(b1.get(p1), b2.get(p2));
                    assert_eq!(b2.get(p1), b1.get(p2));
                }
            }
        }
    }
}

#[test]
fn swap_same_position_is_a_no_op() {
    let b1 = BitBoard::new().set(Position::new(0, 1), 9);
    let p = Position::new(0, 1);
    let b2 = b1.swap(p, p);
    for row in 0..4u8 {
        for col in 0..4u8 {
            let q = Position::new(row, col);
            assert_eq!(b1.get(q), b2.get(q));
        }
    }
}

#[test]
fn get_valid_left_move() {
    let p: Position = Position::new(3, 3);
    let n: Option<Position> = p.get_neighbor(MoveDirection::Left);

    assert_eq!(Some(Position::new(3, 2)), n);
}

#[test]
fn neighbors_absent_off_every_edge() {
    for col in 0..4u8 {
        assert_eq!(None, Position::new(0, col).get_neighbor(MoveDirection::Up));
        assert_eq!(None, Position::new(3, col).get_neighbor(MoveDirection::Down));
    }
    for row in 0..4u8 {
        assert_eq!(None, Position::new(row, 0).get_neighbor(MoveDirection::Left));
        assert_eq!(None, Position::new(row, 3).get_neighbor(MoveDirection::Right));
    }
}

#[test]
fn new_state_is_solved() {
    let s: GameState = GameState::new();

    assert!(s.is_solved());
}

#[test]
fn move_space_valid_direction() {
    let s: Option<GameState> = GameState::new().move_space(MoveDirection::Left);

    match s {
        Some(state) => {
            if state.free_position() != Position::new(3, 2) {
                panic!()
            }
        }
        _ => panic!(),
    }
}

#[test]
fn move_space_illegal_direction() {
    let s: Option<GameState> = GameState::new().move_space(MoveDirection::Down);

    match s {
        Some(_) => panic!(),
        None => (),
    }
}

#[test]
fn move_spaces() {
    let game_state = GameState::new().move_spaces(vec![
        MoveDirection::Left,
        MoveDirection::Left,
        MoveDirection::Up,
    ]);

    let expected = match GameState::new().move_space(MoveDirection::Left) {
        Some(g1) => match g1.move_space(MoveDirection::Left) {
            Some(g2) => g2.move_space(MoveDirection::Up),
            None => panic!(),
        },
        None => panic!(),
    };

    assert!(expected == game_state);
}

#[test]
fn move_spaces_empty_sequence_is_a_no_op() {
    let start = GameState::new();
    assert!(Some(start) == start.move_spaces(vec![]));
}

#[test]
fn move_spaces_illegal_step_returns_none() {
    assert!(GameState::new().move_spaces(vec![MoveDirection::Down]).is_none());
    assert!(GameState::new()
        .move_spaces(vec![
            MoveDirection::Left,
            MoveDirection::Right,
            MoveDirection::Right,
        ])
        .is_none());
}

#[test]
fn single_legal_move_unsolves_the_board() {
    let start = GameState::new();
    let directions = [
        MoveDirection::Left,
        MoveDirection::Right,
        MoveDirection::Up,
        MoveDirection::Down,
    ];
    let mut legal_moves = 0;
    for d in directions.iter() {
        if let Some(moved) = start.move_space(*d) {
            assert!(!moved.is_solved());
            legal_moves += 1;
        }
    }
    assert_eq!(2, legal_moves);
}

#[test]
fn boundary_moves_absent_with_free_cell_in_corner() {
    // walk the free cell to (0, 0); every step is legal from solved
    let cornered = GameState::new()
        .move_spaces(vec![
            MoveDirection::Up,
            MoveDirection::Up,
            MoveDirection::Up,
            MoveDirection::Left,
            MoveDirection::Left,
            MoveDirection::Left,
        ])
        .unwrap();
    assert_eq!(Position::new(0, 0), cornered.free_position());
    assert!(cornered.move_space(MoveDirection::Up).is_none());
    assert!(cornered.move_space(MoveDirection::Left).is_none());
    assert!(cornered.move_space(MoveDirection::Down).is_some());
    assert!(cornered.move_space(MoveDirection::Right).is_some());
}

#[test]
fn move_sequence_then_reversed_sequence_returns_to_start() {
    let forward = vec![
        MoveDirection::Left,
        MoveDirection::Left,
        MoveDirection::Up,
        MoveDirection::Right,
        MoveDirection::Down,
    ];
    let mut backward: Vec<MoveDirection> = Vec::new();
    for d in forward.iter().rev() {
        backward.push(match d {
            MoveDirection::Left => MoveDirection::Right,
            MoveDirection::Right => MoveDirection::Left,
            MoveDirection::Up => MoveDirection::Down,
            MoveDirection::Down => MoveDirection::Up,
        });
    }
    let start = GameState::new();
    let there = start.move_spaces(forward).unwrap();
    let back = there.move_spaces(backward).unwrap();
    assert!(start == back);
}

#[test]
fn score_is_zero_exactly_on_the_solved_board() {
    assert_eq!(0, GameState::new().get_score());
}

#[test]
fn score_counts_manhattan_distance_of_displaced_tiles() {
    // one move left: tile 15 sits one column away from home, all others home
    let s = GameState::new().move_space(MoveDirection::Left).unwrap();
    assert_eq!(1, s.get_score());

    // moving the same tile back restores score zero
    let t = s.move_space(MoveDirection::Right).unwrap();
    assert_eq!(0, t.get_score());
}
