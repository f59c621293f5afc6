use game2048::board::Board;
use game2048::cell::{is_tile, Cell};
use game2048::direction::Direction;
use game2048::game::{random_cells, GameState, State};

fn board(values: [[u32; 4]; 4]) -> Board {
    Board::from_values(values).expect("valid tiles")
}

fn tiles(b: &Board) -> Vec<u32> {
    let mut found = Vec::new();
    for row in b.values() {
        for v in row {
            if v != 0 {
                found.push(v);
            }
        }
    }
    found
}

#[test]
fn a_new_game_is_empty_and_in_play() {
    let gs = GameState::new();
    assert_eq!(gs.board.values(), [[0; 4]; 4]);
    assert_eq!(gs.score, 0);
    assert_eq!(gs.state, State::Playing);
    assert_eq!(gs.board.empty_count(), 16);
}

#[test]
fn reset_leaves_two_or_three_small_tiles_and_the_game_in_play() {
    for _ in 0..200 {
        let mut gs = GameState {
            board: board([[2, 4, 2, 4], [4, 2, 4, 2], [2, 4, 2, 4], [4, 2, 4, 2]]),
            score: 77,
            state: State::GameOver,
        };
        gs.reset();
        let found = tiles(&gs.board);
        assert!(found.len() == 2 || found.len() == 3);
        assert!(found.iter().all(|v| *v == 2 || *v == 4));
        assert_eq!(gs.score, 0);
        assert_eq!(gs.state, State::Playing);
        assert!(gs.board.has_empty_cell());
        for r in 0..4 {
            for c in 0..4 {
                assert!(!gs.board.get(r, c).combined);
            }
        }
    }
}

#[test]
fn a_game_that_was_just_reset_stays_in_play_through_its_first_move() {
    for dir in [Direction::Right, Direction::Left, Direction::Down, Direction::Up] {
        let mut gs = GameState::new();
        gs.reset();
        assert!(gs.can_slide(dir));
        gs.play(dir);
        assert_eq!(gs.state, State::Playing);
    }
}

#[test]
fn random_cells_draws_both_counts_and_both_values() {
    let mut counts = [false; 2];
    let mut values = [false; 2];
    for _ in 0..400 {
        let b = random_cells();
        let found = tiles(&b);
        assert!(found.len() == 2 || found.len() == 3);
        counts[found.len() - 2] = true;
        for v in found {
            assert!(v == 2 || v == 4);
            values[(v / 2 - 1) as usize] = true;
        }
    }
    assert_eq!(counts, [true, true]);
    assert_eq!(values, [true, true]);
}

#[test]
fn reset_with_places_the_drawn_tiles() {
    let mut gs = GameState::new();
    gs.score = 9;
    gs.state = State::GameOver;
    assert!(gs.reset_with(&vec![(0, 0), (0, 1), (13, 7)]));
    assert_eq!(
        gs.board.values(),
        [[2, 4, 0, 0], [0, 0, 0, 0], [0, 0, 0, 0], [0, 0, 0, 4]]
    );
    assert_eq!(gs.score, 0);
    assert_eq!(gs.state, State::Playing);
}

#[test]
fn reset_with_refuses_wrong_draws_and_leaves_the_game_alone() {
    let mut gs = GameState::new();
    gs.score = 9;
    gs.state = State::GameOver;
    assert!(!gs.reset_with(&vec![(0, 0)]));
    assert!(!gs.reset_with(&vec![(0, 0), (1, 0), (2, 0), (3, 0)]));
    assert!(!gs.reset_with(&vec![(0, 0), (15, 0)]));
    assert!(!gs.reset_with(&vec![(16, 0), (0, 0)]));
    assert_eq!(gs.score, 9);
    assert_eq!(gs.state, State::GameOver);
    assert_eq!(gs.board.values(), [[0; 4]; 4]);
    assert!(gs.reset_with(&vec![(15, 0), (14, 1)]));
    assert_eq!(gs.board.values()[3], [0, 0, 4, 2]);
}

#[test]
fn a_move_that_leaves_no_empty_square_ends_the_game_without_a_new_tile() {
    let full = [[2, 4, 2, 4], [4, 2, 4, 2], [2, 4, 2, 4], [4, 2, 4, 2]];
    let mut gs = GameState { board: board(full), score: 10, state: State::Playing };
    assert!(gs.can_slide(Direction::Left));
    let merges = gs.play(Direction::Left).merges;
    assert!(merges.is_empty());
    assert_eq!(gs.state, State::GameOver);
    assert_eq!(gs.board.values(), full);
    assert_eq!(gs.score, 10);
}

#[test]
fn play_with_ends_the_game_on_a_full_board_whatever_the_draw() {
    let full = [[2, 4, 2, 4], [4, 2, 4, 2], [2, 4, 2, 4], [4, 2, 4, 2]];
    let mut gs = GameState { board: board(full), score: 0, state: State::Playing };
    gs.play_with(Direction::Up, 5, 1);
    assert_eq!(gs.state, State::GameOver);
    assert_eq!(gs.board.values(), full);
}

#[test]
fn a_full_board_that_merges_makes_room_and_goes_on() {
    let mut gs = GameState {
        board: board([[2, 2, 4, 8], [4, 2, 4, 2], [2, 4, 2, 4], [4, 2, 4, 2]]),
        score: 0,
        state: State::Playing,
    };
    let merges = gs.play_with(Direction::Left, 0, 1).merges;
    assert_eq!(merges.len(), 1);
    assert_eq!(gs.state, State::Playing);
    assert_eq!(
        gs.board.values(),
        [[4, 4, 8, 4], [4, 2, 4, 2], [2, 4, 2, 4], [4, 2, 4, 2]]
    );
    assert_eq!(gs.score, 4);
    assert!(!gs.board.get(0, 0).combined);
}

#[test]
fn play_spawns_one_small_tile_on_an_empty_square_and_clears_the_marks() {
    for _ in 0..200 {
        let mut gs = GameState {
            board: board([[2, 2, 0, 0], [0, 8, 0, 0], [0, 0, 0, 0], [0, 0, 0, 16]]),
            score: 0,
            state: State::Playing,
        };
        let merges = gs.play(Direction::Right).merges;
        assert_eq!(merges.len(), 1);
        assert_eq!(gs.score, 4);
        assert_eq!(gs.state, State::Playing);
        let rested = [[0, 0, 0, 4], [0, 0, 0, 8], [0, 0, 0, 0], [0, 0, 0, 16]];
        let shown = gs.board.values();
        let mut fresh = 0;
        for r in 0..4 {
            for c in 0..4 {
                assert!(!gs.board.get(r, c).combined);
                if shown[r][c] != rested[r][c] {
                    assert_eq!(rested[r][c], 0);
                    assert!(shown[r][c] == 2 || shown[r][c] == 4);
                    fresh += 1;
                }
            }
        }
        assert_eq!(fresh, 1);
    }
}

#[test]
fn a_move_that_moves_nothing_still_brings_a_new_tile() {
    let mut gs = GameState {
        board: board([[2, 0, 0, 0], [4, 0, 0, 0], [0, 0, 0, 0], [0, 0, 0, 0]]),
        score: 0,
        state: State::Playing,
    };
    let out = gs.play_with(Direction::Left, 13, 0);
    assert!(!out.moved);
    assert_eq!(
        gs.board.values(),
        [[2, 0, 0, 0], [4, 0, 0, 0], [0, 0, 0, 0], [0, 0, 0, 2]]
    );
    assert_eq!(gs.state, State::Playing);
}

#[test]
fn a_key_does_nothing_once_the_game_is_over() {
    let start = [[2, 2, 0, 0], [0, 0, 0, 0], [0, 0, 0, 0], [0, 0, 0, 0]];
    for state in [State::GameOver, State::Victory] {
        let mut gs = GameState { board: board(start), score: 3, state };
        let merges = gs.play(Direction::Right).merges;
        assert!(merges.is_empty());
        assert_eq!(gs.board.values(), start);
        assert_eq!(gs.score, 3);
        assert_eq!(gs.state, state);
        let merges = gs.play_with(Direction::Left, 0, 0).merges;
        assert!(merges.is_empty());
        assert_eq!(gs.board.values(), start);
    }
}

#[test]
fn finish_move_with_places_the_tile_or_ends_the_game() {
    let mut gs = GameState {
        board: board([[2, 4, 2, 4], [4, 2, 4, 2], [2, 4, 0, 4], [4, 2, 4, 0]]),
        score: 5,
        state: State::Playing,
    };
    gs.finish_move_with(1, 3);
    assert_eq!(gs.board.values()[3], [4, 2, 4, 4]);
    assert_eq!(gs.board.values()[2], [2, 4, 0, 4]);
    assert_eq!(gs.state, State::Playing);
    gs.finish_move_with(0, 2);
    assert_eq!(gs.board.values()[2], [2, 4, 2, 4]);
    assert_eq!(gs.state, State::Playing);
    let full = gs.board.values();
    gs.finish_move_with(0, 0);
    assert_eq!(gs.state, State::GameOver);
    assert_eq!(gs.board.values(), full);
    assert_eq!(gs.score, 5);
}

#[test]
fn finish_move_fills_the_last_empty_square_and_then_ends_the_game() {
    let mut gs = GameState {
        board: board([[2, 4, 2, 4], [4, 2, 4, 2], [2, 4, 2, 4], [4, 2, 4, 0]]),
        score: 0,
        state: State::Playing,
    };
    gs.finish_move();
    assert_eq!(gs.state, State::Playing);
    let last = gs.board.get(3, 3).value;
    assert!(last == 2 || last == 4);
    assert!(!gs.board.has_empty_cell());
    gs.finish_move();
    assert_eq!(gs.state, State::GameOver);
}

#[test]
fn spawn_at_fills_the_numbered_empty_square() {
    let mut b = board([[2, 0, 0, 4], [0, 8, 0, 0], [0, 0, 0, 0], [0, 0, 0, 0]]);
    assert_eq!(b.empty_count(), 13);
    assert_eq!(b.spawn_at(2, 6), Some((1, 0)));
    assert_eq!(b.values()[1], [2, 8, 0, 0]);
    assert_eq!(b.spawn_at(0, 9), Some((0, 1)));
    assert_eq!(b.values()[0], [2, 4, 0, 4]);
    assert_eq!(b.empty_count(), 11);
    assert_eq!(b.spawn_at(10, 0), Some((3, 3)));
    assert_eq!(b.spawn_at(10, 0), None);
    assert_eq!(b.empty_count(), 10);
    assert!(!b.get(1, 0).combined);
}

#[test]
fn spawn_on_a_full_board_does_nothing() {
    let full = [[2, 4, 2, 4], [4, 2, 4, 2], [2, 4, 2, 4], [4, 2, 4, 2]];
    let mut b = board(full);
    assert!(!b.has_empty_cell());
    assert_eq!(b.spawn(), None);
    assert_eq!(b.spawn_at(0, 0), None);
    assert_eq!(b.values(), full);
}

#[test]
fn spawn_reaches_every_empty_square_and_no_other() {
    let start = [[2, 0, 2, 4], [4, 2, 4, 2], [2, 4, 0, 4], [4, 2, 4, 0]];
    let mut hit = [[false; 4]; 4];
    for _ in 0..400 {
        let mut b = board(start);
        let (r, c) = b.spawn().expect("three squares are empty");
        assert_eq!(start[r][c], 0);
        let v = b.get(r, c).value;
        assert!(v == 2 || v == 4);
        assert_eq!(b.empty_count(), 2);
        hit[r][c] = true;
    }
    assert!(hit[0][1] && hit[2][2] && hit[3][3]);
}

#[test]
fn seeded_places_the_draws_in_turn() {
    let b = Board::seeded(&vec![(5, 1), (5, 2)]).expect("draws fit");
    assert_eq!(
        b.values(),
        [[0, 0, 0, 0], [0, 4, 2, 0], [0, 0, 0, 0], [0, 0, 0, 0]]
    );
    assert!(Board::seeded(&vec![]).is_some());
    assert!(Board::seeded(&vec![(15, 0), (15, 0)]).is_none());
    let all: Vec<(usize, u32)> = (0..16).map(|_| (0usize, 1u32)).collect();
    assert_eq!(Board::seeded(&all).expect("sixteen fit").values(), [[4; 4]; 4]);
    let more: Vec<(usize, u32)> = (0..17).map(|_| (0usize, 1u32)).collect();
    assert!(Board::seeded(&more).is_none());
}

#[test]
fn from_values_takes_powers_of_two_only() {
    assert!(Board::from_values([[0; 4]; 4]).is_some());
    assert!(Board::from_values([[2, 4, 8, 16], [32, 64, 128, 256], [512, 1024, 2048, 4096], [1 << 31, 0, 0, 0]]).is_some());
    assert!(Board::from_values([[3, 0, 0, 0], [0; 4], [0; 4], [0; 4]]).is_none());
    assert!(Board::from_values([[0; 4], [0; 4], [0; 4], [0, 0, 0, 1]]).is_none());
    assert!(Board::from_values([[0; 4], [0, 6, 0, 0], [0; 4], [0; 4]]).is_none());
}

#[test]
fn is_tile_knows_the_powers_of_two_from_two_on() {
    assert!(!is_tile(0));
    assert!(!is_tile(1));
    assert!(is_tile(2));
    assert!(!is_tile(3));
    assert!(is_tile(4));
    assert!(is_tile(2048));
    assert!(!is_tile(2049));
    assert!(is_tile(1 << 31));
    assert!(!is_tile(u32::MAX));
    for e in 1..32 {
        assert!(is_tile(1u32 << e));
        assert!(!is_tile((1u32 << e) + 1));
    }
}

#[test]
fn cells_are_equal_when_they_show_the_same_value() {
    assert!(Cell { value: 4, combined: true } == Cell { value: 4, combined: false });
    assert!(Cell { value: 4, combined: false } != Cell { value: 8, combined: false });
    assert!(Cell::empty() == Cell { value: 0, combined: false });
    assert!(Cell::empty().is_empty());
    assert!(!Cell::empty().is_occupied());
    assert!(Cell::occupied(2).is_occupied());
    assert_eq!(Cell::occupied(8).value, 8);
    assert!(!Cell::occupied(8).combined);
    assert!(Cell::occupied(8).is_valid());
    assert!(!Cell::occupied(12).is_valid());
    assert!(!Cell { value: 0, combined: true }.is_valid());
}

#[test]
fn the_first_released_key_in_the_order_right_left_down_up_wins() {
    assert_eq!(Direction::from_keys(false, false, false, false), None);
    assert_eq!(Direction::from_keys(true, true, true, true), Some(Direction::Right));
    assert_eq!(Direction::from_keys(false, true, true, true), Some(Direction::Left));
    assert_eq!(Direction::from_keys(false, false, true, true), Some(Direction::Down));
    assert_eq!(Direction::from_keys(false, false, false, true), Some(Direction::Up));
    assert_eq!(Direction::from_keys(true, false, false, false), Some(Direction::Right));
}

#[test]
fn square_names_the_squares_of_a_lane_from_the_wall() {
    assert_eq!(Direction::Right.square(1, 0), (1, 3));
    assert_eq!(Direction::Right.square(1, 3), (1, 0));
    assert_eq!(Direction::Left.square(2, 0), (2, 0));
    assert_eq!(Direction::Left.square(2, 3), (2, 3));
    assert_eq!(Direction::Down.square(1, 0), (3, 1));
    assert_eq!(Direction::Down.square(1, 2), (1, 1));
    assert_eq!(Direction::Up.square(3, 0), (0, 3));
    assert_eq!(Direction::Up.square(3, 3), (3, 3));
}
