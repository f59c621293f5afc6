use game2048::board::Board;
use game2048::cell::Cell;
use game2048::direction::{Direction, Merge};
use game2048::game::{GameState, State};

fn board(values: [[u32; 4]; 4]) -> Board {
    Board::from_values(values).expect("valid tiles")
}

fn game(values: [[u32; 4]; 4]) -> GameState {
    GameState { board: board(values), score: 0, state: State::Playing }
}

#[test]
fn slide_right_merges_the_pair_behind_a_larger_tile() {
    let mut gs = game([[2, 2, 4, 0], [0, 0, 0, 0], [0, 0, 0, 0], [0, 0, 0, 0]]);
    assert!(gs.can_slide(Direction::Right));
    let merges = gs.slide_right().merges;
    assert_eq!(gs.board.values()[0], [0, 0, 4, 4]);
    assert_eq!(gs.score, 4);
    assert_eq!(merges, vec![Merge { row: 0, col: 2, value: 4 }]);
    assert!(gs.board.get(0, 2).combined);
    assert!(!gs.board.get(0, 3).combined);
    assert_eq!(gs.state, State::Playing);
}

#[test]
fn slide_left_merges_only_the_first_pair_of_three() {
    let mut gs = game([[2, 2, 2, 0], [0, 0, 0, 0], [0, 0, 0, 0], [0, 0, 0, 0]]);
    let merges = gs.slide_left().merges;
    assert_eq!(gs.board.values()[0], [4, 2, 0, 0]);
    assert_eq!(gs.score, 4);
    assert_eq!(merges, vec![Merge { row: 0, col: 0, value: 4 }]);
}

#[test]
fn slide_right_merges_four_equal_tiles_into_two() {
    let mut gs = game([[2, 2, 2, 2], [0, 0, 0, 0], [0, 0, 0, 0], [0, 0, 0, 0]]);
    let merges = gs.slide_right().merges;
    assert_eq!(gs.board.values()[0], [0, 0, 4, 4]);
    assert_eq!(gs.score, 8);
    assert_eq!(
        merges,
        vec![Merge { row: 0, col: 3, value: 4 }, Merge { row: 0, col: 2, value: 4 }]
    );
}

#[test]
fn a_merged_tile_does_not_merge_again_in_the_same_move() {
    let mut gs = game([[4, 2, 2, 0], [0, 0, 0, 0], [0, 0, 0, 0], [0, 0, 0, 0]]);
    let merges = gs.slide_left().merges;
    assert_eq!(gs.board.values()[0], [4, 4, 0, 0]);
    assert_eq!(merges, vec![Merge { row: 0, col: 1, value: 4 }]);
    assert_eq!(gs.score, 4);
}

#[test]
fn slide_down_moves_columns() {
    let mut gs = game([[2, 0, 4, 8], [2, 0, 0, 8], [0, 0, 4, 16], [0, 2, 0, 16]]);
    let merges = gs.slide_down().merges;
    assert_eq!(
        gs.board.values(),
        [[0, 0, 0, 0], [0, 0, 0, 0], [0, 0, 0, 16], [4, 2, 8, 32]]
    );
    assert_eq!(gs.score, 4 + 8 + 32 + 16);
    assert_eq!(
        merges,
        vec![
            Merge { row: 3, col: 0, value: 4 },
            Merge { row: 3, col: 2, value: 8 },
            Merge { row: 3, col: 3, value: 32 },
            Merge { row: 2, col: 3, value: 16 },
        ]
    );
}

#[test]
fn slide_up_moves_columns() {
    let mut gs = game([[0, 0, 0, 2], [0, 4, 0, 0], [0, 4, 0, 2], [8, 0, 0, 4]]);
    let merges = gs.slide_up().merges;
    assert_eq!(
        gs.board.values(),
        [[8, 8, 0, 4], [0, 0, 0, 4], [0, 0, 0, 0], [0, 0, 0, 0]]
    );
    assert_eq!(gs.score, 12);
    assert_eq!(
        merges,
        vec![Merge { row: 0, col: 1, value: 8 }, Merge { row: 0, col: 3, value: 4 }]
    );
}

#[test]
fn slide_reports_whether_the_board_changed() {
    let mut gs = game([[2, 0, 0, 0], [4, 2, 0, 0], [0, 0, 0, 0], [2, 4, 8, 16]]);
    let out = gs.slide_left();
    assert!(!out.moved);
    assert!(out.merges.is_empty());
    let out = gs.slide_right();
    assert!(out.moved);
    assert!(out.merges.is_empty());
    let mut gs = game([[2, 2, 0, 0], [0, 0, 0, 0], [0, 0, 0, 0], [0, 0, 0, 0]]);
    let out = gs.slide_left();
    assert!(out.moved);
    assert_eq!(out.merges.len(), 1);
    let out = gs.slide_left();
    assert!(!out.moved);
}

#[test]
fn slide_without_equal_neighbours_only_shifts() {
    let mut gs = game([[0, 2, 0, 4], [8, 0, 0, 0], [0, 0, 0, 0], [2, 4, 8, 16]]);
    let merges = gs.slide_left().merges;
    assert_eq!(
        gs.board.values(),
        [[2, 4, 0, 0], [8, 0, 0, 0], [0, 0, 0, 0], [2, 4, 8, 16]]
    );
    assert!(merges.is_empty());
    assert_eq!(gs.score, 0);
}

#[test]
fn sliding_twice_changes_nothing_the_second_time() {
    let start = [[2, 2, 4, 0], [4, 4, 4, 4], [2, 0, 2, 8], [16, 8, 8, 0]];
    for dir in [Direction::Right, Direction::Left, Direction::Down, Direction::Up] {
        let mut gs = game(start);
        gs.slide(dir);
        let once = gs;
        assert!(gs.can_slide(dir));
        let merges = gs.slide(dir).merges;
        assert!(merges.is_empty());
        assert_eq!(gs.score, once.score);
        for r in 0..4 {
            for c in 0..4 {
                assert_eq!(gs.board.get(r, c).value, once.board.get(r, c).value);
                assert_eq!(gs.board.get(r, c).combined, once.board.get(r, c).combined);
            }
        }
    }
}

#[test]
fn once_the_marks_are_cleared_the_merged_tiles_merge_again() {
    let mut gs = game([[2, 2, 4, 0], [0, 0, 0, 0], [0, 0, 0, 0], [0, 0, 0, 0]]);
    gs.slide_right();
    gs.board.clear_combined();
    let merges = gs.slide_right().merges;
    assert_eq!(gs.board.values()[0], [0, 0, 0, 8]);
    assert_eq!(merges, vec![Merge { row: 0, col: 3, value: 8 }]);
    assert_eq!(gs.score, 12);
}

#[test]
fn each_merge_goes_to_its_own_square_and_leaves_a_marked_tile() {
    let mut gs = game([[2, 2, 2, 2], [4, 4, 8, 8], [2, 4, 2, 4], [16, 16, 16, 0]]);
    let before = gs.score;
    let merges = gs.slide(Direction::Left).merges;
    let mut earned = 0;
    for (i, m) in merges.iter().enumerate() {
        let cell = gs.board.get(m.row, m.col);
        assert_eq!(cell.value, m.value);
        assert!(cell.combined);
        earned += m.value;
        for n in &merges[i + 1..] {
            assert!(m.row != n.row || m.col != n.col);
        }
    }
    assert_eq!(merges.len(), 5);
    assert_eq!(gs.score, before + earned);
    assert_eq!(gs.score, 4 + 4 + 8 + 16 + 32);
}

#[test]
fn a_marked_tile_is_passed_over_by_a_merge() {
    let mut cells = [[Cell::empty(); 4]; 4];
    cells[0][0] = Cell { value: 4, combined: true };
    cells[0][2] = Cell::occupied(4);
    let mut b = Board::from_cells(cells);
    assert!(b.is_well_formed());
    let merges = b.slide(Direction::Left).merges;
    assert!(merges.is_empty());
    assert_eq!(b.values()[0], [4, 4, 0, 0]);
    assert!(b.get(0, 0).combined);
    assert!(!b.get(0, 1).combined);
}

#[test]
fn clear_combined_removes_every_mark_and_keeps_the_values() {
    let mut b = board([[2, 2, 4, 4], [0, 0, 0, 0], [8, 8, 0, 0], [0, 0, 0, 0]]);
    b.slide(Direction::Right);
    assert!(b.get(0, 2).combined && b.get(0, 3).combined && b.get(2, 3).combined);
    let shown = b.values();
    b.clear_combined();
    assert_eq!(b.values(), shown);
    for r in 0..4 {
        for c in 0..4 {
            assert!(!b.get(r, c).combined);
        }
    }
}

#[test]
fn can_slide_refuses_a_score_that_would_overflow() {
    let mut gs = game([[2, 2, 0, 0], [0, 0, 0, 0], [0, 0, 0, 0], [0, 0, 0, 0]]);
    gs.score = u32::MAX - 3;
    assert!(!gs.can_slide(Direction::Left));
    assert!(gs.can_slide(Direction::Up));
    gs.score = u32::MAX - 4;
    assert!(gs.can_slide(Direction::Left));
    gs.slide_left();
    assert_eq!(gs.score, u32::MAX);
}

#[test]
fn can_slide_refuses_a_tile_that_cannot_be_doubled() {
    let gs = game([[1 << 31, 0, 0, 0], [0, 0, 0, 0], [0, 0, 0, 0], [0, 0, 0, 0]]);
    assert!(gs.board.is_well_formed());
    assert!(!gs.board.is_ready());
    assert!(!gs.can_slide(Direction::Left));
    let mut gs = game([[1 << 30, 1 << 30, 0, 0], [0, 0, 0, 0], [0, 0, 0, 0], [0, 0, 0, 0]]);
    assert!(gs.can_slide(Direction::Left));
    gs.slide_left();
    assert_eq!(gs.board.values()[0], [1 << 31, 0, 0, 0]);
    assert!(gs.board.is_ready());
    assert!(gs.can_slide(Direction::Left));
}
