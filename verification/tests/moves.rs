use babel2048::board::{Board, Direction};
use babel2048::moves::slide_and_merge_line;

fn row_board(row: [u32; 4]) -> Board {
    Board::from_rows([row, [0; 4], [0; 4], [0; 4]])
}

#[test]
fn four_equal_tiles_merge_in_pairs() {
    assert_eq!(slide_and_merge_line([2, 2, 2, 2]), [4, 4, 0, 0]);
    let next = row_board([2, 2, 2, 2]).apply_move(Direction::Left);
    assert_eq!(next.rows()[0], [4, 4, 0, 0]);
}

#[test]
fn a_gap_does_not_keep_tiles_from_merging() {
    assert_eq!(slide_and_merge_line([2, 0, 2, 4]), [4, 4, 0, 0]);
    let next = row_board([2, 0, 2, 4]).apply_move(Direction::Left);
    assert_eq!(next.rows()[0], [4, 4, 0, 0]);
}

#[test]
fn a_merged_tile_does_not_merge_again() {
    assert_eq!(slide_and_merge_line([2, 2, 4, 0]), [4, 4, 0, 0]);
    assert_eq!(slide_and_merge_line([4, 2, 2, 0]), [4, 4, 0, 0]);
    assert_eq!(slide_and_merge_line([2, 2, 2, 0]), [4, 2, 0, 0]);
    assert_eq!(slide_and_merge_line([8, 4, 4, 8]), [8, 8, 8, 0]);
}

#[test]
fn lines_without_tiles_or_pairs_only_slide() {
    assert_eq!(slide_and_merge_line([0, 0, 0, 0]), [0, 0, 0, 0]);
    assert_eq!(slide_and_merge_line([0, 0, 0, 2]), [2, 0, 0, 0]);
    assert_eq!(slide_and_merge_line([0, 2, 0, 4]), [2, 4, 0, 0]);
    assert_eq!(slide_and_merge_line([2, 4, 2, 4]), [2, 4, 2, 4]);
}

#[test]
fn right_merges_towards_the_right_wall() {
    let next = row_board([2, 2, 2, 0]).apply_move(Direction::Right);
    assert_eq!(next.rows()[0], [0, 0, 2, 4]);
    let next = row_board([2, 0, 2, 4]).apply_move(Direction::Right);
    assert_eq!(next.rows()[0], [0, 0, 4, 4]);
}

#[test]
fn up_and_down_work_on_columns() {
    let board = Board::from_rows([[2, 0, 0, 8], [2, 4, 0, 0], [2, 0, 0, 8], [0, 4, 0, 16]]);
    let up = board.apply_move(Direction::Up);
    assert_eq!(up.rows(), [[4, 8, 0, 16], [2, 0, 0, 16], [0, 0, 0, 0], [0, 0, 0, 0]]);
    let down = board.apply_move(Direction::Down);
    assert_eq!(down.rows(), [[0, 0, 0, 0], [0, 0, 0, 0], [2, 0, 0, 16], [4, 8, 0, 16]]);
}

#[test]
fn every_row_moves_by_itself() {
    let board = Board::from_rows([[2, 2, 0, 0], [0, 4, 4, 0], [8, 0, 0, 8], [2, 4, 8, 16]]);
    let left = board.apply_move(Direction::Left);
    assert_eq!(left.rows(), [[4, 0, 0, 0], [8, 0, 0, 0], [16, 0, 0, 0], [2, 4, 8, 16]]);
    let right = board.apply_move(Direction::Right);
    assert_eq!(right.rows(), [[0, 0, 0, 4], [0, 0, 0, 8], [0, 0, 0, 16], [2, 4, 8, 16]]);
}

#[test]
fn a_packed_row_without_pairs_stays_twice() {
    let board = Board::from_rows([[2, 4, 8, 0], [4, 2, 0, 0], [16, 0, 0, 0], [0, 0, 0, 0]]);
    let once = board.apply_move(Direction::Left);
    assert_eq!(once.rows(), board.rows());
    assert!(once.same_as(&board));
    let twice = once.apply_move(Direction::Left);
    assert_eq!(twice.rows(), board.rows());
}

#[test]
fn a_move_that_would_not_fit_is_refused() {
    let big = 0x8000_0000u32;
    let board = row_board([big, big, 0, 0]);
    assert!(board.checked_move(Direction::Left).is_none());
    assert!(board.checked_move(Direction::Right).is_none());
    let up = board.checked_move(Direction::Up);
    assert_eq!(up.map(|b| b.rows()), Some(board.rows()));
    let lone = row_board([0, big, 0, 2]);
    let moved = lone.checked_move(Direction::Left);
    assert_eq!(moved.map(|b| b.rows()[0]), Some([big, 2, 0, 0]));
    let half = row_board([0x4000_0000, 0x4000_0000, 0, 0]);
    assert_eq!(half.apply_move(Direction::Left).rows()[0], [big, 0, 0, 0]);
}

#[test]
fn boards_are_read_and_written_by_rows() {
    let rows = [[2, 4, 8, 16], [0, 0, 0, 0], [32, 0, 0, 64], [0, 128, 256, 0]];
    let board = Board::from_rows(rows);
    assert_eq!(board.rows(), rows);
    assert_eq!(board.get(0, 1), 4);
    assert_eq!(board.get(2, 3), 64);
    assert_eq!(board.get(3, 2), 256);
    assert_eq!(board.cells[9], 0);
    assert_eq!(board.cells[11], 64);
    assert!(Board::empty().same_as(&Board::from_rows([[0; 4]; 4])));
    assert!(!board.same_as(&Board::empty()));
    let shape = board.shape();
    assert_eq!(shape.filled(), 8);
    assert!(shape.is_occupied(0) && shape.is_occupied(11) && !shape.is_occupied(4));
}
