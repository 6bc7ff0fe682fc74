use babel2048::board::{Board, Direction};
use babel2048::catalog::Catalog;
use babel2048::play::{play, step};

fn count_tiles(board: &Board) -> usize {
    board.cells.iter().filter(|v| **v != 0).count()
}

#[test]
fn one_tile_appears_after_a_move_that_changes_the_board() {
    let board = Board::from_rows([[0, 2, 0, 2], [0, 0, 4, 0], [0; 4], [8, 0, 0, 0]]);
    let pushed = board.apply_move(Direction::Left);
    assert_eq!(pushed.rows(), [[4, 0, 0, 0], [4, 0, 0, 0], [0; 4], [8, 0, 0, 0]]);
    let mut twos = 0;
    let mut fours = 0;
    let mut cells_hit = [false; 16];
    for _ in 0..2000 {
        let next = step(&board, Direction::Left, true);
        let mut changed = Vec::new();
        for k in 0..16 {
            if next.cells[k] != pushed.cells[k] {
                changed.push(k);
            }
        }
        assert_eq!(changed.len(), 1);
        let k = changed[0];
        assert_eq!(pushed.cells[k], 0);
        assert!(next.cells[k] == 2 || next.cells[k] == 4);
        if next.cells[k] == 2 {
            twos += 1;
        } else {
            fours += 1;
        }
        cells_hit[k] = true;
        assert_eq!(count_tiles(&next), 4);
    }
    assert!(twos > fours);
    assert!(fours > 0);
    assert_eq!(cells_hit.iter().filter(|h| **h).count(), 13);
}

#[test]
fn nothing_appears_after_a_move_that_changes_nothing() {
    let board = Board::from_rows([[2, 4, 0, 0], [4, 0, 0, 0], [0; 4], [8, 16, 2, 0]]);
    for _ in 0..50 {
        let next = step(&board, Direction::Left, true);
        assert_eq!(next, board);
    }
}

#[test]
fn nothing_appears_where_tiles_are_switched_off() {
    let board = Board::from_rows([[0, 2, 0, 2], [0; 4], [0; 4], [0; 4]]);
    for _ in 0..50 {
        let next = step(&board, Direction::Right, false);
        assert_eq!(next.rows(), [[0, 0, 0, 4], [0; 4], [0; 4], [0; 4]]);
    }
}

#[test]
fn the_picked_cell_gets_the_tile_of_the_roll() {
    let board = Board::from_rows([[2, 0, 0, 0], [0; 4], [0; 4], [0; 4]]);
    assert_eq!(board.empty_cells(), (1..16).collect::<Vec<usize>>());
    assert_eq!(Board::from_rows([[2; 4]; 4]).empty_cells(), Vec::<usize>::new());
    assert_eq!(board.spawn(Some(5), 0).rows(), [[2, 0, 0, 0], [0, 4, 0, 0], [0; 4], [0; 4]]);
    assert_eq!(board.spawn(Some(5), 1).rows(), [[2, 0, 0, 0], [0, 2, 0, 0], [0; 4], [0; 4]]);
    assert_eq!(board.spawn(Some(15), 9).rows(), [[2, 0, 0, 0], [0; 4], [0; 4], [0, 0, 0, 2]]);
    assert_eq!(board.spawn(None, 0), board);
    assert_eq!(board.spawn(Some(16), 0), board);
}

#[test]
fn a_full_board_that_merges_gets_a_tile_in_the_freed_cell() {
    let board = Board::from_rows([[2, 2, 4, 8], [4, 8, 16, 32], [8, 16, 32, 64], [2, 4, 8, 16]]);
    for _ in 0..20 {
        let next = step(&board, Direction::Left, true);
        assert_eq!(next.rows()[0][..3], [4, 4, 8]);
        assert!(next.rows()[0][3] == 2 || next.rows()[0][3] == 4);
        assert_eq!(next.rows()[1], [4, 8, 16, 32]);
    }
}

#[test]
fn a_turn_ends_with_the_address_of_the_new_board() {
    let catalog = Catalog::build();
    let board = Board::from_rows([[0, 2, 0, 2], [0; 4], [0; 4], [0, 0, 1024, 1024]]);
    let turn = play(&catalog, &board, Direction::Left, false).unwrap();
    assert_eq!(turn.board.rows(), [[4, 0, 0, 0], [0; 4], [0; 4], [2048, 0, 0, 0]]);
    assert_eq!(turn.address.local_id, "2B");
    assert_eq!(catalog.entry(turn.address.global_id).unwrap().shape, turn.board.shape());
    let with_tile = play(&catalog, &board, Direction::Left, true).unwrap();
    assert_eq!(with_tile.address.local_id.len(), 3);
    assert_eq!(
        catalog.entry(with_tile.address.global_id).unwrap().shape,
        with_tile.board.shape()
    );
    let merged = Board::from_rows([[2048, 2048, 0, 0], [0; 4], [0; 4], [0; 4]]);
    let beyond = play(&catalog, &merged, Direction::Left, false).unwrap();
    assert_eq!(beyond.address.local_id, "?");
    assert_eq!(play(&Catalog::new(), &board, Direction::Left, false), None);
}
