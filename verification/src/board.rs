//! Boards: sixteen cells of tile values in scan order.

use vstd::prelude::*;
use vstd::arithmetic::power2::pow2;
use crate::shape::{CELLS, SIDE, Shape};

verus! {

/// One of the four ways to push the tiles of a board.
#[derive(Clone, Copy, Debug, PartialEq, Eq, Structural)]
pub enum Direction {
    Up,
    Down,
    Left,
    Right,
}

/// A 4×4 grid of tile values; `0` marks an empty cell. Cell `k` of `cells`
/// stands in row `k / 4` and column `k % 4`.
#[derive(Clone, Copy, Debug, PartialEq, Eq)]
pub struct Board {
    pub cells: [u32; 16],
}

impl View for Board {
    type V = Seq<nat>;

    /// The sixteen values in scan order.
    open spec fn view(&self) -> Seq<nat> {
        Seq::new(CELLS as nat, |k: int| self.cells[k] as nat)
    }
}

/// Whether a value may stand in a cell: 0 for an empty cell, or a tile,
/// which is a power of 2 from 2 on.
pub open spec fn is_cell_value(value: nat) -> bool {
    value == 0 || exists|exponent: nat| exponent >= 1 && value == #[trigger] pow2(exponent)
}

/// Whether the cells are those of a board: sixteen cells, each of them
/// empty or with a tile.
pub open spec fn is_valid(cells: Seq<nat>) -> bool {
    cells.len() == CELLS && forall|k: int| 0 <= k < CELLS ==> is_cell_value(#[trigger] cells[k])
}

/// The test for a cell that holds a tile.
pub open spec fn is_tile() -> spec_fn(nat) -> bool {
    |v: nat| v != 0
}

/// The tiles of some cells in their order, without the empty cells.
pub open spec fn tiles_of(cells: Seq<nat>) -> Seq<nat> {
    cells.filter(is_tile())
}

impl Board {
    /// The board without tiles.
    pub fn empty() -> (board: Board)
        ensures
            board@ == Seq::new(CELLS as nat, |k: int| 0nat),
    {
        let board = Board { cells: [0; 16] };
        assert(board@ =~= Seq::new(CELLS as nat, |k: int| 0nat));
        board
    }

    /// The board with the given rows, from the top one down.
    pub fn from_rows(rows: [[u32; 4]; 4]) -> (board: Board)
        ensures
            forall|r: int, c: int|
                0 <= r < SIDE && 0 <= c < SIDE ==> board@[r * 4 + c] == #[trigger] rows[r][c],
    {
        let mut cells = [0u32; 16];
        let mut r: usize = 0;
        while r < SIDE
            invariant
                r <= SIDE,
                forall|i: int, c: int|
                    0 <= i < r && 0 <= c < SIDE ==> cells[i * 4 + c] == #[trigger] rows[i][c],
            decreases SIDE - r,
        {
            let row = rows[r];
            cells[r * 4] = row[0];
            cells[r * 4 + 1] = row[1];
            cells[r * 4 + 2] = row[2];
            cells[r * 4 + 3] = row[3];
            r += 1;
        }
        Board { cells }
    }

    /// The rows of the board, from the top one down.
    pub fn rows(&self) -> (rows: [[u32; 4]; 4])
        ensures
            forall|r: int, c: int|
                0 <= r < SIDE && 0 <= c < SIDE ==> #[trigger] rows[r][c] == self@[r * 4 + c],
    {
        let mut rows = [[0u32; 4]; 4];
        let mut r: usize = 0;
        while r < SIDE
            invariant
                r <= SIDE,
                forall|i: int, c: int|
                    0 <= i < r && 0 <= c < SIDE ==> #[trigger] rows[i][c] == self.cells[i * 4 + c],
            decreases SIDE - r,
        {
            rows[r] = [
                self.cells[r * 4],
                self.cells[r * 4 + 1],
                self.cells[r * 4 + 2],
                self.cells[r * 4 + 3],
            ];
            r += 1;
        }
        rows
    }

    /// The value in the given row and column.
    pub fn get(&self, row: usize, col: usize) -> (value: u32)
        requires
            row < SIDE,
            col < SIDE,
        ensures
            value == self@[row * 4 + col],
    {
        self.cells[row * 4 + col]
    }

    /// Whether the two boards agree in every cell.
    pub fn same_as(&self, other: &Board) -> (same: bool)
        ensures
            same == (self@ == other@),
    {
        let mut k: usize = 0;
        while k < CELLS
            invariant
                k <= CELLS,
                forall|j: int| 0 <= j < k ==> self.cells[j] == other.cells[j],
            decreases CELLS - k,
        {
            if self.cells[k] != other.cells[k] {
                assert(self@[k as int] != other@[k as int]);
                return false;
            }
            k += 1;
        }
        assert(self@ =~= other@);
        true
    }

    /// The occupancy of the board: the cells that hold a tile.
    pub fn shape(&self) -> (shape: Shape)
        ensures
            forall|k: int| 0 <= k < CELLS ==> shape.occupied(k) == (self@[k] != 0),
    {
        let mut held = [false; 16];
        let mut k: usize = 0;
        while k < CELLS
            invariant
                k <= CELLS,
                forall|j: int| 0 <= j < k ==> held[j] == (self.cells[j] != 0),
            decreases CELLS - k,
        {
            held[k] = self.cells[k] != 0;
            k += 1;
        }
        Shape::from_cells(&held)
    }
}

} // verus!
