//! Turns: a move, the tile that may appear after it, and the address of
//! the board that results.

use rand::rngs::ThreadRng;
use rand::seq::IndexedRandom;
use rand::Rng;
use vstd::prelude::*;
use crate::address::{Address, resolve, resolves};
use crate::board::{Board, Direction, is_cell_value, is_valid};
use crate::catalog::Catalog;
use crate::moves::{lemma_moved_valid, moved};
use crate::shape::CELLS;

verus! {

/// The generator of the calling thread, of the crate `rand`. Verus sees
/// nothing inside it.
#[verifier::external_type_specification]
#[verifier::external_body]
pub struct ExThreadRng(ThreadRng);

/// `rand::rng` hands out the generator of the calling thread. Nothing is
/// claimed of it.
pub assume_specification[ rand::rng ]() -> (rng: ThreadRng)
;

/// `IndexedRandom::choose` on a slice picks one of its elements at random,
/// and none where the slice is empty.
#[verifier::external_body]
fn choose_cell(cells: &Vec<usize>, rng: &mut ThreadRng) -> (picked: Option<usize>)
    ensures
        cells@.len() == 0 ==> picked is None,
        cells@.len() > 0 ==> picked is Some && cells@.contains(picked.unwrap()),
{
    cells.choose(rng).copied()
}

/// `Rng::random_range` on `0..10` draws one of the ten numbers from 0 to 9.
#[verifier::external_body]
fn roll_ten(rng: &mut ThreadRng) -> (roll: i32)
    ensures
        0 <= roll < 10,
{
    rng.random_range(0..10)
}

/// The test for an empty cell of `cells`.
pub open spec fn is_empty_in(cells: Seq<nat>) -> spec_fn(usize) -> bool {
    |k: usize| cells[k as int] == 0
}

/// The empty cells in scan order.
pub open spec fn empty_cells_of(cells: Seq<nat>) -> Seq<usize> {
    Seq::new(CELLS as nat, |k: int| k as usize).filter(is_empty_in(cells))
}

/// The tile that appears for a roll of the ten-sided die: 4 for a 0, which
/// is one roll in ten, and 2 for the others.
pub open spec fn spawn_value(roll: int) -> nat {
    if roll == 0 {
        4
    } else {
        2
    }
}

/// The board with the tile of `roll` in the picked cell; the board as it is
/// where no cell was picked.
pub open spec fn spawned(cells: Seq<nat>, picked: Option<usize>, roll: int) -> Seq<nat> {
    match picked {
        Some(k) => if k < CELLS {
            cells.update(k as int, spawn_value(roll))
        } else {
            cells
        },
        None => cells,
    }
}

/// Whether `next` is `cells` with one more tile, a 2 or a 4, in a cell that
/// was empty.
pub open spec fn one_tile_more(cells: Seq<nat>, next: Seq<nat>) -> bool {
    exists|k: int, tile: nat|
        0 <= k < CELLS && cells[k] == 0 && (tile == 2 || tile == 4) && next
            == #[trigger] cells.update(k, tile)
}

/// Whether `next` may follow `cells` in one turn towards `dir`: the tiles
/// are pushed; then, where tiles appear and the push changed the board and
/// left a cell empty, one tile appears in an empty cell.
pub open spec fn follows(cells: Seq<nat>, dir: Direction, spawn_tile: bool, next: Seq<nat>) -> bool {
    let pushed = moved(cells, dir);
    if spawn_tile && pushed != cells && empty_cells_of(pushed).len() > 0 {
        one_tile_more(pushed, next)
    } else {
        next == pushed
    }
}

impl Board {
    /// The empty cells in scan order.
    pub fn empty_cells(&self) -> (cells: Vec<usize>)
        ensures
            cells@ == empty_cells_of(self@),
    {
        let ghost all = Seq::new(CELLS as nat, |k: int| k as usize);
        let mut cells: Vec<usize> = Vec::new();
        let mut k: usize = 0;
        proof {
            reveal(Seq::filter);
            assert(all.take(0) =~= Seq::<usize>::empty());
        }
        while k < CELLS
            invariant
                k <= CELLS,
                all == Seq::new(CELLS as nat, |k: int| k as usize),
                cells@ == all.take(k as int).filter(is_empty_in(self@)),
            decreases CELLS - k,
        {
            proof {
                all.lemma_take_succ_push(k as int);
                all.take(k as int).lemma_filter_push(all[k as int], is_empty_in(self@));
            }
            if self.cells[k] == 0 {
                cells.push(k);
            }
            k += 1;
        }
        proof {
            all.lemma_take_len();
        }
        cells
    }

    /// Puts the tile of `roll` in the picked cell.
    pub fn spawn(&self, picked: Option<usize>, roll: i32) -> (next: Board)
        ensures
            next@ == spawned(self@, picked, roll as int),
    {
        match picked {
            Some(k) => {
                if k < CELLS {
                    let mut cells = self.cells;
                    cells[k] = if roll == 0 {
                        4
                    } else {
                        2
                    };
                    let next = Board { cells };
                    assert(next@ =~= spawned(self@, picked, roll as int));
                    next
                } else {
                    *self
                }
            },
            None => *self,
        }
    }
}

/// A board together with its address.
#[derive(Clone, Debug, PartialEq, Eq)]
pub struct Position {
    pub board: Board,
    pub address: Address,
}

/// A cell out of the empty cells is an empty cell.
pub proof fn lemma_empty_cell(cells: Seq<nat>, k: usize)
    requires
        cells.len() == CELLS,
        empty_cells_of(cells).contains(k),
    ensures
        k < CELLS,
        cells[k as int] == 0,
{
    let all = Seq::new(CELLS as nat, |k: int| k as usize);
    all.lemma_filter_contains_rev(is_empty_in(cells), k);
    let i = choose|i: int| 0 <= i < empty_cells_of(cells).len() && empty_cells_of(cells)[i] == k;
    all.lemma_filter_pred(is_empty_in(cells), i);
    let j = choose|j: int| 0 <= j < all.len() && all[j] == k;
    assert(all[j] == j);
}

/// Makes one turn towards `dir`: pushes the tiles and, where tiles appear
/// and the push changed the board, lets a 2 or, in one case of ten, a 4
/// appear in one of the empty cells, picked at random.
pub fn step(board: &Board, dir: Direction, spawn_tile: bool) -> (next: Board)
    requires
        board.move_fits(dir),
    ensures
        follows(board@, dir, spawn_tile, next@),
{
    let pushed = board.apply_move(dir);
    if spawn_tile && !pushed.same_as(board) {
        let empty = pushed.empty_cells();
        if empty.len() > 0 {
            let mut rng = rand::rng();
            let picked = choose_cell(&empty, &mut rng);
            let roll = roll_ten(&mut rng);
            let next = pushed.spawn(picked, roll);
            proof {
                let k = picked.unwrap();
                lemma_empty_cell(pushed@, k);
                assert(next@ == pushed@.update(k as int, spawn_value(roll as int)));
                assert(one_tile_more(pushed@, next@));
                assert(empty_cells_of(pushed@).len() > 0);
                assert(pushed@ != board@);
            }
            return next;
        }
    }
    pushed
}

/// Makes one turn and finds the address of the board that results; `None`
/// where the catalog has no address for it.
pub fn play(catalog: &Catalog, board: &Board, dir: Direction, spawn_tile: bool) -> (turn: Option<
    Position,
>)
    requires
        catalog.wf(),
        board.move_fits(dir),
    ensures
        match turn {
            Some(position) => {
                &&& follows(board@, dir, spawn_tile, position.board@)
                &&& resolves(catalog@, position.board@, Some(position.address))
            },
            None => exists|next: Seq<nat>|
                #[trigger] follows(board@, dir, spawn_tile, next) && resolves(
                    catalog@,
                    next,
                    None,
                ),
        },
{
    let next = step(board, dir, spawn_tile);
    match resolve(catalog, &next) {
        Some(address) => Some(Position { board: next, address }),
        None => {
            assert(follows(board@, dir, spawn_tile, next@) && resolves(catalog@, next@, None));
            None
        },
    }
}

/// Where tiles appear and the move changes the board, the turn leaves the
/// pushed board with exactly one tile more, a 2 or a 4, in a cell that the
/// push left empty; where the move changes nothing, the turn changes
/// nothing.
pub proof fn lemma_turn(cells: Seq<nat>, dir: Direction, spawn_tile: bool, next: Seq<nat>)
    requires
        cells.len() == CELLS,
        follows(cells, dir, spawn_tile, next),
    ensures
        moved(cells, dir) == cells ==> next == cells,
        !spawn_tile ==> next == moved(cells, dir),
        spawn_tile && moved(cells, dir) != cells && empty_cells_of(moved(cells, dir)).len() > 0
            ==> exists|k: int|
            0 <= k < CELLS && moved(cells, dir)[k] == 0 && (next[k] == 2 || next[k] == 4) && forall|
                j: int,
            |
                0 <= j < CELLS && j != k ==> next[j] == #[trigger] moved(cells, dir)[j],
{
    let pushed = moved(cells, dir);
    if spawn_tile && pushed != cells && empty_cells_of(pushed).len() > 0 {
        let (k, tile) = choose|k: int, tile: nat|
            0 <= k < CELLS && pushed[k] == 0 && (tile == 2 || tile == 4) && next
                == #[trigger] pushed.update(k, tile);
        assert(next[k] == 2 || next[k] == 4);
    }
}

/// A turn takes a board to a board: every cell is empty or holds a power of
/// 2 from 2 on, before the turn and after it.
pub proof fn lemma_turn_valid(cells: Seq<nat>, dir: Direction, spawn_tile: bool, next: Seq<nat>)
    requires
        is_valid(cells),
        follows(cells, dir, spawn_tile, next),
    ensures
        is_valid(next),
{
    let pushed = moved(cells, dir);
    lemma_moved_valid(cells, dir);
    vstd::arithmetic::power2::lemma2_to64();
    assert(is_cell_value(2)) by {
        assert(2 == vstd::arithmetic::power2::pow2(1));
    }
    assert(is_cell_value(4)) by {
        assert(4 == vstd::arithmetic::power2::pow2(2));
    }
    if spawn_tile && pushed != cells && empty_cells_of(pushed).len() > 0 {
        let (k, tile) = choose|k: int, tile: nat|
            0 <= k < CELLS && pushed[k] == 0 && (tile == 2 || tile == 4) && next
                == #[trigger] pushed.update(k, tile);
        assert forall|j: int| 0 <= j < CELLS implies is_cell_value(#[trigger] next[j]) by {
            if j != k {
                assert(next[j] == pushed[j]);
            }
        }
    }
}

} // verus!
