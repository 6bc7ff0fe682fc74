//! The slide-and-merge rule for one line, and the moves of a whole board.

use vstd::prelude::*;
use vstd::arithmetic::power2::{pow2, lemma_pow2_unfold};
use crate::board::{Board, Direction, is_cell_value, is_tile, is_valid, tiles_of};
use crate::shape::{CELLS, SIDE};

verus! {

/// The tiles of a line pushed together at its front.
pub open spec fn slide(line: Seq<nat>) -> Seq<nat> {
    tiles_of(line)
}

/// Merges equal neighbours from the front on, each tile at most once: a
/// merged tile does not merge again with the one after it.
pub open spec fn merge(tiles: Seq<nat>) -> Seq<nat>
    decreases tiles.len(),
{
    if tiles.len() == 0 {
        Seq::empty()
    } else if tiles.len() >= 2 && tiles[0] == tiles[1] {
        seq![2 * tiles[0]] + merge(tiles.skip(2))
    } else {
        seq![tiles[0]] + merge(tiles.skip(1))
    }
}

/// `tiles` followed by empty cells up to the length `len`.
pub open spec fn pad(tiles: Seq<nat>, len: nat) -> Seq<nat> {
    Seq::new(
        len,
        |j: int|
            if j < tiles.len() {
                tiles[j]
            } else {
                0
            },
    )
}

/// What a line becomes when its tiles are pushed towards its front.
pub open spec fn slide_and_merge(line: Seq<nat>) -> Seq<nat> {
    pad(merge(slide(line)), line.len())
}

/// Whether every value fits in a cell.
pub open spec fn fits(values: Seq<nat>) -> bool {
    forall|j: int| 0 <= j < values.len() ==> values[j] <= u32::MAX
}

/// The values of a line of four cells.
pub open spec fn line_view(line: [u32; 4]) -> Seq<nat> {
    Seq::new(SIDE as nat, |j: int| line[j] as nat)
}

/// The largest value that fits in a cell.
pub const CELL_MAX: u64 = 0xffff_ffff;

/// The values of a line of four cells that was computed in 64 bits.
pub open spec fn wide_view(line: [u64; 4]) -> Seq<nat> {
    Seq::new(SIDE as nat, |j: int| line[j] as nat)
}

/// The line rule in 64 bits, where twice a cell's value always fits.
fn slide_and_merge_wide(line: [u32; 4]) -> (out: [u64; 4])
    ensures
        wide_view(out) == slide_and_merge(line_view(line)),
{
    let ghost cells = line_view(line);
    let mut packed = [0u32; 4];
    let mut n: usize = 0;
    let mut i: usize = 0;
    proof {
        reveal(Seq::filter);
        assert(cells.take(0) =~= Seq::<nat>::empty());
    }
    while i < SIDE
        invariant
            i <= SIDE,
            n <= i,
            cells == line_view(line),
            n == slide(cells.take(i as int)).len(),
            forall|j: int| 0 <= j < n ==> packed[j] as nat == slide(cells.take(i as int))[j],
        decreases SIDE - i,
    {
        proof {
            cells.lemma_take_succ_push(i as int);
            cells.take(i as int).lemma_filter_push(cells[i as int], is_tile());
        }
        if line[i] != 0 {
            packed[n] = line[i];
            n += 1;
        }
        i += 1;
    }
    let ghost tiles = slide(cells);
    proof {
        cells.lemma_take_len();
    }
    let mut out = [0u64; 4];
    let mut m: usize = 0;
    let mut i: usize = 0;
    proof {
        assert(tiles.skip(0) =~= tiles);
        assert(Seq::new(0, |j: int| out[j] as nat) + merge(tiles) =~= merge(tiles));
    }
    while i < n
        invariant
            i <= n <= SIDE,
            m <= i,
            tiles.len() == n,
            forall|j: int| 0 <= j < n ==> packed[j] as nat == tiles[j],
            merge(tiles) == Seq::new(m as nat, |j: int| out[j] as nat) + merge(tiles.skip(i as int)),
            forall|j: int| m <= j < SIDE ==> out[j] == 0,
        decreases n - i,
    {
        let ghost done = Seq::new(m as nat, |j: int| out[j] as nat);
        let ghost rest = tiles.skip(i as int);
        proof {
            assert(rest[0] == tiles[i as int]);
        }
        if i + 1 < n && packed[i] == packed[i + 1] {
            proof {
                assert(rest[1] == tiles[i + 1]);
                assert(rest.skip(2) =~= tiles.skip(i + 2));
            }
            out[m] = 2 * (packed[i] as u64);
            i += 2;
        } else {
            proof {
                assert(rest.len() >= 2 ==> rest[1] == tiles[i + 1]);
                assert(rest.skip(1) =~= tiles.skip(i + 1));
            }
            out[m] = packed[i] as u64;
            i += 1;
        }
        m += 1;
        proof {
            assert(Seq::new(m as nat, |j: int| out[j] as nat) =~= done.push(merge(rest)[0]));
            assert(merge(tiles) =~= Seq::new(m as nat, |j: int| out[j] as nat) + merge(
                tiles.skip(i as int),
            ));
        }
    }
    proof {
        assert(merge(tiles.skip(i as int)) =~= Seq::<nat>::empty());
        assert(merge(tiles) =~= Seq::new(m as nat, |j: int| out[j] as nat));
        assert(wide_view(out) =~= slide_and_merge(cells));
    }
    out
}

/// Pushes the tiles of `line` towards its front: the empty cells go, equal
/// neighbours merge into one tile of twice the value, and the line is filled
/// up with empty cells.
pub fn slide_and_merge_line(line: [u32; 4]) -> (out: [u32; 4])
    requires
        fits(slide_and_merge(line_view(line))),
    ensures
        line_view(out) == slide_and_merge(line_view(line)),
{
    let wide = slide_and_merge_wide(line);
    proof {
        assert forall|j: int| 0 <= j < SIDE implies wide[j] <= u32::MAX by {
            assert(wide_view(wide)[j] == wide[j]);
        }
    }
    let out = [wide[0] as u32, wide[1] as u32, wide[2] as u32, wide[3] as u32];
    assert(line_view(out) =~= wide_view(wide));
    out
}

/// The cell that comes `place`-th in line `line` when the tiles are pushed
/// towards `dir`, counted from the wall that they are pushed to. The lines are
/// the rows for `Left` and `Right`, the columns for `Up` and `Down`.
pub open spec fn line_cell(dir: Direction, line: int, place: int) -> int {
    match dir {
        Direction::Left => 4 * line + place,
        Direction::Right => 4 * line + (3 - place),
        Direction::Up => 4 * place + line,
        Direction::Down => 4 * (3 - place) + line,
    }
}

/// The line that cell `k` lies in.
pub open spec fn cell_line(dir: Direction, k: int) -> int {
    match dir {
        Direction::Left | Direction::Right => k / 4,
        Direction::Up | Direction::Down => k % 4,
    }
}

/// The place of cell `k` in its line, counted from the wall.
pub open spec fn cell_place(dir: Direction, k: int) -> int {
    match dir {
        Direction::Left => k % 4,
        Direction::Right => 3 - k % 4,
        Direction::Up => k / 4,
        Direction::Down => 3 - k / 4,
    }
}

/// The values of line `line`, from the wall on.
pub open spec fn line_of(cells: Seq<nat>, dir: Direction, line: int) -> Seq<nat> {
    Seq::new(SIDE as nat, |place: int| cells[line_cell(dir, line, place)])
}

/// The board after its tiles were pushed towards `dir`: each of the four
/// lines is slid and merged by itself.
pub open spec fn moved(cells: Seq<nat>, dir: Direction) -> Seq<nat> {
    Seq::new(
        CELLS as nat,
        |k: int| slide_and_merge(line_of(cells, dir, cell_line(dir, k)))[cell_place(dir, k)],
    )
}

/// The index of the cell that comes `place`-th in line `line`.
fn cell_index(dir: Direction, line: usize, place: usize) -> (k: usize)
    requires
        line < SIDE,
        place < SIDE,
    ensures
        k == line_cell(dir, line as int, place as int),
        k < CELLS,
        cell_line(dir, k as int) == line,
        cell_place(dir, k as int) == place,
{
    match dir {
        Direction::Left => 4 * line + place,
        Direction::Right => 4 * line + (3 - place),
        Direction::Up => 4 * place + line,
        Direction::Down => 4 * (3 - place) + line,
    }
}

impl Board {
    /// Whether the tiles that a move towards `dir` makes all fit in a cell.
    pub open spec fn move_fits(&self, dir: Direction) -> bool {
        fits(moved(self@, dir))
    }

    /// Pushes the tiles towards `dir`, unless a merged tile would not fit in
    /// a cell.
    pub fn checked_move(&self, dir: Direction) -> (next: Option<Board>)
        ensures
            next is Some <==> self.move_fits(dir),
            next matches Some(board) ==> board@ == moved(self@, dir),
    {
        let mut cells = [0u32; 16];
        let mut line: usize = 0;
        while line < SIDE
            invariant
                line <= SIDE,
                forall|l: int, j: int|
                    0 <= l < line && 0 <= j < SIDE ==> cells[#[trigger] line_cell(dir, l, j)]
                        == moved(self@, dir)[line_cell(dir, l, j)],
            decreases SIDE - line,
        {
            let at = [
                cell_index(dir, line, 0),
                cell_index(dir, line, 1),
                cell_index(dir, line, 2),
                cell_index(dir, line, 3),
            ];
            let row = [self.cells[at[0]], self.cells[at[1]], self.cells[at[2]], self.cells[at[3]]];
            let wide = slide_and_merge_wide(row);
            proof {
                assert(line_view(row) =~= line_of(self@, dir, line as int));
                assert forall|j: int| 0 <= j < SIDE implies moved(self@, dir)[at[j] as int]
                    == wide[j] by {
                    assert(wide_view(wide)[j] == wide[j]);
                }
            }
            if wide[0] > CELL_MAX || wide[1] > CELL_MAX || wide[2] > CELL_MAX || wide[3]
                > CELL_MAX {
                return None;
            }
            let ghost before = cells;
            cells[at[0]] = wide[0] as u32;
            cells[at[1]] = wide[1] as u32;
            cells[at[2]] = wide[2] as u32;
            cells[at[3]] = wide[3] as u32;
            proof {
                assert forall|l: int, j: int| 0 <= l < line + 1 && 0 <= j < SIDE implies cells[
                #[trigger] line_cell(dir, l, j)] == moved(self@, dir)[line_cell(dir, l, j)] by {
                    let k = line_cell(dir, l, j);
                    if l == line {
                        assert(k == at[j]);
                    } else {
                        assert(cells[k] == before[k]);
                    }
                }
            }
            line += 1;
        }
        let next = Board { cells };
        proof {
            assert forall|k: int| 0 <= k < CELLS implies next@[k] == moved(self@, dir)[k] by {
                assert(line_cell(dir, cell_line(dir, k), cell_place(dir, k)) == k);
            }
            assert(next@ =~= moved(self@, dir));
        }
        Some(next)
    }

    /// Pushes the tiles towards `dir`.
    pub fn apply_move(&self, dir: Direction) -> (next: Board)
        requires
            self.move_fits(dir),
        ensures
            next@ == moved(self@, dir),
    {
        self.checked_move(dir).unwrap()
    }
}

/// Whether a line is at rest: its tiles stand together at its front, and no
/// two neighbours among them are equal.
pub open spec fn is_settled(line: Seq<nat>) -> bool {
    &&& forall|i: int, j: int| 0 <= i < j < line.len() && line[i] == 0 ==> line[j] == 0
    &&& forall|i: int| 0 <= i < line.len() - 1 && #[trigger] line[i] != 0 ==> line[i] != line[i + 1]
}

/// Tiles of which no two neighbours are equal do not merge.
pub proof fn lemma_merge_distinct(tiles: Seq<nat>)
    requires
        forall|i: int| 0 <= i < tiles.len() - 1 ==> #[trigger] tiles[i] != tiles[i + 1],
    ensures
        merge(tiles) == tiles,
    decreases tiles.len(),
{
    if tiles.len() > 0 {
        let rest = tiles.skip(1);
        assert forall|i: int| 0 <= i < rest.len() - 1 implies #[trigger] rest[i] != rest[i + 1] by {
            assert(tiles[i + 1] != tiles[i + 2]);
        }
        lemma_merge_distinct(rest);
        assert(tiles.len() >= 2 ==> tiles[0] != tiles[1]);
        assert(seq![tiles[0]] + rest =~= tiles);
    }
}

/// The tiles of a line whose tiles stand at its front are its first cells.
pub proof fn lemma_tiles_of_packed(line: Seq<nat>)
    requires
        forall|i: int, j: int| 0 <= i < j < line.len() && line[i] == 0 ==> line[j] == 0,
    ensures
        tiles_of(line) == line.take(tiles_of(line).len() as int),
        forall|i: int| tiles_of(line).len() <= i < line.len() ==> line[i] == 0,
        forall|i: int| 0 <= i < tiles_of(line).len() ==> line[i] != 0,
    decreases line.len(),
{
    reveal(Seq::filter);
    line.lemma_filter_len(is_tile());
    if line.len() > 0 {
        let front = line.drop_last();
        let last = line.len() - 1;
        assert forall|i: int, j: int| 0 <= i < j < front.len() && front[i] == 0 implies front[j]
            == 0 by {
            assert(line[i] == 0 ==> line[j] == 0);
        }
        lemma_tiles_of_packed(front);
        front.lemma_filter_len(is_tile());
        let n = tiles_of(front).len() as int;
        if line[last] != 0 {
            assert forall|i: int| 0 <= i < front.len() implies front[i] != 0 by {
                if front[i] == 0 {
                    assert(line[i] == 0 ==> line[last] == 0);
                }
            }
            if n < front.len() {
                assert(front[n] == 0);
            }
            assert(tiles_of(line) == tiles_of(front).push(line[last]));
            assert forall|i: int| 0 <= i < tiles_of(line).len() implies line[i] != 0 by {
                if i < last {
                    assert(front[i] != 0);
                }
            }
        } else {
            assert(tiles_of(line) == tiles_of(front));
            assert forall|i: int| n <= i < line.len() implies line[i] == 0 by {
                if i < last {
                    assert(front[i] == 0);
                }
            }
            assert forall|i: int| 0 <= i < n implies line[i] != 0 by {
                assert(front[i] != 0);
            }
        }
        assert(tiles_of(line) =~= line.take(tiles_of(line).len() as int)) by {
            assert(tiles_of(front) == front.take(n));
        }
    }
}

/// A line at rest stays as it is when its tiles are pushed to its front.
pub proof fn lemma_settled_line_stays(line: Seq<nat>)
    requires
        is_settled(line),
    ensures
        slide_and_merge(line) == line,
{
    lemma_tiles_of_packed(line);
    let tiles = tiles_of(line);
    line.lemma_filter_len(is_tile());
    assert forall|i: int| 0 <= i < tiles.len() - 1 implies #[trigger] tiles[i] != tiles[i + 1] by {
        assert(line[i] != 0);
        assert(line[i] != line[i + 1]);
    }
    lemma_merge_distinct(tiles);
    assert(slide_and_merge(line) =~= line);
}

/// A move towards `dir` changes nothing on a board whose four lines in that
/// direction are at rest: pushing twice is pushing once, and both leave the
/// board as it was.
pub proof fn lemma_settled_board_stays(cells: Seq<nat>, dir: Direction)
    requires
        cells.len() == CELLS,
        forall|line: int| 0 <= line < SIDE ==> is_settled(#[trigger] line_of(cells, dir, line)),
    ensures
        moved(cells, dir) == cells,
        moved(moved(cells, dir), dir) == cells,
{
    assert forall|k: int| 0 <= k < CELLS implies moved(cells, dir)[k] == cells[k] by {
        let line = cell_line(dir, k);
        lemma_settled_line_stays(line_of(cells, dir, line));
        assert(line_cell(dir, line, cell_place(dir, k)) == k);
    }
    assert(moved(cells, dir) =~= cells);
}

/// Whether no value is above `bound`.
pub open spec fn bounded(values: Seq<nat>, bound: nat) -> bool {
    forall|j: int| 0 <= j < values.len() ==> values[j] <= bound
}

/// The tiles of a line are not larger than its cells.
pub proof fn lemma_slide_bounded(line: Seq<nat>, bound: nat)
    requires
        bounded(line, bound),
    ensures
        bounded(slide(line), bound),
    decreases line.len(),
{
    reveal(Seq::filter);
    if line.len() > 0 {
        let front = line.drop_last();
        assert forall|j: int| 0 <= j < front.len() implies front[j] <= bound by {
            assert(line[j] <= bound);
        }
        lemma_slide_bounded(front, bound);
        assert(line.last() == line[line.len() - 1]);
    }
}

/// A merged line holds nothing larger than twice its largest tile.
pub proof fn lemma_merge_bounded(tiles: Seq<nat>, bound: nat)
    requires
        bounded(tiles, bound),
    ensures
        bounded(merge(tiles), 2 * bound),
    decreases tiles.len(),
{
    if tiles.len() == 0 {
    } else {
        let rest = if tiles.len() >= 2 && tiles[0] == tiles[1] {
            tiles.skip(2)
        } else {
            tiles.skip(1)
        };
        assert forall|j: int| 0 <= j < rest.len() implies rest[j] <= bound by {
            assert(tiles[j + 1] <= bound);
            assert(tiles.len() >= 2 ==> tiles[j + 2] <= bound || j + 2 >= tiles.len());
        }
        lemma_merge_bounded(rest, bound);
        assert(tiles[0] <= bound);
    }
}

/// A move fits in the cells where every tile is below `2^31`.
pub proof fn lemma_small_tiles_fit(cells: Seq<nat>, dir: Direction)
    requires
        cells.len() == CELLS,
        bounded(cells, 0x7fff_ffff),
    ensures
        fits(moved(cells, dir)),
{
    assert forall|k: int| 0 <= k < CELLS implies moved(cells, dir)[k] <= u32::MAX by {
        let line = line_of(cells, dir, cell_line(dir, k));
        assert forall|j: int| 0 <= j < line.len() implies line[j] <= 0x7fff_ffff by {
            assert(cells[line_cell(dir, cell_line(dir, k), j)] <= 0x7fff_ffff);
        }
        lemma_slide_bounded(line, 0x7fff_ffff);
        lemma_merge_bounded(slide(line), 0x7fff_ffff);
    }
}

/// Twice a tile is a tile.
pub proof fn lemma_double_tile(value: nat)
    requires
        is_cell_value(value),
    ensures
        is_cell_value(2 * value),
{
    if value != 0 {
        let exponent = choose|exponent: nat| exponent >= 1 && value == #[trigger] pow2(exponent);
        lemma_pow2_unfold(exponent + 1);
        assert(2 * value == pow2(exponent + 1));
    }
}

/// Whether each of the values is empty or a tile.
pub open spec fn all_cell_values(values: Seq<nat>) -> bool {
    forall|j: int| 0 <= j < values.len() ==> is_cell_value(#[trigger] values[j])
}

/// Sliding keeps tiles tiles.
proof fn lemma_slide_tiles(line: Seq<nat>)
    requires
        all_cell_values(line),
    ensures
        all_cell_values(slide(line)),
    decreases line.len(),
{
    reveal(Seq::filter);
    if line.len() > 0 {
        let front = line.drop_last();
        assert forall|j: int| 0 <= j < front.len() implies is_cell_value(#[trigger] front[j]) by {
            assert(front[j] == line[j]);
        }
        lemma_slide_tiles(front);
        assert(line.last() == line[line.len() - 1]);
    }
}

/// Merging keeps tiles tiles.
proof fn lemma_merge_tiles(tiles: Seq<nat>)
    requires
        all_cell_values(tiles),
    ensures
        all_cell_values(merge(tiles)),
    decreases tiles.len(),
{
    if tiles.len() > 0 {
        let rest = if tiles.len() >= 2 && tiles[0] == tiles[1] {
            tiles.skip(2)
        } else {
            tiles.skip(1)
        };
        assert forall|j: int| 0 <= j < rest.len() implies is_cell_value(#[trigger] rest[j]) by {
            if tiles.len() >= 2 && tiles[0] == tiles[1] {
                assert(rest[j] == tiles[j + 2]);
            } else {
                assert(rest[j] == tiles[j + 1]);
            }
        }
        lemma_merge_tiles(rest);
        assert(is_cell_value(tiles[0]));
        lemma_double_tile(tiles[0]);
    }
}

/// A move takes a board to a board: every cell is empty or holds a power of
/// 2 from 2 on, before the move and after it.
pub proof fn lemma_moved_valid(cells: Seq<nat>, dir: Direction)
    requires
        is_valid(cells),
    ensures
        is_valid(moved(cells, dir)),
{
    assert forall|k: int| 0 <= k < CELLS implies is_cell_value(#[trigger] moved(cells, dir)[k]) by {
        let line = line_of(cells, dir, cell_line(dir, k));
        assert forall|j: int| 0 <= j < line.len() implies is_cell_value(#[trigger] line[j]) by {
            assert(is_cell_value(cells[line_cell(dir, cell_line(dir, k), j)]));
        }
        lemma_slide_tiles(line);
        lemma_merge_tiles(slide(line));
        let merged = merge(slide(line));
        let place = cell_place(dir, k);
        if place < merged.len() {
            assert(is_cell_value(merged[place]));
        }
    }
}

} // verus!
