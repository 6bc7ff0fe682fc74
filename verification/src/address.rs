//! Addresses: from an address to its board, and from a board back to its
//! address.

use vstd::prelude::*;
use crate::board::{Board, tiles_of};
use crate::catalog::{
    Catalog, Entry, GroupView, answers, answers_in_group, entries_of, has_shape, is_first,
    lemma_place_of,
};
use crate::codec::{
    decode_local, encode, is_shape_of, lemma_tiles_rank, spelled, spells,
};
use crate::enumerate::{MASKS, is_exhaustive, lists_below};
use crate::error::{DecodeError, GlobalIdError};
use crate::shape::{CELLS, Shape, bit, lemma_shape_by_cells};
use crate::text::{chars_of, parse_number, parse_unsigned, trim_bounds, trimmed};

verus! {

/// The address of a board: the global id of its shape and the local id of
/// its tiles.
#[derive(Clone, Debug, PartialEq, Eq)]
pub struct Address {
    pub global_id: u64,
    pub local_id: String,
}

/// The id that a text gives: an unsigned decimal number between white space.
pub open spec fn global_id_of(text: Seq<char>) -> Option<nat> {
    parse_unsigned(trimmed(text), u64::MAX as nat)
}

/// Reads a text as a global id.
pub fn parse_global_id(text: &str) -> (id: Result<u64, GlobalIdError>)
    ensures
        match id {
            Ok(id) => global_id_of(text@) == Some(id as nat),
            Err(error) => error == GlobalIdError::NonInteger && global_id_of(text@) is None,
        },
{
    let chars = chars_of(text);
    proof {
        assert(chars@.subrange(0, chars@.len() as int) =~= chars@);
    }
    let (a, b) = trim_bounds(&chars, 0, chars.len());
    match parse_number(&chars, a, b, u64::MAX) {
        Some(id) => Ok(id),
        None => Err(GlobalIdError::NonInteger),
    }
}

/// Whether `decoded` is what the address of the two texts names in the
/// whole catalog: the id is read and looked up first, then the local id is
/// read against the shape of the entry.
pub open spec fn decodes(
    groups: Seq<GroupView>,
    global_id: Seq<char>,
    local_id: Seq<char>,
    decoded: Result<Board, DecodeError>,
) -> bool {
    match global_id_of(global_id) {
        None => decoded == Err::<Board, DecodeError>(
            DecodeError::GlobalId(GlobalIdError::NonInteger),
        ),
        Some(id) => match decoded {
            Ok(board) => exists|entry: Entry| #[trigger]
                answers(groups, id as u64, Ok(entry)) && spells(entry.shape, local_id, Ok(board)),
            Err(DecodeError::GlobalId(error)) => answers(groups, id as u64, Err(error)),
            Err(DecodeError::LocalId(error)) => exists|entry: Entry| #[trigger]
                answers(groups, id as u64, Ok(entry)) && spells(
                    entry.shape,
                    local_id,
                    Err(error),
                ),
        },
    }
}

/// Whether `decoded` is what the address of the two texts names among the
/// shapes with `t` tiles.
pub open spec fn decodes_in_group(
    groups: Seq<GroupView>,
    t: u32,
    global_id: Seq<char>,
    local_id: Seq<char>,
    decoded: Result<Board, DecodeError>,
) -> bool {
    match global_id_of(global_id) {
        None => decoded == Err::<Board, DecodeError>(
            DecodeError::GlobalId(GlobalIdError::NonInteger),
        ),
        Some(id) => match decoded {
            Ok(board) => exists|entry: Entry| #[trigger]
                answers_in_group(groups, t, id as u64, Ok(entry)) && spells(
                    entry.shape,
                    local_id,
                    Ok(board),
                ),
            Err(DecodeError::GlobalId(error)) => answers_in_group(
                groups,
                t,
                id as u64,
                Err(error),
            ),
            Err(DecodeError::LocalId(error)) => exists|entry: Entry| #[trigger]
                answers_in_group(groups, t, id as u64, Ok(entry)) && spells(
                    entry.shape,
                    local_id,
                    Err(error),
                ),
        },
    }
}

/// The board that an address names. The id is looked up in the whole
/// catalog.
pub fn decode(catalog: &Catalog, global_id: &str, local_id: &str) -> (decoded: Result<
    Board,
    DecodeError,
>)
    requires
        catalog.wf(),
    ensures
        decodes(catalog@, global_id@, local_id@, decoded),
{
    let id = match parse_global_id(global_id) {
        Ok(id) => id,
        Err(error) => {
            return Err(DecodeError::GlobalId(error));
        },
    };
    let entry = match catalog.entry(id) {
        Ok(entry) => entry,
        Err(error) => {
            return Err(DecodeError::GlobalId(error));
        },
    };
    let ghost given = global_id_of(global_id@).unwrap();
    match decode_local(&entry.shape, local_id) {
        Ok(board) => {
            assert(answers(catalog@, given as u64, Ok(entry)) && spells(
                entry.shape,
                local_id@,
                Ok(board),
            ));
            Ok(board)
        },
        Err(error) => {
            assert(answers(catalog@, given as u64, Ok(entry)) && spells(
                entry.shape,
                local_id@,
                Err(error),
            ));
            Err(DecodeError::LocalId(error))
        },
    }
}

/// The board that an address names among the shapes with `t` tiles. The
/// id is judged against the range of `t`.
pub fn decode_in_group(catalog: &Catalog, t: u32, global_id: &str, local_id: &str) -> (decoded:
    Result<Board, DecodeError>)
    requires
        catalog.wf(),
    ensures
        decodes_in_group(catalog@, t, global_id@, local_id@, decoded),
{
    let id = match parse_global_id(global_id) {
        Ok(id) => id,
        Err(error) => {
            return Err(DecodeError::GlobalId(error));
        },
    };
    let entry = match catalog.entry_in_group(t, id) {
        Ok(entry) => entry,
        Err(error) => {
            return Err(DecodeError::GlobalId(error));
        },
    };
    let ghost given = global_id_of(global_id@).unwrap();
    match decode_local(&entry.shape, local_id) {
        Ok(board) => {
            assert(answers_in_group(catalog@, t, given as u64, Ok(entry)) && spells(
                entry.shape,
                local_id@,
                Ok(board),
            ));
            Ok(board)
        },
        Err(error) => {
            assert(answers_in_group(catalog@, t, given as u64, Ok(entry)) && spells(
                entry.shape,
                local_id@,
                Err(error),
            ));
            Err(DecodeError::LocalId(error))
        },
    }
}

/// The occupancy of some cells.
pub open spec fn shape_of(cells: Seq<nat>) -> Shape {
    choose|shape: Shape| is_shape_of(shape, cells)
}

/// Whether `answer` is the address of the board in the catalog: the id of
/// the first entry, among the shapes with as many tiles as the board has,
/// whose shape is the occupancy of the board, and the local id that spells
/// the tiles; `None` where that group holds no such entry.
pub open spec fn resolves(groups: Seq<GroupView>, cells: Seq<nat>, answer: Option<Address>) -> bool {
    let entries = entries_of(groups, tiles_of(cells).len() as u32);
    match answer {
        Some(address) => {
            &&& is_first(
                entries,
                has_shape(shape_of(cells)),
                Some(Entry { global_id: address.global_id, shape: shape_of(cells) }),
            )
            &&& address.local_id@ == spelled(cells)
        },
        None => is_first(entries, has_shape(shape_of(cells)), None),
    }
}

/// The occupancy of sixteen cells is the one shape that holds a tile where
/// they do.
pub proof fn lemma_shape_of(shape: Shape, cells: Seq<nat>)
    requires
        is_shape_of(shape, cells),
    ensures
        shape_of(cells) == shape,
{
    lemma_shape_by_cells(shape, shape_of(cells));
}

/// Finds the address of a board: its shape is looked up, by equality, among
/// the shapes with as many tiles as the board has.
pub fn resolve(catalog: &Catalog, board: &Board) -> (answer: Option<Address>)
    requires
        catalog.wf(),
    ensures
        resolves(catalog@, board@, answer),
{
    let encoded = encode(board);
    proof {
        lemma_shape_of(encoded.shape, board@);
    }
    match catalog.shape_in_group(encoded.count as u32, encoded.shape) {
        Some(entry) => Some(Address { global_id: entry.global_id, local_id: encoded.local_id }),
        None => None,
    }
}

/// Where the group of the board's number of tiles lists the occupancy of the
/// board, the resolver finds an address: its id is that of an entry of the
/// group whose shape is the occupancy, cell for cell, and its local id
/// spells the tiles of the board.
pub proof fn lemma_resolve_finds(groups: Seq<GroupView>, cells: Seq<nat>, answer: Option<Address>)
    requires
        cells.len() == CELLS,
        resolves(groups, cells, answer),
        exists|i: int|
            0 <= i < entries_of(groups, tiles_of(cells).len() as u32).len() && (
            #[trigger] entries_of(groups, tiles_of(cells).len() as u32)[i]).shape == shape_of(
                cells,
            ),
    ensures
        answer is Some,
        is_shape_of(shape_of(cells), cells),
        answer.unwrap().local_id@ == spelled(cells),
        exists|i: int|
            0 <= i < entries_of(groups, tiles_of(cells).len() as u32).len() && (
            #[trigger] entries_of(groups, tiles_of(cells).len() as u32)[i]) == (Entry {
                global_id: answer.unwrap().global_id,
                shape: shape_of(cells),
            }),
{
    lemma_occupancy_exists(cells);
}

/// Sixteen cells have an occupancy.
pub proof fn lemma_occupancy_exists(cells: Seq<nat>)
    requires
        cells.len() == CELLS,
    ensures
        is_shape_of(shape_of(cells), cells),
{
    let held = Seq::new(CELLS as nat, |k: int| cells[k] != 0);
    let mask = crate::shape::lemma_mask_exists(held);
    let shape = Shape { mask };
    assert forall|k: int| 0 <= k < CELLS implies shape.occupied(k) == (cells[k] != 0) by {
        assert(bit(mask as nat, k as nat) == held[k]);
    }
    assert(is_shape_of(shape, cells));
}

/// The exhaustive catalog lists the occupancy of every board in the group
/// of the board's number of tiles, so the resolver finds every board.
pub proof fn lemma_exhaustive_resolves(groups: Seq<GroupView>, cells: Seq<nat>)
    requires
        is_exhaustive(groups),
        cells.len() == CELLS,
    ensures
        exists|i: int|
            0 <= i < entries_of(groups, tiles_of(cells).len() as u32).len() && (
            #[trigger] entries_of(groups, tiles_of(cells).len() as u32)[i]).shape == shape_of(
                cells,
            ),
{
    lemma_occupancy_exists(cells);
    let shape = shape_of(cells);
    lemma_tiles_rank(shape, cells, CELLS as int);
    assert(cells.take(CELLS as int) =~= cells);
    crate::shape::lemma_count_is_popcount(shape);
    let t = tiles_of(cells).len() as u32;
    assert(shape.count() == t);
    assert forall|j: int| 0 <= j < t implies groups[j].t < t by {
        assert(groups[j].t == j);
    }
    assert(groups[t as int].t == t);
    lemma_place_of(groups, t, t as int);
    let entries = groups[t as int].entries;
    assert(lists_below(entries, t as nat, crate::catalog::first_id(groups, t as int), MASKS as nat));
    assert(shape.count() == t && shape.mask < MASKS);
    let j = choose|j: int| 0 <= j < entries.len() && (#[trigger] entries[j]).shape == shape;
    assert(entries_of(groups, t)[j].shape == shape);
}

} // verus!
