//! The outcomes that the operations on addresses and catalogs report.

use vstd::prelude::*;

verus! {

/// Why a text does not name a shape of the catalog.
#[derive(Clone, Copy, Debug, PartialEq, Eq, Structural)]
pub enum GlobalIdError {
    /// The text is no unsigned decimal number.
    NonInteger,
    /// The id lies before the first id of the range.
    BelowRange { id: u64, first: u64 },
    /// The id lies behind the last id of the range.
    AboveRange { id: u64, last: u64 },
    /// The id lies in the range, but no entry there carries it: the catalog
    /// is damaged.
    Unlisted { id: u64 },
}

/// Why a text does not spell the tiles of a shape.
#[derive(Clone, Copy, Debug, PartialEq, Eq, Structural)]
pub enum LocalIdError {
    /// The text has another number of symbols than the shape has tiles.
    LengthMismatch { expected: usize, actual: usize },
    /// The text holds a symbol that stands for no tile; `symbol` is the first.
    InvalidSymbol { symbol: char },
    /// The text holds the symbol of the highest tile more than once.
    MultipleHighTileSymbols,
}

/// Why an address names no board.
#[derive(Clone, Copy, Debug, PartialEq, Eq, Structural)]
pub enum DecodeError {
    GlobalId(GlobalIdError),
    LocalId(LocalIdError),
}

/// Why no catalog could be had from its store.
#[derive(Clone, Copy, Debug, PartialEq, Eq, Structural)]
pub enum CatalogLoadError {
    /// The stored text breaks the catalog format.
    Malformed,
    /// The stored text could not be read.
    Unreadable,
}

} // verus!
