//! The codec between local ids and the tiles of a board.
//!
//! A local id spells the tiles of a board in scan order, one symbol for each
//! tile: `1` to `9` for the tiles 2 to 512, `A` for 1024 and `B` for 2048. The
//! symbol's value is the tile's exponent.

use vstd::prelude::*;
use vstd::arithmetic::logarithm::{log, lemma_log0, lemma_log_s};
use vstd::arithmetic::power2::{pow2, lemma_pow2_strictly_increases, lemma2_to64};
use vstd::bits::lemma_u32_shl_is_mul;
use vstd::std_specs::iter::IteratorSpec;
use vstd::string::StringExecFns;
use crate::board::{Board, is_cell_value, is_tile, is_valid, tiles_of};
use crate::error::LocalIdError;
use crate::shape::{CELLS, Shape, bits_below, lemma_bits_below_bound};

verus! {

/// The exponent that a symbol stands for, if it is one of the eleven symbols.
pub open spec fn symbol_exponent(symbol: char) -> Option<nat> {
    if '1' <= symbol <= '9' {
        Some((symbol as u32 - '0' as u32) as nat)
    } else if symbol == 'A' {
        Some(10)
    } else if symbol == 'B' {
        Some(11)
    } else {
        None
    }
}

/// The symbol of an exponent; `?` where the exponent has none.
pub open spec fn exponent_symbol(exponent: nat) -> char {
    if 1 <= exponent <= 9 {
        ('0' as u32 + exponent) as char
    } else if exponent == 10 {
        'A'
    } else if exponent == 11 {
        'B'
    } else {
        '?'
    }
}

/// The test for the symbol of the highest tile.
pub open spec fn is_high_tile() -> spec_fn(char) -> bool {
    |symbol: char| symbol == 'B'
}

/// Whether each symbol of the text is one of the eleven.
pub open spec fn well_spelled(text: Seq<char>) -> bool {
    forall|i: int| 0 <= i < text.len() ==> symbol_exponent(#[trigger] text[i]) is Some
}

/// How often the text holds the symbol of the highest tile.
pub open spec fn high_tiles(text: Seq<char>) -> nat {
    text.filter(is_high_tile()).len()
}

/// Whether the text is a local id: eleven-symbol text with at most one `B`.
pub open spec fn is_local_id(text: Seq<char>) -> bool {
    well_spelled(text) && high_tiles(text) <= 1
}

/// The exponents that a well spelled text stands for.
pub open spec fn exponents_of(text: Seq<char>) -> Seq<nat> {
    Seq::new(text.len(), |i: int| symbol_exponent(text[i]).unwrap())
}

/// The exponent of a symbol, unless it is none of the eleven.
pub fn symbol_value(symbol: char) -> (exponent: Option<u32>)
    ensures
        match exponent {
            Some(e) => symbol_exponent(symbol) == Some(e as nat),
            None => symbol_exponent(symbol) is None,
        },
{
    if '1' <= symbol && symbol <= '9' {
        Some(symbol as u32 - '0' as u32)
    } else if symbol == 'A' {
        Some(10)
    } else if symbol == 'B' {
        Some(11)
    } else {
        None
    }
}

/// Reads a text of symbols as tile exponents. A symbol that is none of the
/// eleven is reported first, then a second `B`.
pub fn parse_base11(text: &str) -> (parsed: Result<Vec<u32>, LocalIdError>)
    ensures
        match parsed {
            Ok(exponents) => {
                &&& is_local_id(text@)
                &&& exponents@.len() == text@.len()
                &&& forall|i: int|
                    0 <= i < text@.len() ==> exponents[i] as nat == exponents_of(text@)[i]
            },
            Err(LocalIdError::InvalidSymbol { symbol }) => exists|i: int|
                0 <= i < text@.len() && text@[i] == symbol && symbol_exponent(symbol) is None
                    && well_spelled(text@.take(i)),
            Err(LocalIdError::MultipleHighTileSymbols) => well_spelled(text@) && high_tiles(text@)
                > 1,
            Err(LocalIdError::LengthMismatch { .. }) => false,
        },
{
    let mut exponents: Vec<u32> = Vec::new();
    let mut high: usize = 0;
    proof {
        reveal(Seq::filter);
        assert(text@.take(0) =~= Seq::<char>::empty());
    }
    for symbol in it: text.chars()
        invariant
            it.seq() == text@,
            well_spelled(text@.take(it.index())),
            exponents@.len() == it.index(),
            forall|i: int| 0 <= i < it.index() ==> exponents[i] as nat == exponents_of(text@)[i],
            high == high_tiles(text@.take(it.index())),
            high <= it.index(),
    {
        let ghost at = it.index();
        proof {
            text@.lemma_take_succ_push(at);
            text@.take(at).lemma_filter_push(text@[at], is_high_tile());
        }
        match symbol_value(symbol) {
            Some(exponent) => {
                exponents.push(exponent);
                if symbol == 'B' {
                    assert(exponents.len() <= usize::MAX);
                    high += 1;
                }
            },
            None => {
                return Err(LocalIdError::InvalidSymbol { symbol });
            },
        }
    }
    proof {
        text@.lemma_take_len();
    }
    if high > 1 {
        Err(LocalIdError::MultipleHighTileSymbols)
    } else {
        Ok(exponents)
    }
}

/// The largest exponent whose tile fits in a cell.
pub const MAX_EXPONENT: u32 = 31;

/// The board that holds, in the occupied cells of `shape` in scan order, the
/// tiles with the given exponents, and nothing elsewhere.
pub open spec fn placed(shape: Shape, exponents: Seq<nat>) -> Seq<nat> {
    Seq::new(
        CELLS as nat,
        |k: int|
            if shape.occupied(k) {
                pow2(exponents[shape.rank(k) as int])
            } else {
                0
            },
    )
}

/// The number of set bits among the lowest `k` grows with `k`.
pub proof fn lemma_bits_below_grows(mask: nat, k: nat, n: nat)
    requires
        k <= n,
    ensures
        bits_below(mask, k) <= bits_below(mask, n),
    decreases n,
{
    if k < n {
        lemma_bits_below_grows(mask, k, (n - 1) as nat);
    }
}

/// The tile with the given exponent.
pub fn tile_value(exponent: u32) -> (value: u32)
    requires
        exponent <= MAX_EXPONENT,
    ensures
        value == pow2(exponent as nat),
        value > 0,
{
    proof {
        lemma2_to64();
        if exponent < 31 {
            lemma_pow2_strictly_increases(exponent as nat, 31);
        }
        lemma_u32_shl_is_mul(1, exponent);
        vstd::arithmetic::power2::lemma_pow2_pos(exponent as nat);
    }
    1u32 << exponent
}

/// Fills the occupied cells of `shape`, in scan order, with the tiles of the
/// given exponents.
pub fn fill_board(shape: &Shape, exponents: &Vec<u32>) -> (board: Board)
    requires
        exponents@.len() >= shape.count(),
        forall|i: int| 0 <= i < shape.count() ==> exponents[i] <= MAX_EXPONENT,
    ensures
        board@ == placed(*shape, Seq::new(exponents@.len(), |i: int| exponents[i] as nat)),
{
    let mut cells = [0u32; 16];
    let mut next: usize = 0;
    let mut k: usize = 0;
    let ghost wanted = placed(*shape, Seq::new(exponents@.len(), |i: int| exponents[i] as nat));
    while k < CELLS
        invariant
            k <= CELLS,
            next == shape.rank(k as int),
            exponents@.len() >= shape.count(),
            forall|i: int| 0 <= i < shape.count() ==> exponents[i] <= MAX_EXPONENT,
            wanted == placed(*shape, Seq::new(exponents@.len(), |i: int| exponents[i] as nat)),
            forall|j: int| 0 <= j < k ==> cells[j] as nat == wanted[j],
            forall|j: int| k <= j < CELLS ==> cells[j] == 0,
        decreases CELLS - k,
    {
        proof {
            lemma_bits_below_bound(shape.mask as nat, k as nat);
        }
        if shape.is_occupied(k) {
            proof {
                lemma_bits_below_grows(shape.mask as nat, (k + 1) as nat, CELLS as nat);
            }
            cells[k] = tile_value(exponents[next]);
            next += 1;
        }
        k += 1;
    }
    let board = Board { cells };
    assert(board@ =~= wanted);
    board
}

/// Whether `decoded` is what reading `text` as the local id of a board of
/// the given shape gives. The length is judged first, then the symbols,
/// then the number of `B`s.
pub open spec fn spells(shape: Shape, text: Seq<char>, decoded: Result<Board, LocalIdError>) -> bool {
    match decoded {
        Ok(board) => {
            &&& text.len() == shape.count()
            &&& is_local_id(text)
            &&& board@ == placed(shape, exponents_of(text))
        },
        Err(LocalIdError::LengthMismatch { expected, actual }) => {
            &&& expected == shape.count()
            &&& actual == text.len()
            &&& expected != actual
        },
        Err(LocalIdError::InvalidSymbol { symbol }) => {
            &&& text.len() == shape.count()
            &&& exists|i: int|
                0 <= i < text.len() && text[i] == symbol && symbol_exponent(symbol) is None
                    && well_spelled(text.take(i))
        },
        Err(LocalIdError::MultipleHighTileSymbols) => {
            &&& text.len() == shape.count()
            &&& well_spelled(text)
            &&& high_tiles(text) > 1
        },
    }
}

/// Reads `text` as the local id of a board of the given shape: one symbol
/// for each occupied cell, in scan order.
pub fn decode_local(shape: &Shape, text: &str) -> (decoded: Result<Board, LocalIdError>)
    ensures
        spells(*shape, text@, decoded),
{
    let expected = shape.filled();
    let actual = text.unicode_len();
    if actual != expected {
        return Err(LocalIdError::LengthMismatch { expected, actual });
    }
    match parse_base11(text) {
        Ok(exponents) => {
            let board = fill_board(shape, &exponents);
            proof {
                assert(Seq::new(exponents@.len(), |i: int| exponents[i] as nat) =~= exponents_of(
                    text@,
                ));
            }
            Ok(board)
        },
        Err(error) => Err(error),
    }
}

/// The exponent of a tile: the logarithm of its value to the base 2, rounded
/// down where the value is no power of 2.
pub open spec fn exponent_of(value: nat) -> nat {
    log(2, value as int) as nat
}

/// The local id that spells the given cells: the symbols of the tiles in
/// scan order.
pub open spec fn spelled(cells: Seq<nat>) -> Seq<char> {
    Seq::new(
        tiles_of(cells).len(),
        |i: int| exponent_symbol(exponent_of(tiles_of(cells)[i])),
    )
}

/// The exponent of a tile.
pub fn ilog2(value: u32) -> (exponent: u32)
    requires
        value > 0,
    ensures
        exponent == exponent_of(value as nat),
        exponent <= MAX_EXPONENT,
{
    let mut rest = value;
    let mut exponent: u32 = 0;
    proof {
        lemma2_to64();
    }
    while rest > 1
        invariant
            rest >= 1,
            exponent <= MAX_EXPONENT,
            rest * pow2(exponent as nat) <= value,
            log(2, value as int) == exponent + log(2, rest as int),
        decreases rest,
    {
        proof {
            lemma_log_s(2, rest as int);
            lemma_half_doubles(rest as nat, exponent as nat, value as nat);
        }
        rest = rest / 2;
        exponent += 1;
    }
    proof {
        lemma_log0(2, rest as int);
    }
    exponent
}

/// Halving the factor and raising the exponent keeps a product under its
/// bound, and the exponent under 32 where the bound fits in 32 bits.
proof fn lemma_half_doubles(rest: nat, exponent: nat, value: nat)
    requires
        rest >= 2,
        rest * pow2(exponent) <= value,
        value <= u32::MAX,
    ensures
        (rest / 2) * pow2(exponent + 1) <= value,
        exponent + 1 <= 31,
{
    vstd::arithmetic::power2::lemma_pow2_unfold(exponent + 1);
    vstd::arithmetic::power2::lemma_pow2_pos(exponent);
    let p = pow2(exponent);
    assert((rest / 2) * (2 * p) <= rest * p) by (nonlinear_arith)
        requires
            rest >= 2,
            p > 0,
    ;
    assert(2 * p <= rest * p) by (nonlinear_arith)
        requires
            rest >= 2,
            p > 0,
    ;
    lemma2_to64();
    if exponent + 1 > 32 {
        lemma_pow2_strictly_increases(32, exponent + 1);
    }
}

/// The symbol of an exponent as a text of its own.
pub fn symbol_text(exponent: u32) -> (text: &'static str)
    ensures
        text@ == seq![exponent_symbol(exponent as nat)],
{
    proof {
        reveal_strlit("1");
        reveal_strlit("2");
        reveal_strlit("3");
        reveal_strlit("4");
        reveal_strlit("5");
        reveal_strlit("6");
        reveal_strlit("7");
        reveal_strlit("8");
        reveal_strlit("9");
        reveal_strlit("A");
        reveal_strlit("B");
        reveal_strlit("?");
    }
    let text = match exponent {
        1 => "1",
        2 => "2",
        3 => "3",
        4 => "4",
        5 => "5",
        6 => "6",
        7 => "7",
        8 => "8",
        9 => "9",
        10 => "A",
        11 => "B",
        _ => "?",
    };
    assert(text@ =~= seq![exponent_symbol(exponent as nat)]);
    text
}

/// Spells tile exponents as a text, one symbol for each.
pub fn encode_base11(exponents: &Vec<u32>) -> (text: String)
    ensures
        text@ == Seq::new(exponents@.len(), |i: int| exponent_symbol(exponents[i] as nat)),
{
    let mut text = String::new();
    let mut i: usize = 0;
    while i < exponents.len()
        invariant
            i <= exponents@.len(),
            text@ == Seq::new(i as nat, |j: int| exponent_symbol(exponents[j] as nat)),
        decreases exponents@.len() - i,
    {
        let ghost before = text@;
        text.append(symbol_text(exponents[i]));
        i += 1;
        assert(text@ =~= Seq::new(i as nat, |j: int| exponent_symbol(exponents[j] as nat)));
    }
    text
}

/// Whether `shape` is the occupancy of `cells`.
pub open spec fn is_shape_of(shape: Shape, cells: Seq<nat>) -> bool {
    cells.len() == CELLS && forall|k: int| 0 <= k < CELLS ==> shape.occupied(k) == (cells[k] != 0)
}

/// Among the first `k` cells there are as many tiles as the shape has
/// occupied cells before cell `k`.
pub proof fn lemma_tiles_rank(shape: Shape, cells: Seq<nat>, k: int)
    requires
        is_shape_of(shape, cells),
        0 <= k <= CELLS,
    ensures
        tiles_of(cells.take(k)).len() == shape.rank(k),
    decreases k,
{
    reveal(Seq::filter);
    if k == 0 {
        assert(cells.take(0) =~= Seq::<nat>::empty());
    } else {
        lemma_tiles_rank(shape, cells, k - 1);
        cells.lemma_take_succ_push(k - 1);
        cells.take(k - 1).lemma_filter_push(cells[k - 1], is_tile());
        assert(shape.occupied(k - 1) == (cells[k - 1] != 0));
    }
}

/// What a board is to its address: the number of its tiles, its occupancy
/// and the local id that spells its tiles.
#[derive(Clone, Debug, PartialEq, Eq)]
pub struct Encoded {
    pub count: usize,
    pub shape: Shape,
    pub local_id: String,
}

impl Board {
    /// The exponents of the tiles in scan order.
    pub fn exponents(&self) -> (exponents: Vec<u32>)
        ensures
            exponents@.len() == tiles_of(self@).len(),
            forall|i: int|
                0 <= i < exponents@.len() ==> exponents[i] as nat == exponent_of(
                    tiles_of(self@)[i],
                ),
    {
        let mut exponents: Vec<u32> = Vec::new();
        let mut k: usize = 0;
        proof {
            reveal(Seq::filter);
            assert(self@.take(0) =~= Seq::<nat>::empty());
        }
        while k < CELLS
            invariant
                k <= CELLS,
                exponents@.len() == tiles_of(self@.take(k as int)).len(),
                forall|i: int|
                    0 <= i < exponents@.len() ==> exponents[i] as nat == exponent_of(
                        tiles_of(self@.take(k as int))[i],
                    ),
            decreases CELLS - k,
        {
            proof {
                self@.lemma_take_succ_push(k as int);
                self@.take(k as int).lemma_filter_push(self@[k as int], is_tile());
            }
            if self.cells[k] != 0 {
                exponents.push(ilog2(self.cells[k]));
            }
            k += 1;
        }
        proof {
            self@.lemma_take_len();
        }
        exponents
    }
}

/// Derives from a board what its address is made of.
pub fn encode(board: &Board) -> (encoded: Encoded)
    ensures
        encoded.count == tiles_of(board@).len(),
        encoded.count == encoded.shape.count(),
        is_shape_of(encoded.shape, board@),
        encoded.local_id@ == spelled(board@),
{
    let exponents = board.exponents();
    let shape = board.shape();
    let local_id = encode_base11(&exponents);
    proof {
        lemma_tiles_rank(shape, board@, CELLS as int);
        board@.lemma_take_len();
        assert(local_id@ =~= spelled(board@));
    }
    Encoded { count: exponents.len(), shape, local_id }
}

/// The symbol of a symbol's exponent is the symbol.
pub proof fn lemma_symbol_round_trip(symbol: char)
    requires
        symbol_exponent(symbol) is Some,
    ensures
        exponent_symbol(symbol_exponent(symbol).unwrap()) == symbol,
        1 <= symbol_exponent(symbol).unwrap() <= 11,
{
}

/// The exponent of the tile `2^e` is `e`.
pub proof fn lemma_exponent_of_tile(exponent: nat)
    ensures
        exponent_of(pow2(exponent)) == exponent,
        pow2(exponent) > 0,
{
    vstd::arithmetic::logarithm::lemma_log_pow(2, exponent);
    vstd::arithmetic::power2::lemma_pow2_pos(exponent);
    vstd::arithmetic::power2::lemma_pow2(exponent);
}

/// The tiles among the first `k` cells of a filled shape are the tiles of
/// the first exponents, in their order.
proof fn lemma_placed_tiles(shape: Shape, exponents: Seq<nat>, k: int)
    requires
        0 <= k <= CELLS,
    ensures
        tiles_of(placed(shape, exponents).take(k)).len() == shape.rank(k),
        forall|i: int|
            0 <= i < shape.rank(k) ==> tiles_of(placed(shape, exponents).take(k))[i] == pow2(
                exponents[i],
            ),
    decreases k,
{
    let cells = placed(shape, exponents);
    reveal(Seq::filter);
    if k == 0 {
        assert(cells.take(0) =~= Seq::<nat>::empty());
    } else {
        lemma_placed_tiles(shape, exponents, k - 1);
        cells.lemma_take_succ_push(k - 1);
        cells.take(k - 1).lemma_filter_push(cells[k - 1], is_tile());
        if shape.occupied(k - 1) {
            lemma_exponent_of_tile(exponents[shape.rank(k - 1) as int]);
        }
    }
}

/// Encoding inverts decoding: the board that a local id spells over a shape
/// has that shape as its occupancy, as many tiles as the shape has cells,
/// and spells the same local id.
pub proof fn lemma_decode_then_encode(shape: Shape, text: Seq<char>)
    requires
        text.len() == shape.count(),
        is_local_id(text),
    ensures
        is_shape_of(shape, placed(shape, exponents_of(text))),
        tiles_of(placed(shape, exponents_of(text))).len() == shape.count(),
        spelled(placed(shape, exponents_of(text))) == text,
{
    let exponents = exponents_of(text);
    let cells = placed(shape, exponents);
    assert forall|k: int| 0 <= k < CELLS implies shape.occupied(k) == (cells[k] != 0) by {
        if shape.occupied(k) {
            lemma_exponent_of_tile(exponents[shape.rank(k) as int]);
        }
    }
    lemma_placed_tiles(shape, exponents, CELLS as int);
    cells.lemma_take_len();
    assert forall|i: int| 0 <= i < text.len() implies spelled(cells)[i] == text[i] by {
        lemma_exponent_of_tile(exponents[i]);
        lemma_symbol_round_trip(text[i]);
    }
    assert(spelled(cells) =~= text);
}

/// What a local id spells over a shape is a board: its cells are empty or
/// hold a tile from 2 to 2048.
pub proof fn lemma_decoded_valid(shape: Shape, text: Seq<char>)
    requires
        text.len() == shape.count(),
        well_spelled(text),
    ensures
        is_valid(placed(shape, exponents_of(text))),
        forall|k: int| 0 <= k < CELLS ==> #[trigger] placed(shape, exponents_of(text))[k] <= 2048,
{
    let cells = placed(shape, exponents_of(text));
    lemma2_to64();
    assert forall|k: int| 0 <= k < CELLS implies is_cell_value(#[trigger] cells[k]) && cells[k]
        <= 2048 by {
        if shape.occupied(k) {
            let rank = shape.rank(k) as int;
            lemma_bits_below_grows(shape.mask as nat, (k + 1) as nat, CELLS as nat);
            assert(rank < text.len());
            lemma_symbol_round_trip(text[rank]);
            let exponent = exponents_of(text)[rank];
            assert(1 <= exponent <= 11);
            if exponent < 11 {
                lemma_pow2_strictly_increases(exponent, 11);
            }
        }
    }
}

} // verus!
