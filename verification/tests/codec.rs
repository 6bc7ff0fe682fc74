use babel2048::board::Board;
use babel2048::codec::{
    decode_local, encode, encode_base11, fill_board, ilog2, parse_base11, symbol_text,
    symbol_value, tile_value,
};
use babel2048::error::LocalIdError;
use babel2048::shape::Shape;

#[test]
fn symbols_stand_for_exponents() {
    assert_eq!(parse_base11("123456789AB"), Ok(vec![1, 2, 3, 4, 5, 6, 7, 8, 9, 10, 11]));
    assert_eq!(parse_base11(""), Ok(vec![]));
    assert_eq!(symbol_value('1'), Some(1));
    assert_eq!(symbol_value('9'), Some(9));
    assert_eq!(symbol_value('A'), Some(10));
    assert_eq!(symbol_value('B'), Some(11));
    assert_eq!(symbol_value('0'), None);
    assert_eq!(symbol_value('C'), None);
    assert_eq!(symbol_value('a'), None);
    assert_eq!(symbol_value('b'), None);
}

#[test]
fn a_foreign_symbol_is_reported_before_a_second_high_tile() {
    assert_eq!(parse_base11("1C2"), Err(LocalIdError::InvalidSymbol { symbol: 'C' }));
    assert_eq!(parse_base11("BB"), Err(LocalIdError::MultipleHighTileSymbols));
    assert_eq!(parse_base11("B1B"), Err(LocalIdError::MultipleHighTileSymbols));
    assert_eq!(parse_base11("BBx"), Err(LocalIdError::InvalidSymbol { symbol: 'x' }));
    assert_eq!(parse_base11("10"), Err(LocalIdError::InvalidSymbol { symbol: '0' }));
    assert_eq!(parse_base11("1 2"), Err(LocalIdError::InvalidSymbol { symbol: ' ' }));
    assert_eq!(parse_base11("zy"), Err(LocalIdError::InvalidSymbol { symbol: 'z' }));
    assert_eq!(parse_base11("1B"), Ok(vec![1, 11]));
}

#[test]
fn decode_rejects_what_the_format_forbids() {
    let three = Shape::new(0b0000_0000_0000_0111);
    assert_eq!(
        decode_local(&three, "12"),
        Err(LocalIdError::LengthMismatch { expected: 3, actual: 2 })
    );
    assert_eq!(decode_local(&three, "1C2"), Err(LocalIdError::InvalidSymbol { symbol: 'C' }));
    let two = Shape::new(0b0000_0000_0001_0001);
    assert_eq!(decode_local(&two, "BB"), Err(LocalIdError::MultipleHighTileSymbols));
    assert_eq!(
        decode_local(&two, "BBB"),
        Err(LocalIdError::LengthMismatch { expected: 2, actual: 3 })
    );
    assert_eq!(
        decode_local(&two, "é"),
        Err(LocalIdError::LengthMismatch { expected: 2, actual: 1 })
    );
    assert_eq!(decode_local(&two, "1é"), Err(LocalIdError::InvalidSymbol { symbol: 'é' }));
}

#[test]
fn decode_places_the_tiles_in_scan_order() {
    let shape = Shape::from_cells(&[
        true, false, false, true, false, false, false, false, false, true, false, false, false,
        false, false, true,
    ]);
    let board = decode_local(&shape, "19AB").unwrap();
    assert_eq!(board.rows(), [[2, 0, 0, 512], [0, 0, 0, 0], [0, 1024, 0, 0], [0, 0, 0, 2048]]);
    let none = decode_local(&Shape::new(0), "").unwrap();
    assert_eq!(none.rows(), [[0; 4]; 4]);
    let filled = fill_board(&shape, &vec![3, 2, 1, 31]);
    assert_eq!(filled.rows(), [[8, 0, 0, 4], [0, 0, 0, 0], [0, 2, 0, 0], [0, 0, 0, 0x8000_0000]]);
}

#[test]
fn tiles_and_exponents() {
    assert_eq!(tile_value(0), 1);
    assert_eq!(tile_value(1), 2);
    assert_eq!(tile_value(11), 2048);
    assert_eq!(tile_value(31), 0x8000_0000);
    assert_eq!(ilog2(1), 0);
    assert_eq!(ilog2(2), 1);
    assert_eq!(ilog2(3), 1);
    assert_eq!(ilog2(2048), 11);
    assert_eq!(ilog2(4095), 11);
    assert_eq!(ilog2(4096), 12);
    assert_eq!(ilog2(u32::MAX), 31);
}

#[test]
fn encode_spells_the_tiles() {
    let board = Board::from_rows([[2, 0, 0, 512], [0, 0, 0, 0], [0, 1024, 0, 0], [0, 0, 0, 2048]]);
    let encoded = encode(&board);
    assert_eq!(encoded.count, 4);
    assert_eq!(encoded.local_id, "19AB");
    assert_eq!(encoded.shape.mask, 0b1000_0010_0000_1001);
    assert_eq!(board.exponents(), vec![1, 9, 10, 11]);
    let none = encode(&Board::empty());
    assert_eq!(none.count, 0);
    assert_eq!(none.local_id, "");
    assert_eq!(none.shape.mask, 0);
}

#[test]
fn tiles_without_a_symbol_are_spelled_as_question_marks() {
    let board = Board::from_rows([[4096, 1, 2, 0], [0; 4], [0; 4], [0; 4]]);
    assert_eq!(encode(&board).local_id, "??1");
    assert_eq!(encode_base11(&vec![0, 1, 9, 10, 11, 12, 31]), "?19AB??");
    assert_eq!(symbol_text(5), "5");
    assert_eq!(symbol_text(10), "A");
    assert_eq!(symbol_text(12), "?");
}

#[test]
fn encoding_inverts_decoding() {
    let ids = ["1", "B", "A9", "123", "9A1B", "1111111111111111", "B234567891234567"];
    let mut mask: u32 = 0;
    while mask < 0x10000 {
        let shape = Shape::new(mask as u16);
        for id in ids {
            if id.len() == shape.filled() {
                let board = decode_local(&shape, id).unwrap();
                let encoded = encode(&board);
                assert_eq!(encoded.count, shape.filled());
                assert_eq!(encoded.shape, shape);
                assert_eq!(encoded.local_id, id);
            }
        }
        mask += 1;
    }
}
