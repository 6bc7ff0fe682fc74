use babel2048::address::{decode, decode_in_group, parse_global_id, resolve, Address};
use babel2048::board::Board;
use babel2048::catalog::{Catalog, Entry};
use babel2048::error::{DecodeError, GlobalIdError, LocalIdError};
use babel2048::shape::Shape;

fn single_tile_catalog() -> Catalog {
    let mut text = String::from("Boards with t = 1\n");
    for k in 0..16 {
        text.push_str(&format!("Board #{}\n", k + 1));
        for r in 0..4 {
            for c in 0..4 {
                text.push(if 4 * r + c == k { 'X' } else { '.' });
            }
            text.push('\n');
        }
    }
    Catalog::parse(&text).unwrap()
}

#[test]
fn ids_outside_the_first_group_are_out_of_range() {
    let catalog = single_tile_catalog();
    assert_eq!(catalog.id_range(1), (1, 16));
    assert_eq!(
        decode(&catalog, "0", "1"),
        Err(DecodeError::GlobalId(GlobalIdError::BelowRange { id: 0, first: 1 }))
    );
    assert_eq!(
        decode(&catalog, "17", "1"),
        Err(DecodeError::GlobalId(GlobalIdError::AboveRange { id: 17, last: 16 }))
    );
    assert_eq!(
        decode_in_group(&catalog, 1, "0", "1"),
        Err(DecodeError::GlobalId(GlobalIdError::BelowRange { id: 0, first: 1 }))
    );
    assert_eq!(
        decode_in_group(&catalog, 1, "17", "1"),
        Err(DecodeError::GlobalId(GlobalIdError::AboveRange { id: 17, last: 16 }))
    );
    let first = decode(&catalog, "1", "1").unwrap();
    assert_eq!(first.rows(), [[2, 0, 0, 0], [0; 4], [0; 4], [0; 4]]);
    let last = decode(&catalog, "16", "B").unwrap();
    assert_eq!(last.rows(), [[0; 4], [0; 4], [0; 4], [0, 0, 0, 2048]]);
}

#[test]
fn in_the_full_catalog_the_single_tiles_come_second() {
    let catalog = Catalog::build();
    assert_eq!(
        decode_in_group(&catalog, 1, "1", "1"),
        Err(DecodeError::GlobalId(GlobalIdError::BelowRange { id: 1, first: 2 }))
    );
    assert_eq!(
        decode_in_group(&catalog, 1, "18", "1"),
        Err(DecodeError::GlobalId(GlobalIdError::AboveRange { id: 18, last: 17 }))
    );
    let board = decode_in_group(&catalog, 1, "17", "A").unwrap();
    assert_eq!(board.rows(), [[0; 4], [0; 4], [0; 4], [0, 0, 0, 1024]]);
    assert_eq!(decode(&catalog, "17", "A").map(|b| b.rows()), Ok(board.rows()));
    assert_eq!(decode(&catalog, "1", "").map(|b| b.rows()), Ok([[0; 4]; 4]));
}

#[test]
fn a_global_id_is_an_unsigned_decimal_number() {
    assert_eq!(parse_global_id("42"), Ok(42));
    assert_eq!(parse_global_id("  42\t\n"), Ok(42));
    assert_eq!(parse_global_id("+42"), Ok(42));
    assert_eq!(parse_global_id("0042"), Ok(42));
    assert_eq!(parse_global_id("\u{a0}7\u{3000}"), Ok(7));
    assert_eq!(parse_global_id("18446744073709551615"), Ok(u64::MAX));
    assert_eq!(parse_global_id("18446744073709551616"), Err(GlobalIdError::NonInteger));
    assert_eq!(parse_global_id(""), Err(GlobalIdError::NonInteger));
    assert_eq!(parse_global_id("   "), Err(GlobalIdError::NonInteger));
    assert_eq!(parse_global_id("+"), Err(GlobalIdError::NonInteger));
    assert_eq!(parse_global_id("-1"), Err(GlobalIdError::NonInteger));
    assert_eq!(parse_global_id("4 2"), Err(GlobalIdError::NonInteger));
    assert_eq!(parse_global_id("4.2"), Err(GlobalIdError::NonInteger));
    assert_eq!(parse_global_id("++1"), Err(GlobalIdError::NonInteger));
    assert_eq!(parse_global_id("12a"), Err(GlobalIdError::NonInteger));
}

#[test]
fn decode_reports_each_kind_of_error() {
    let catalog = Catalog::build();
    assert_eq!(
        decode(&catalog, "seven", "1"),
        Err(DecodeError::GlobalId(GlobalIdError::NonInteger))
    );
    assert_eq!(
        decode(&catalog, "65537", "1"),
        Err(DecodeError::GlobalId(GlobalIdError::AboveRange { id: 65537, last: 65536 }))
    );
    assert_eq!(
        decode(&catalog, "138", "12"),
        Err(DecodeError::LocalId(LocalIdError::LengthMismatch { expected: 3, actual: 2 }))
    );
    assert_eq!(
        decode(&catalog, "138", "1C2"),
        Err(DecodeError::LocalId(LocalIdError::InvalidSymbol { symbol: 'C' }))
    );
    assert_eq!(
        decode(&catalog, "18", "BB"),
        Err(DecodeError::LocalId(LocalIdError::MultipleHighTileSymbols))
    );
    let mut damaged = Catalog::new();
    damaged.insert(1, Entry { global_id: 9, shape: Shape::new(1) });
    assert_eq!(
        decode(&damaged, "1", "1"),
        Err(DecodeError::GlobalId(GlobalIdError::Unlisted { id: 1 }))
    );
}

#[test]
fn decode_gives_the_same_board_each_time() {
    let catalog = Catalog::build();
    let once = decode(&catalog, " 20000 ", "1234567").unwrap();
    let again = decode(&catalog, "20000", "1234567").unwrap();
    assert_eq!(once, again);
    assert_eq!(once.shape().filled(), 7);
}

#[test]
fn the_resolver_finds_the_address_of_a_board() {
    let catalog = Catalog::build();
    let board = Board::from_rows([[2, 0, 0, 0], [0, 4, 0, 0], [0, 0, 0, 0], [0, 0, 0, 2048]]);
    let address = resolve(&catalog, &board).unwrap();
    assert_eq!(address.local_id, "12B");
    let entry = catalog.entry(address.global_id).unwrap();
    assert_eq!(entry.shape, board.shape());
    assert_eq!(entry.shape.mask, 0b1000_0000_0010_0001);
    let back = decode(&catalog, &address.global_id.to_string(), &address.local_id).unwrap();
    assert_eq!(back, board);
    assert_eq!(
        resolve(&catalog, &Board::empty()),
        Some(Address { global_id: 1, local_id: String::new() })
    );
    let full = Board::from_rows([[2; 4]; 4]);
    assert_eq!(
        resolve(&catalog, &full),
        Some(Address { global_id: 65536, local_id: "1111111111111111".to_string() })
    );
}

#[test]
fn every_shape_resolves_in_the_full_catalog() {
    let catalog = Catalog::build();
    let mut mask: u32 = 0;
    while mask < 0x10000 {
        let shape = Shape::new(mask as u16);
        let held = shape.cells();
        let mut cells = [0u32; 16];
        for k in 0..16 {
            if held[k] {
                cells[k] = 2 << (k % 11);
            }
        }
        let board = Board { cells };
        let address = resolve(&catalog, &board).unwrap();
        assert_eq!(catalog.entry(address.global_id).unwrap().shape, shape);
        assert_eq!(address.local_id.len(), shape.filled());
        mask += 13;
    }
}

#[test]
fn a_partial_catalog_may_have_no_address() {
    let catalog = single_tile_catalog();
    let two = Board::from_rows([[2, 2, 0, 0], [0; 4], [0; 4], [0; 4]]);
    assert_eq!(resolve(&catalog, &two), None);
    assert_eq!(resolve(&catalog, &Board::empty()), None);
    let one = Board::from_rows([[0, 8, 0, 0], [0; 4], [0; 4], [0; 4]]);
    assert_eq!(resolve(&catalog, &one), Some(Address { global_id: 2, local_id: "3".to_string() }));
    let mut misplaced = Catalog::new();
    misplaced.insert(2, Entry { global_id: 1, shape: Shape::new(2) });
    assert_eq!(resolve(&misplaced, &one), None);
}
