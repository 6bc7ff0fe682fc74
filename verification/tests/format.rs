use babel2048::catalog::Catalog;
use babel2048::error::CatalogLoadError;

fn masks(catalog: &Catalog) -> Vec<(u32, u64, u16)> {
    let mut all = Vec::new();
    for group in &catalog.groups {
        for entry in &group.entries {
            all.push((group.t, entry.global_id, entry.shape.mask));
        }
    }
    all
}

#[test]
fn a_small_catalog_is_read() {
    let text = "Boards with t = 1\nBoard #1\nX...\n....\n....\n....\nBoard #2\n.X..\n....\n....\n....\n\
                Boards with t = 2\nBoard #3\nXX..\n....\n....\n....\n";
    let catalog = Catalog::parse(text).unwrap();
    assert_eq!(masks(&catalog), vec![(1, 1, 1), (1, 2, 2), (2, 3, 3)]);
    assert_eq!(catalog.render(), text);
}

#[test]
fn the_written_catalog_is_read_back() {
    let built = Catalog::build();
    let text = built.render();
    assert!(text.starts_with("Boards with t = 0\nBoard #1\n....\n....\n....\n....\nBoards with t = 1\nBoard #2\nX...\n"));
    assert!(text.ends_with("Boards with t = 16\nBoard #65536\nXXXX\nXXXX\nXXXX\nXXXX\n"));
    let loaded = Catalog::parse(&text).unwrap();
    assert_eq!(masks(&loaded), masks(&built));
    assert_eq!(loaded.render(), text);
}

#[test]
fn lines_of_other_kinds_are_skipped() {
    let text = "# list\n\nBoards with t = 1  (sixteen)\r\n-----\r\nBoard #7 first\r\n | X | . | . | . |\r\n....\r\n\r\n....\r\n....\r\n=====";
    let catalog = Catalog::parse(text).unwrap();
    assert_eq!(masks(&catalog), vec![(1, 7, 1)]);
}

#[test]
fn groups_come_in_ascending_order_and_join() {
    let text = "Boards with t = 2\nBoard #1\nXX..\n....\n....\n....\nBoards with t = 1\nBoard #2\nX...\n....\n....\n....\n\
                Boards with t = 2\nBoard #3\n..XX\n....\n....\n....";
    let catalog = Catalog::parse(text).unwrap();
    assert_eq!(masks(&catalog), vec![(1, 2, 1), (2, 1, 3), (2, 3, 12)]);
}

#[test]
fn rows_before_any_header_go_under_zero() {
    let catalog = Catalog::parse("....\n....\n....\n...X").unwrap();
    assert_eq!(masks(&catalog), vec![(0, 0, 0x8000)]);
    assert_eq!(masks(&Catalog::parse("").unwrap()), vec![]);
    assert_eq!(masks(&Catalog::parse("Board #5\nBoard #6\nBoards with t = 3\n").unwrap()), vec![]);
}

#[test]
fn numbers_are_read_like_unsigned_decimals() {
    let text = "Boards with t =+3 x\nBoard #007\nXXX.\n....\n....\n....";
    assert_eq!(masks(&Catalog::parse(text).unwrap()), vec![(3, 7, 7)]);
    let text = "a Boards with t = 4 = 9\nBoard #18446744073709551615#3\nXXXX\n....\n....\n....";
    assert_eq!(masks(&Catalog::parse(text).unwrap()), vec![(4, u64::MAX, 15)]);
}

#[test]
fn an_unreadable_number_breaks_the_format() {
    assert_eq!(Catalog::parse("Board #x1").err(), Some(CatalogLoadError::Malformed));
    assert_eq!(Catalog::parse("Board #").err(), Some(CatalogLoadError::Malformed));
    assert_eq!(Catalog::parse("Board #-1").err(), Some(CatalogLoadError::Malformed));
    assert_eq!(Catalog::parse("Board #1.5").err(), Some(CatalogLoadError::Malformed));
    assert_eq!(
        Catalog::parse("Board #18446744073709551616").err(),
        Some(CatalogLoadError::Malformed)
    );
    assert_eq!(Catalog::parse("Boards with t = two").err(), Some(CatalogLoadError::Malformed));
    assert_eq!(Catalog::parse("Boards with t = ").err(), Some(CatalogLoadError::Malformed));
    assert_eq!(Catalog::parse("Boards with t = 4294967296").err(), Some(CatalogLoadError::Malformed));
    assert_eq!(Catalog::parse("x=y Boards with t = 3").err(), Some(CatalogLoadError::Malformed));
    assert!(Catalog::parse("Boards with t = 4294967295").is_ok());
}

#[test]
fn missing_rows_break_the_format() {
    let text = "Boards with t = 1\nBoard #1\nX...\n....\n....\nBoard #2\n.X..\n....\n....\n....\n";
    assert_eq!(Catalog::parse(text).err(), Some(CatalogLoadError::Malformed));
    assert_eq!(Catalog::parse("Board #1\nX...\n").err(), Some(CatalogLoadError::Malformed));
    let text = "Board #1\nX...\n....\n....\n....\n....\n";
    assert_eq!(Catalog::parse(text).err(), Some(CatalogLoadError::Malformed));
}

#[test]
fn a_row_of_wrong_width_breaks_the_format() {
    let text = "Board #1\nX..\n....\n....\n....\n";
    assert_eq!(Catalog::parse(text).err(), Some(CatalogLoadError::Malformed));
    let text = "Board #1\nX....\n....\n....\n....\n";
    assert_eq!(Catalog::parse(text).err(), Some(CatalogLoadError::Malformed));
    let text = "Board #1\nX...\n....\n....\n....\nThe end.\n";
    assert_eq!(Catalog::parse(text).err(), Some(CatalogLoadError::Malformed));
}
