use babel2048::catalog::Catalog;
use babel2048::error::CatalogLoadError;
use babel2048::store::{load_or_build, Stored};

#[test]
fn an_empty_store_gets_the_full_catalog() {
    let loaded = load_or_build(&Stored::Absent).unwrap();
    assert_eq!(loaded.catalog.len(), 65536);
    assert_eq!(loaded.catalog.tile_counts().len(), 17);
    let text = loaded.to_store.unwrap();
    assert_eq!(text, Catalog::build().render());
    let again = load_or_build(&Stored::Text(text.clone())).unwrap();
    assert!(again.to_store.is_none());
    assert_eq!(again.catalog.render(), text);
}

#[test]
fn a_store_that_cannot_be_read_is_reported() {
    assert_eq!(load_or_build(&Stored::Unreadable).err(), Some(CatalogLoadError::Unreadable));
}

#[test]
fn a_stored_text_is_read_as_it_is() {
    let text = "Boards with t = 1\nBoard #1\n.X..\n....\n....\n....\n".to_string();
    let loaded = load_or_build(&Stored::Text(text)).unwrap();
    assert!(loaded.to_store.is_none());
    assert_eq!(loaded.catalog.len(), 1);
    assert_eq!(loaded.catalog.groups[0].entries[0].shape.mask, 2);
    let broken = "Board #one\n".to_string();
    assert_eq!(load_or_build(&Stored::Text(broken)).err(), Some(CatalogLoadError::Malformed));
}
