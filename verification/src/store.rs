//! Loading the catalog from its store, or building it where the store is
//! empty.

use vstd::prelude::*;
use crate::catalog::Catalog;
use crate::enumerate::is_exhaustive;
use crate::error::CatalogLoadError;
use crate::format::{parsed, rendered};
use crate::written::lemma_parse_of_rendered;

verus! {

/// What was found at the place where the catalog is stored.
#[derive(Debug)]
pub enum Stored {
    /// Nothing is stored there.
    Absent,
    /// Something is stored there, but it could not be read.
    Unreadable,
    /// The text that is stored there.
    Text(String),
}

/// A catalog that was loaded, and the text that is to be stored where the
/// catalog had to be built first.
#[derive(Debug)]
pub struct Loaded {
    pub catalog: Catalog,
    pub to_store: Option<String>,
}

/// Whether `outcome` is what loading gives for what was found: the stored
/// text is read; where nothing is stored, the exhaustive catalog is built
/// and written out as the text to store, which is read as that catalog.
pub open spec fn loads(stored: Stored, outcome: Result<Loaded, CatalogLoadError>) -> bool {
    match stored {
        Stored::Unreadable => outcome matches Err(error) && error == CatalogLoadError::Unreadable,
        Stored::Text(text) => match parsed(text@) {
            Some(groups) => outcome matches Ok(loaded) && loaded.catalog@ == groups
                && loaded.to_store is None,
            None => outcome matches Err(error) && error == CatalogLoadError::Malformed,
        },
        Stored::Absent => {
            &&& outcome matches Ok(loaded)
            &&& is_exhaustive(loaded.catalog@)
            &&& loaded.to_store is Some
            &&& loaded.to_store.unwrap()@ == rendered(loaded.catalog@)
            &&& parsed(loaded.to_store.unwrap()@) == Some(loaded.catalog@)
        },
    }
}

/// Loads the catalog from what was found in its store.
pub fn load_or_build(stored: &Stored) -> (outcome: Result<Loaded, CatalogLoadError>)
    ensures
        loads(*stored, outcome),
        outcome matches Ok(loaded) ==> loaded.catalog.wf(),
{
    match stored {
        Stored::Unreadable => Err(CatalogLoadError::Unreadable),
        Stored::Text(text) => {
            match Catalog::parse(text.as_str()) {
                Ok(catalog) => Ok(Loaded { catalog, to_store: None }),
                Err(error) => Err(error),
            }
        },
        Stored::Absent => {
            let catalog = Catalog::build();
            let text = catalog.render();
            proof {
                lemma_parse_of_rendered(catalog@);
            }
            Ok(Loaded { catalog, to_store: Some(text) })
        },
    }
}

} // verus!
