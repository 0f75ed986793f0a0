//! Pages queued for the search index.
use vstd::prelude::*;

verus! {

/// A rendered page queued for search indexing: its canonical URL (with
/// the trailing slash the server redirects to) and its full HTML. What of
/// the page lands in the index the templates' `data-pagefind-*`
/// attributes decide.
pub struct SearchPage {
    pub url: String,
    pub html: String,
}

} // verus!
