//! Errors of the crawl database.

use vstd::prelude::*;

verus! {

/// What can go wrong in the crawl database.
#[derive(Clone, Copy, Debug, PartialEq, Eq, Structural)]
pub enum Error {
    /// The text is not a URL.
    InvalidUrl,
    /// The bytes are not an encoded text.
    InvalidEncoding,
    /// The value log of a table would grow past what an offset can address.
    StoreFull,
    /// The text of a URL has not been saved.
    TextNotSaved,
}

} // verus!
