//! The error value of the collections.

use crate::string::SString;
use crate::ERROR_LEN;
use vstd::prelude::*;

verus! {

#[derive(Debug)]
pub enum Error {
    /// A collection could not do what was asked; the text says why.
    CollectionsError(SString<ERROR_LEN>),
}

} // verus!
