//! The failures of an assembly.

use vstd::prelude::*;
use vstd::string::*;

verus! {

/// Why no catalog could be assembled.
#[derive(Clone, Copy, Debug, PartialEq, Eq, Structural)]
pub enum CatalogError {
    /// No book of the library being visited may be picked: it names none, or
    /// every one of them is barred from being picked again so soon, the
    /// library having too few books for the window.
    NoEligibleBook,
    /// A holiday book is due and the holiday collection is empty.
    NoHolidayBook,
    /// The reading time is not filled yet and no draw is left.
    DrawsExhausted,
}

impl CatalogError {
    /// A sentence that says what went wrong.
    pub open spec fn sentence(self) -> Seq<char> {
        match self {
            CatalogError::NoEligibleBook => "no book of the library may be picked"@,
            CatalogError::NoHolidayBook => "the holiday collection holds no book"@,
            CatalogError::DrawsExhausted => "the draws ran out before the reading time was filled"@,
        }
    }

    /// A sentence that says what went wrong.
    pub fn message(&self) -> (text: String)
        ensures
            text@ == self.sentence(),
    {
        match self {
            CatalogError::NoEligibleBook => String::from_str(
                "no book of the library may be picked",
            ),
            CatalogError::NoHolidayBook => String::from_str("the holiday collection holds no book"),
            CatalogError::DrawsExhausted => String::from_str(
                "the draws ran out before the reading time was filled",
            ),
        }
    }
}

} // verus!
