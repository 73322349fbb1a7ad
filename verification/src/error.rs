use vstd::prelude::*;

verus! {

/// The error returned when a conversion is handed an empty collection.
#[derive(Debug, Clone, Copy, PartialEq, Eq, Structural)]
pub enum Error {
    /// The collection handed over held no element.
    Empty,
}

} // verus!
