use vstd::prelude::*;

verus! {

/// What can go wrong while samples are prepared or a model is fitted.
#[derive(Debug, Clone, Copy, PartialEq, Eq, Structural)]
pub enum Error {
    /// No sample was supplied.
    EmptyInput,
    /// Features and labels differ in length.
    LengthMismatch,
    /// The model could not be fitted to the samples it was given.
    FitFailed,
}

} // verus!
