use vstd::prelude::*;
use crate::error::Error;

verus! {

/// A trainable function from a coordinate to a rank-like value.
///
/// `fit` trains the model in place on paired samples; `predict` reads the
/// fitted state and changes nothing. The index is generic over this trait and
/// relies on nothing but what is stated here.
pub trait Model: Sized {
    /// The value that the model, in its present state, predicts for `x`.
    spec fn prediction(&self, x: i32) -> i32;

    /// What a call of `fit` may do: it relates the model before the call, the
    /// samples, the model after the call and the result.
    spec fn fit_outcome(
        before: &Self,
        features: Seq<i32>,
        labels: Seq<i32>,
        after: &Self,
        result: Result<(), Error>,
    ) -> bool;

    /// Trains the model on `features` and their `labels`.
    ///
    /// Succeeds only on samples of equal, non-zero length. Empty samples are
    /// refused as `EmptyInput`, non-empty ones of unequal length as
    /// `LengthMismatch`; a model may refuse other samples for reasons of its
    /// own.
    fn fit(&mut self, features: &Vec<i32>, labels: &Vec<i32>) -> (result: Result<(), Error>)
        ensures
            Self::fit_outcome(old(self), features@, labels@, final(self), result),
            result is Ok ==> features@.len() == labels@.len() && features@.len() > 0,
            features@.len() == 0 && labels@.len() == 0 ==> result == Err::<(), Error>(
                Error::EmptyInput,
            ),
            features@.len() > 0 && labels@.len() > 0 && features@.len() != labels@.len()
                ==> result == Err::<(), Error>(Error::LengthMismatch),
    ;

    /// The model's prediction for `x`.
    fn predict(&self, x: i32) -> (y: i32)
        ensures
            y == self.prediction(x),
    ;
}

} // verus!
