use vstd::prelude::*;
use crate::error::Error;
use crate::model::Model;

verus! {

/// The value at `x` of the line through `(x0, y0)` and `(x1, y1)`, for `x`
/// held between `x0` and `x1` and with the rise rounded towards `y0`. Where
/// the two points do not ascend in x the value is `y0`.
pub open spec fn line_through(x0: int, y0: int, x1: int, y1: int, x: int) -> int {
    if x1 <= x0 {
        y0
    } else {
        let held = if x < x0 {
            x0
        } else if x > x1 {
            x1
        } else {
            x
        };
        if y1 >= y0 {
            y0 + (held - x0) * (y1 - y0) / (x1 - x0)
        } else {
            y0 - (held - x0) * (y0 - y1) / (x1 - x0)
        }
    }
}

/// The value of the line lies between the values at its two points.
pub proof fn lemma_line_between(x0: int, y0: int, x1: int, y1: int, x: int)
    ensures
        y0 <= y1 ==> y0 <= line_through(x0, y0, x1, y1, x) <= y1,
        y1 <= y0 ==> y1 <= line_through(x0, y0, x1, y1, x) <= y0,
{
    if x1 > x0 {
        let held = if x < x0 {
            x0
        } else if x > x1 {
            x1
        } else {
            x
        };
        let t = held - x0;
        let d = x1 - x0;
        let h = if y1 >= y0 {
            y1 - y0
        } else {
            y0 - y1
        };
        assert(0 <= t * h / d <= h) by (nonlinear_arith)
            requires
                0 <= t <= d,
                d > 0,
                h >= 0,
        ;
    }
}

/// A linear model: the line through the first and the last sample it was
/// fitted to. It is meant for samples in ascending order of the feature, as a
/// trainer prepares them, and predicts ranks between the first and the last
/// label. Before it is fitted it predicts 0.
#[derive(Debug, Clone, Copy, PartialEq, Eq, Structural)]
pub struct LinearModel {
    x0: i32,
    y0: i32,
    x1: i32,
    y1: i32,
}

impl LinearModel {
    /// The two points of the line: `(x0, y0, x1, y1)`.
    pub closed spec fn line(&self) -> (i32, i32, i32, i32) {
        (self.x0, self.y0, self.x1, self.y1)
    }

    /// A model that is not fitted yet.
    pub fn new() -> (m: LinearModel)
        ensures
            m.line() == (0i32, 0i32, 0i32, 0i32),
    {
        LinearModel { x0: 0, y0: 0, x1: 0, y1: 0 }
    }
}

impl Model for LinearModel {
    open spec fn prediction(&self, x: i32) -> i32 {
        line_through(
            self.line().0 as int,
            self.line().1 as int,
            self.line().2 as int,
            self.line().3 as int,
            x as int,
        ) as i32
    }

    open spec fn fit_outcome(
        before: &Self,
        features: Seq<i32>,
        labels: Seq<i32>,
        after: &Self,
        result: Result<(), Error>,
    ) -> bool {
        if features.len() == 0 {
            result == Err::<(), Error>(Error::EmptyInput) && *after == *before
        } else if features.len() != labels.len() {
            result == Err::<(), Error>(Error::LengthMismatch) && *after == *before
        } else if features.last() <= features.first() {
            result == Err::<(), Error>(Error::FitFailed) && *after == *before
        } else {
            result == Ok::<(), Error>(()) && after.line() == (
                features.first(),
                labels.first(),
                features.last(),
                labels.last(),
            )
        }
    }

    /// Fits the line through the first and the last sample. Samples whose
    /// last feature does not lie beyond the first are refused as `FitFailed`.
    fn fit(&mut self, features: &Vec<i32>, labels: &Vec<i32>) -> (result: Result<(), Error>) {
        let n = features.len();
        if n == 0 {
            return Err(Error::EmptyInput);
        }
        if n != labels.len() {
            return Err(Error::LengthMismatch);
        }
        if features[n - 1] <= features[0] {
            return Err(Error::FitFailed);
        }
        self.x0 = features[0];
        self.y0 = labels[0];
        self.x1 = features[n - 1];
        self.y1 = labels[n - 1];
        Ok(())
    }

    fn predict(&self, x: i32) -> (y: i32) {
        if self.x1 <= self.x0 {
            return self.y0;
        }
        let held: i32 = if x < self.x0 {
            self.x0
        } else if x > self.x1 {
            self.x1
        } else {
            x
        };
        let t: u64 = (held as i64 - self.x0 as i64) as u64;
        let d: u64 = (self.x1 as i64 - self.x0 as i64) as u64;
        proof {
            lemma_line_between(
                self.x0 as int,
                self.y0 as int,
                self.x1 as int,
                self.y1 as int,
                x as int,
            );
        }
        if self.y1 >= self.y0 {
            let h: u64 = (self.y1 as i64 - self.y0 as i64) as u64;
            assert(t * h <= 0xffff_ffff * 0xffff_ffff) by (nonlinear_arith)
                requires
                    0 <= t <= 0xffff_ffff,
                    0 <= h <= 0xffff_ffff,
            ;
            let rise: u64 = t * h / d;
            (self.y0 as i64 + rise as i64) as i32
        } else {
            let h: u64 = (self.y0 as i64 - self.y1 as i64) as u64;
            assert(t * h <= 0xffff_ffff * 0xffff_ffff) by (nonlinear_arith)
                requires
                    0 <= t <= 0xffff_ffff,
                    0 <= h <= 0xffff_ffff,
            ;
            let fall: u64 = t * h / d;
            (self.y0 as i64 - fall as i64) as i32
        }
    }
}

} // verus!
