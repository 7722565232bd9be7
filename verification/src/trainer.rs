use vstd::prelude::*;
use crate::error::Error;
use crate::helper::coords;
use crate::helper::extract;
use crate::helper::ascending;
use crate::helper::lemma_stable_sort_len;
use crate::helper::lemma_stable_sort_permutes;
use crate::helper::lemma_stable_sort_sorted;
use crate::helper::sorted_on;
use crate::helper::sort_by_axis;
use crate::helper::stable_sort;
use crate::model::Model;
use crate::point::Axis;
use crate::point::Point;
use crate::variance::scaled_variance;
use crate::variance::variance;
use crate::variance::MAX_SAMPLES;

verus! {

/// The axis on which the model is trained: the one whose coordinates vary
/// more. Where both vary alike it is x, the axis that is looked at first.
pub open spec fn select_axis(xs: Seq<i32>, ys: Seq<i32>) -> Axis {
    if scaled_variance(ys) > scaled_variance(xs) {
        Axis::Y
    } else {
        Axis::X
    }
}

/// The points made of the coordinates `xs[i]` and `ys[i]`, each with its
/// place `i` as its id.
pub open spec fn paired(xs: Seq<i32>, ys: Seq<i32>) -> Seq<Point> {
    Seq::new(xs.len(), |i: int| Point { id: i as usize, x: xs[i], y: ys[i] })
}

/// The ranks `0, 1, .., n - 1`.
pub open spec fn ranks(n: nat) -> Seq<i32> {
    Seq::new(n, |i: int| i as i32)
}

/// `num_traits::FromPrimitive::from_usize` at `i32`: the rank as a value of
/// the coordinate type where it fits that type, and nothing where it does
/// not.
#[verifier::external_body]
fn rank_label(rank: usize) -> (label: Option<i32>)
    ensures
        label == (if rank <= i32::MAX {
            Some(rank as i32)
        } else {
            None
        }),
{
    num_traits::FromPrimitive::from_usize(rank)
}

/// The labels of `n` sorted samples: their ranks.
pub fn rank_labels(n: usize) -> (labels: Vec<i32>)
    requires
        n <= MAX_SAMPLES,
    ensures
        labels@ == ranks(n as nat),
{
    let mut labels: Vec<i32> = Vec::with_capacity(n);
    let mut i: usize = 0;
    while i < n
        invariant
            n <= MAX_SAMPLES,
            i <= n,
            labels@.len() == i,
            forall|k: int| 0 <= k < i ==> #[trigger] labels@[k] == k as i32,
        decreases n - i,
    {
        labels.push(rank_label(i).unwrap());
        i += 1;
    }
    assert(labels@ =~= ranks(n as nat));
    labels
}

/// The points made of two coordinate sequences of one length.
pub fn pair_up(xs: &Vec<i32>, ys: &Vec<i32>) -> (points: Vec<Point>)
    requires
        xs@.len() == ys@.len(),
    ensures
        points@ == paired(xs@, ys@),
{
    let n = xs.len();
    let mut points: Vec<Point> = Vec::with_capacity(n);
    let mut i: usize = 0;
    while i < n
        invariant
            n == xs@.len(),
            n == ys@.len(),
            i <= n,
            points@.len() == i,
            forall|k: int|
                0 <= k < i ==> #[trigger] points@[k] == (Point {
                    id: k as usize,
                    x: xs@[k],
                    y: ys@[k],
                }),
        decreases n - i,
    {
        points.push(Point { id: i, x: xs[i], y: ys[i] });
        i += 1;
    }
    assert(points@ =~= paired(xs@, ys@));
    points
}

/// The samples of one training session: the feature values in ascending
/// order, their ranks as labels, and the axis the features were taken from.
#[derive(Debug, Clone)]
pub struct Trainer {
    train_x: Vec<i32>,
    train_y: Vec<i32>,
    axis: Axis,
}

impl Default for Trainer {
    fn default() -> (t: Trainer)
        ensures
            t.features() == Seq::<i32>::empty(),
            t.labels() == Seq::<i32>::empty(),
            t.chosen_axis() == Axis::X,
    {
        Trainer { train_x: Vec::new(), train_y: Vec::new(), axis: Axis::X }
    }
}

impl Trainer {
    /// The feature values.
    pub closed spec fn features(&self) -> Seq<i32> {
        self.train_x@
    }

    /// The labels.
    pub closed spec fn labels(&self) -> Seq<i32> {
        self.train_y@
    }

    /// The axis the features were taken from.
    pub closed spec fn chosen_axis(&self) -> Axis {
        self.axis
    }

    /// Whether the trainer holds what preparing `points` leaves in it: the
    /// axis selected for them, their coordinates on it in ascending order, and
    /// as many ranks.
    pub open spec fn prepared_from(&self, points: Seq<Point>) -> bool {
        let axis = select_axis(coords(points, Axis::X), coords(points, Axis::Y));
        &&& self.chosen_axis() == axis
        &&& self.features() == coords(stable_sort(points, axis), axis)
        &&& self.labels() == ranks(points.len())
    }

    /// Whether the trainer holds what the coordinates `xs` and `ys` of some
    /// points call for: the axis selected for them, as features their
    /// coordinates on that axis, each as often as it was given and in
    /// ascending order, and as labels the ranks from 0.
    pub open spec fn trained_on(&self, xs: Seq<i32>, ys: Seq<i32>) -> bool {
        &&& self.chosen_axis() == select_axis(xs, ys)
        &&& ascending(self.features())
        &&& self.features().to_multiset() == (match self.chosen_axis() {
            Axis::X => xs,
            Axis::Y => ys,
        }).to_multiset()
        &&& self.labels().len() == xs.len()
        &&& forall|i: int| 0 <= i < xs.len() ==> #[trigger] self.labels()[i] == i
    }

    /// A trainer without samples, on the x axis.
    pub fn new() -> (t: Trainer)
        ensures
            t.features() == Seq::<i32>::empty(),
            t.labels() == Seq::<i32>::empty(),
            t.chosen_axis() == Axis::X,
    {
        Trainer { train_x: Vec::new(), train_y: Vec::new(), axis: Axis::X }
    }

    pub fn train_x(&self) -> (xs: &Vec<i32>)
        ensures
            xs@ == self.features(),
    {
        &self.train_x
    }

    pub fn train_y(&self) -> (ys: &Vec<i32>)
        ensures
            ys@ == self.labels(),
    {
        &self.train_y
    }

    pub fn axis(&self) -> (axis: &Axis)
        ensures
            *axis == self.chosen_axis(),
    {
        &self.axis
    }

    pub fn set_train_x(&mut self, xs: Vec<i32>)
        ensures
            final(self).features() == xs@,
            final(self).labels() == old(self).labels(),
            final(self).chosen_axis() == old(self).chosen_axis(),
    {
        self.train_x = xs
    }

    pub fn set_train_y(&mut self, ys: Vec<i32>)
        ensures
            final(self).labels() == ys@,
            final(self).features() == old(self).features(),
            final(self).chosen_axis() == old(self).chosen_axis(),
    {
        self.train_y = ys
    }

    pub fn set_axis(&mut self, axis: Axis)
        ensures
            final(self).chosen_axis() == axis,
            final(self).features() == old(self).features(),
            final(self).labels() == old(self).labels(),
    {
        self.axis = axis
    }

    /// Fits `model` to the trainer's samples and hands back what the model
    /// answers, unchanged.
    pub fn train<M: Model>(&self, model: &mut M) -> (result: Result<(), Error>)
        ensures
            M::fit_outcome(old(model), self.features(), self.labels(), final(model), result),
            result is Ok ==> self.features().len() == self.labels().len() && self.features().len()
                > 0,
            self.features().len() == 0 && self.labels().len() == 0 ==> result == Err::<(), Error>(
                Error::EmptyInput,
            ),
            self.features().len() > 0 && self.labels().len() > 0 && self.features().len()
                != self.labels().len() ==> result == Err::<(), Error>(Error::LengthMismatch),
    {
        model.fit(&self.train_x, &self.train_y)
    }

    /// Prepares a trainer from the points with coordinates `xs[i]`, `ys[i]`,
    /// and returns it with the points in training order.
    ///
    /// Empty `xs` are refused as `EmptyInput`, sequences of unequal length as
    /// `LengthMismatch`.
    pub fn with_data(xs: Vec<i32>, ys: Vec<i32>) -> (result: Result<(Trainer, Vec<Point>), Error>)
        requires
            xs@.len() == ys@.len() ==> xs@.len() <= MAX_SAMPLES,
        ensures
            xs@.len() == 0 ==> result == Err::<(Trainer, Vec<Point>), Error>(Error::EmptyInput),
            xs@.len() != 0 && xs@.len() != ys@.len() ==> result == Err::<
                (Trainer, Vec<Point>),
                Error,
            >(Error::LengthMismatch),
            xs@.len() != 0 && xs@.len() == ys@.len() ==> result is Ok && result.unwrap().0.prepared_from(
                paired(xs@, ys@),
            ) && result.unwrap().1@ == stable_sort(
                paired(xs@, ys@),
                result.unwrap().0.chosen_axis(),
            ),
            xs@.len() != 0 && xs@.len() == ys@.len() ==> result.unwrap().0.trained_on(xs@, ys@)
                && sorted_on(result.unwrap().1@, result.unwrap().0.chosen_axis()),
    {
        if xs.len() == 0 {
            return Err(Error::EmptyInput);
        }
        if xs.len() != ys.len() {
            return Err(Error::LengthMismatch);
        }
        let mut trainer = Trainer::new();
        match trainer.preprocess(xs, ys) {
            Ok(data) => Ok((trainer, data)),
            Err(e) => Err(e),
        }
    }

    /// Prepares the samples from the points with coordinates `xs[i]`, `ys[i]`
    /// and returns the points in training order: ascending along the selected
    /// axis, points of one coordinate in their given order.
    ///
    /// Empty `xs` are refused as `EmptyInput`, sequences of unequal length as
    /// `LengthMismatch`; the trainer is then left as it was.
    pub fn preprocess(&mut self, xs: Vec<i32>, ys: Vec<i32>) -> (result: Result<Vec<Point>, Error>)
        requires
            xs@.len() == ys@.len() ==> xs@.len() <= MAX_SAMPLES,
        ensures
            xs@.len() == 0 ==> result == Err::<Vec<Point>, Error>(Error::EmptyInput) && *final(self)
                == *old(self),
            xs@.len() != 0 && xs@.len() != ys@.len() ==> result == Err::<Vec<Point>, Error>(
                Error::LengthMismatch,
            ) && *final(self) == *old(self),
            xs@.len() != 0 && xs@.len() == ys@.len() ==> result is Ok && final(self).prepared_from(
                paired(xs@, ys@),
            ) && result.unwrap()@ == stable_sort(paired(xs@, ys@), final(self).chosen_axis()),
            xs@.len() != 0 && xs@.len() == ys@.len() ==> final(self).trained_on(xs@, ys@)
                && sorted_on(result.unwrap()@, final(self).chosen_axis()),
    {
        if xs.len() == 0 {
            return Err(Error::EmptyInput);
        }
        if xs.len() != ys.len() {
            return Err(Error::LengthMismatch);
        }
        let mut ps = pair_up(&xs, &ys);
        proof {
            assert(coords(ps@, Axis::X) =~= xs@);
            assert(coords(ps@, Axis::Y) =~= ys@);
        }
        let axis = if variance(&ys) > variance(&xs) {
            Axis::Y
        } else {
            Axis::X
        };
        sort_by_axis(&mut ps, axis);
        self.set_axis(axis);
        self.set_train_x(extract(&ps, axis));
        proof {
            lemma_stable_sort_len(paired(xs@, ys@), axis);
            lemma_stable_sort_sorted(paired(xs@, ys@), axis);
            lemma_stable_sort_permutes(paired(xs@, ys@), axis, axis);
        }
        self.set_train_y(rank_labels(ps.len()));
        Ok(ps)
    }

    /// Prepares a trainer from `points` and leaves them in training order:
    /// ascending along the selected axis, points of one coordinate in their
    /// given order.
    pub fn with_points(points: &mut Vec<Point>) -> (result: Result<Trainer, Error>)
        requires
            old(points)@.len() <= MAX_SAMPLES,
        ensures
            result is Ok,
            result.unwrap().prepared_from(old(points)@),
            final(points)@ == stable_sort(old(points)@, result.unwrap().chosen_axis()),
            result.unwrap().trained_on(coords(old(points)@, Axis::X), coords(old(points)@, Axis::Y)),
            sorted_on(final(points)@, result.unwrap().chosen_axis()),
            final(points)@.to_multiset() == old(points)@.to_multiset(),
    {
        let px = extract(points, Axis::X);
        let py = extract(points, Axis::Y);
        let axis = if variance(&py) > variance(&px) {
            Axis::Y
        } else {
            Axis::X
        };
        sort_by_axis(points, axis);
        let train_x = extract(points, axis);
        proof {
            lemma_stable_sort_len(old(points)@, axis);
            lemma_stable_sort_sorted(old(points)@, axis);
            lemma_stable_sort_permutes(old(points)@, axis, axis);
        }
        let train_y = rank_labels(points.len());
        Ok(Trainer { train_x, train_y, axis })
    }
}

} // verus!
