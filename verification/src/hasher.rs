use vstd::prelude::*;
use vstd::arithmetic::div_mod::lemma_fundamental_div_mod_converse;
use vstd::arithmetic::div_mod::lemma_fundamental_div_mod;
use crate::model::Model;
use crate::point::Axis;
use crate::point::key_coord;

verus! {

/// The slot that a prediction selects among `capacity` slots: the
/// prediction reduced modulo the capacity, which for a positive capacity lies
/// in `0..capacity` whatever the sign of the prediction.
pub open spec fn slot_of(prediction: int, capacity: int) -> int {
    prediction % capacity
}

/// Reduces `prediction` into `0..capacity`.
pub fn reduce(prediction: i32, capacity: usize) -> (slot: usize)
    requires
        capacity > 0,
    ensures
        slot == slot_of(prediction as int, capacity as int),
        slot < capacity,
{
    let c: u64 = capacity as u64;
    if prediction >= 0 {
        let r: u64 = (prediction as u64) % c;
        r as usize
    } else {
        let q: u64 = (-(prediction as i64) - 1) as u64;
        let m: u64 = q % c;
        proof {
            let d: int = q as int / c as int;
            lemma_fundamental_div_mod(q as int, c as int);
            assert(prediction as int == (-d - 1) * c + (c - 1 - m)) by (nonlinear_arith)
                requires
                    q as int == c * d + m,
                    prediction as int == -(q as int) - 1,
            ;
            lemma_fundamental_div_mod_converse(
                prediction as int,
                c as int,
                -d - 1,
                c as int - 1 - m as int,
            );
        }
        (c - 1 - m) as usize
    }
}

/// A bucket function computed by a model: the model's prediction for one
/// coordinate of the key, reduced into the slots of the table.
pub struct LearnedHasher<M: Model> {
    pub model: M,
    pub axis: Axis,
}

impl<M: Model> LearnedHasher<M> {
    /// The hasher that feeds `model` the x coordinate of each key.
    pub open spec fn new_spec(model: M) -> Self {
        LearnedHasher { model, axis: Axis::X }
    }

    /// A hasher that feeds the model the x coordinate of each key.
    pub fn new(model: M) -> (h: Self)
        ensures
            h == Self::new_spec(model),
    {
        LearnedHasher { model, axis: Axis::X }
    }

    /// A hasher that feeds the model the coordinate on `axis`, the one the
    /// model was trained on.
    pub fn with_axis(model: M, axis: Axis) -> (h: Self)
        ensures
            h.model == model,
            h.axis == axis,
    {
        LearnedHasher { model, axis }
    }

    /// The slot of `key` in a table of `capacity` slots.
    pub open spec fn spec_hash(&self, key: (i32, i32), capacity: int) -> int {
        slot_of(self.model.prediction(key_coord(key, self.axis)) as int, capacity)
    }

    /// The slot of `key` in a table of `capacity` slots.
    pub fn hash(&self, key: &(i32, i32), capacity: usize) -> (slot: usize)
        requires
            capacity > 0,
        ensures
            slot == self.spec_hash(*key, capacity as int),
            slot < capacity,
    {
        let feature: i32 = match self.axis {
            Axis::X => key.0,
            Axis::Y => key.1,
        };
        reduce(self.model.predict(feature), capacity)
    }
}

} // verus!
