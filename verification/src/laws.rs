use vstd::prelude::*;
use crate::helper::ascending;
use crate::helper::coords;
use crate::helper::lemma_stable_sort_len;
use crate::helper::lemma_stable_sort_permutes;
use crate::helper::lemma_stable_sort_sorted;
use crate::map::LearnedHashMap;
use crate::model::Model;
use crate::point::Axis;
use crate::point::Point;
use crate::trainer::paired;
use crate::trainer::select_axis;
use crate::trainer::Trainer;
use crate::variance::scaled_variance;
use crate::variance::MAX_SAMPLES;

verus! {

/// The map that `start` becomes when the points are inserted into it one
/// after another.
pub open spec fn after_inserts(start: Map<(i32, i32), Point>, points: Seq<Point>) -> Map<
    (i32, i32),
    Point,
>
    decreases points.len(),
{
    if points.len() == 0 {
        start
    } else {
        after_inserts(start, points.drop_last()).insert(points.last().key(), points.last())
    }
}

/// A point that was inserted is found under its key, whatever was inserted
/// before it and whatever was inserted after it under other keys.
pub proof fn lemma_insert_then_get(start: Map<(i32, i32), Point>, points: Seq<Point>, i: int)
    requires
        0 <= i < points.len(),
        forall|j: int| i < j < points.len() ==> (#[trigger] points[j]).key() != points[i].key(),
    ensures
        after_inserts(start, points).contains_key(points[i].key()),
        after_inserts(start, points)[points[i].key()] == points[i],
    decreases points.len(),
{
    if i < points.len() - 1 {
        let rest = points.drop_last();
        assert(rest[i] == points[i]);
        assert forall|j: int| i < j < rest.len() implies (#[trigger] rest[j]).key() != rest[i].key() by {
            assert(rest[j] == points[j]);
        }
        lemma_insert_then_get(start, rest, i);
        assert(points.last() == points[points.len() - 1]);
    }
}

/// Inserting a point under a key that is present replaces the point stored
/// there and keeps the number of points: where `after` is `before` with `p`
/// inserted, `p` is found under its key and the length is that of `before`.
pub proof fn lemma_update<M: Model>(before: LearnedHashMap<M>, after: LearnedHashMap<M>, p: Point)
    requires
        before.wf(),
        before@.contains_key(p.key()),
        after@ == before@.insert(p.key(), p),
    ensures
        after.spec_len() == before.spec_len(),
        after@.contains_key(p.key()),
        after@[p.key()] == p,
{
    before.lemma_finite();
    assert(after@.dom() =~= before@.dom());
}

/// Removing a present key makes the table shorter by one and the key absent;
/// removing an absent key changes nothing.
pub proof fn lemma_remove<M: Model>(
    before: LearnedHashMap<M>,
    after: LearnedHashMap<M>,
    key: (i32, i32),
)
    requires
        before.wf(),
        after@ == before@.remove(key),
    ensures
        !after@.contains_key(key),
        before@.contains_key(key) ==> after.spec_len() == before.spec_len() - 1,
        !before@.contains_key(key) ==> after@ == before@,
{
    before.lemma_finite();
    if !before@.contains_key(key) {
        assert(after@ =~= before@);
    }
}

/// Two sound tables that are the same map hold the same points in their
/// buckets, each once: a table that grows loses, repeats and alters none.
pub proof fn lemma_same_map_same_points<M: Model>(a: LearnedHashMap<M>, b: LearnedHashMap<M>)
    requires
        a.wf(),
        b.wf(),
        a@ == b@,
    ensures
        a.points() == b.points(),
        a.spec_len() == b.spec_len(),
{
    assert forall|q: Point| a.points().count(q) == b.points().count(q) by {
        a.lemma_points(q);
        b.lemma_points(q);
    }
    assert(a.points() =~= b.points());
}

/// An insertion, whether or not the table grows for it, leaves every point
/// under another key where it was.
pub proof fn lemma_insert_keeps_others<M: Model>(
    before: LearnedHashMap<M>,
    after: LearnedHashMap<M>,
    p: Point,
    key: (i32, i32),
)
    requires
        after@ == before@.insert(p.key(), p),
        key != p.key(),
    ensures
        after@.contains_key(key) == before@.contains_key(key),
        before@.contains_key(key) ==> after@[key] == before@[key],
{
}

/// What a prepared trainer holds: the axis selected for the points, and as
/// features the coordinates of the points on that axis, each as often as it
/// was given, in ascending order.
pub proof fn lemma_prepared(trainer: Trainer, points: Seq<Point>)
    requires
        trainer.prepared_from(points),
    ensures
        trainer.chosen_axis() == select_axis(coords(points, Axis::X), coords(points, Axis::Y)),
        ascending(trainer.features()),
        trainer.features().to_multiset() == coords(points, trainer.chosen_axis()).to_multiset(),
        trainer.features().len() == points.len(),
        trainer.labels().len() == points.len(),
{
    let axis = trainer.chosen_axis();
    lemma_stable_sort_sorted(points, axis);
    lemma_stable_sort_permutes(points, axis, axis);
    lemma_stable_sort_len(points, axis);
}

/// The labels of a prepared trainer are the ranks from 0, whichever axis was
/// selected.
pub proof fn lemma_labels_are_ranks(trainer: Trainer, points: Seq<Point>)
    requires
        trainer.prepared_from(points),
        points.len() <= MAX_SAMPLES,
    ensures
        trainer.labels().len() == points.len(),
        forall|i: int| 0 <= i < points.len() ==> #[trigger] trainer.labels()[i] == i,
{
}

/// Where the x coordinates vary strictly more than the y coordinates, a
/// trainer prepared from them is on the x axis and its features are the x
/// coordinates in ascending order.
pub proof fn lemma_axis_selection(trainer: Trainer, xs: Seq<i32>, ys: Seq<i32>)
    requires
        xs.len() == ys.len(),
        scaled_variance(xs) > scaled_variance(ys),
        trainer.prepared_from(paired(xs, ys)),
    ensures
        trainer.chosen_axis() == Axis::X,
        ascending(trainer.features()),
        trainer.features().to_multiset() == xs.to_multiset(),
{
    let points = paired(xs, ys);
    assert(coords(points, Axis::X) =~= xs);
    assert(coords(points, Axis::Y) =~= ys);
    lemma_prepared(trainer, points);
}

/// Where the y coordinates vary strictly more than the x coordinates, a
/// trainer prepared from them is on the y axis and its features are the y
/// coordinates in ascending order.
pub proof fn lemma_axis_selection_y(trainer: Trainer, xs: Seq<i32>, ys: Seq<i32>)
    requires
        xs.len() == ys.len(),
        scaled_variance(ys) > scaled_variance(xs),
        trainer.prepared_from(paired(xs, ys)),
    ensures
        trainer.chosen_axis() == Axis::Y,
        ascending(trainer.features()),
        trainer.features().to_multiset() == ys.to_multiset(),
{
    let points = paired(xs, ys);
    assert(coords(points, Axis::X) =~= xs);
    assert(coords(points, Axis::Y) =~= ys);
    lemma_prepared(trainer, points);
}

/// Where the coordinates vary alike on both axes, a trainer prepared from
/// them is on the x axis, the one that is looked at first.
pub proof fn lemma_axis_tie(trainer: Trainer, xs: Seq<i32>, ys: Seq<i32>)
    requires
        xs.len() == ys.len(),
        scaled_variance(xs) == scaled_variance(ys),
        trainer.prepared_from(paired(xs, ys)),
    ensures
        trainer.chosen_axis() == Axis::X,
        ascending(trainer.features()),
        trainer.features().to_multiset() == xs.to_multiset(),
{
    let points = paired(xs, ys);
    assert(coords(points, Axis::X) =~= xs);
    assert(coords(points, Axis::Y) =~= ys);
    lemma_prepared(trainer, points);
}

} // verus!
