use vstd::prelude::*;
use crate::point::Axis;
use crate::point::Point;

verus! {

/// The coordinates of the points on `axis`, in the order of the points.
pub open spec fn coords(points: Seq<Point>, axis: Axis) -> Seq<i32> {
    Seq::new(points.len(), |i: int| points[i].coord(axis))
}

/// The points ascend along `axis`.
pub open spec fn sorted_on(points: Seq<Point>, axis: Axis) -> bool {
    forall|i: int, j: int|
        0 <= i < j < points.len() ==> (#[trigger] points[i]).coord(axis) <= (
        #[trigger] points[j]).coord(axis)
}

/// `points` with `p` put behind the last point that does not lie beyond it on
/// `axis`.
pub open spec fn insert_by(points: Seq<Point>, p: Point, axis: Axis) -> Seq<Point>
    decreases points.len(),
{
    if points.len() == 0 {
        seq![p]
    } else if points.last().coord(axis) > p.coord(axis) {
        insert_by(points.drop_last(), p, axis).push(points.last())
    } else {
        points.push(p)
    }
}

/// The points in ascending order along `axis`, those of one coordinate in the
/// order in which they stood.
pub open spec fn stable_sort(points: Seq<Point>, axis: Axis) -> Seq<Point>
    decreases points.len(),
{
    if points.len() == 0 {
        points
    } else {
        insert_by(stable_sort(points.drop_last(), axis), points.last(), axis)
    }
}

/// The values ascend.
pub open spec fn ascending(values: Seq<i32>) -> bool {
    forall|i: int, j: int| 0 <= i < j < values.len() ==> values[i] <= values[j]
}

/// The points whose coordinate on `axis` is `c`, in the order in which they
/// stand.
pub open spec fn at_coord(points: Seq<Point>, axis: Axis, c: i32) -> Seq<Point>
    decreases points.len(),
{
    if points.len() == 0 {
        points
    } else if points.last().coord(axis) == c {
        at_coord(points.drop_last(), axis, c).push(points.last())
    } else {
        at_coord(points.drop_last(), axis, c)
    }
}

/// Putting a point into ascending points leaves them ascending.
pub proof fn lemma_insert_by_sorted(points: Seq<Point>, p: Point, axis: Axis)
    requires
        sorted_on(points, axis),
    ensures
        sorted_on(insert_by(points, p, axis), axis),
        forall|q: Point| #[trigger]
            insert_by(points, p, axis).contains(q) ==> q == p || points.contains(q),
    decreases points.len(),
{
    let out = insert_by(points, p, axis);
    if points.len() == 0 {
    } else if points.last().coord(axis) > p.coord(axis) {
        let rest = points.drop_last();
        let last = points.last();
        assert forall|i: int, j: int| 0 <= i < j < rest.len() implies (#[trigger] rest[i]).coord(axis)
            <= (#[trigger] rest[j]).coord(axis) by {
            assert(rest[i] == points[i] && rest[j] == points[j]);
        }
        lemma_insert_by_sorted(rest, p, axis);
        let inner = insert_by(rest, p, axis);
        assert forall|i: int, j: int| 0 <= i < j < out.len() implies (#[trigger] out[i]).coord(axis)
            <= (#[trigger] out[j]).coord(axis) by {
            if j == out.len() - 1 {
                assert(out[i] == inner[i]);
                assert(inner.contains(inner[i]));
                if inner[i] != p {
                    let k = choose|k: int| 0 <= k < rest.len() && rest[k] == inner[i];
                    assert(points[k].coord(axis) <= points[points.len() - 1].coord(axis));
                }
            } else {
                assert(out[i] == inner[i] && out[j] == inner[j]);
            }
        }
        assert forall|q: Point| #[trigger] out.contains(q) implies q == p || points.contains(q) by {
            let k = choose|k: int| 0 <= k < out.len() && out[k] == q;
            if k == out.len() - 1 {
                assert(points[points.len() - 1] == q);
            } else {
                assert(inner[k] == q);
                assert(inner.contains(q));
                if q != p {
                    let t = choose|t: int| 0 <= t < rest.len() && rest[t] == q;
                    assert(points[t] == q);
                }
            }
        }
    } else {
        assert forall|i: int, j: int| 0 <= i < j < out.len() implies (#[trigger] out[i]).coord(axis)
            <= (#[trigger] out[j]).coord(axis) by {
            if j == out.len() - 1 {
                assert(out[i] == points[i]);
                assert(points[i].coord(axis) <= points[points.len() - 1].coord(axis) || i
                    == points.len() - 1);
            } else {
                assert(out[i] == points[i] && out[j] == points[j]);
            }
        }
        assert forall|q: Point| #[trigger] out.contains(q) implies q == p || points.contains(q) by {
            let k = choose|k: int| 0 <= k < out.len() && out[k] == q;
            if k < points.len() {
                assert(points[k] == q);
            }
        }
    }
}

/// Sorted points ascend along the axis they were sorted on.
pub proof fn lemma_stable_sort_sorted(points: Seq<Point>, axis: Axis)
    ensures
        sorted_on(stable_sort(points, axis), axis),
        ascending(coords(stable_sort(points, axis), axis)),
    decreases points.len(),
{
    if points.len() > 0 {
        lemma_stable_sort_sorted(points.drop_last(), axis);
        lemma_insert_by_sorted(stable_sort(points.drop_last(), axis), points.last(), axis);
    }
    let out = stable_sort(points, axis);
    assert forall|i: int, j: int| 0 <= i < j < coords(out, axis).len() implies coords(out, axis)[i]
        <= coords(out, axis)[j] by {
        assert(out[i].coord(axis) <= out[j].coord(axis));
    }
}

/// Putting a point in adds it behind the points of its own coordinate and
/// leaves the points of every other coordinate as they stood.
pub proof fn lemma_insert_by_stable(points: Seq<Point>, p: Point, axis: Axis, c: i32)
    ensures
        at_coord(insert_by(points, p, axis), axis, c) == if p.coord(axis) == c {
            at_coord(points, axis, c).push(p)
        } else {
            at_coord(points, axis, c)
        },
    decreases points.len(),
{
    if points.len() == 0 {
        assert(seq![p].drop_last() =~= points);
        assert(seq![p].last() == p);
    } else if points.last().coord(axis) > p.coord(axis) {
        let inner = insert_by(points.drop_last(), p, axis);
        lemma_insert_by_stable(points.drop_last(), p, axis, c);
        assert(inner.push(points.last()).drop_last() =~= inner);
        assert(inner.push(points.last()).last() == points.last());
    } else {
        assert(points.push(p).drop_last() =~= points);
        assert(points.push(p).last() == p);
    }
}

/// Sorting is stable: the points of one coordinate stand in the sorted
/// sequence in the order in which they stood before.
pub proof fn lemma_stable_sort_stable(points: Seq<Point>, axis: Axis, c: i32)
    ensures
        at_coord(stable_sort(points, axis), axis, c) == at_coord(points, axis, c),
    decreases points.len(),
{
    if points.len() > 0 {
        lemma_stable_sort_stable(points.drop_last(), axis, c);
        lemma_insert_by_stable(stable_sort(points.drop_last(), axis), points.last(), axis, c);
    }
}

/// Putting a point in adds that point to the points, and its coordinate to
/// their coordinates, and nothing else.
pub proof fn lemma_insert_by_permutes(points: Seq<Point>, p: Point, axis: Axis, on: Axis)
    ensures
        insert_by(points, p, axis).to_multiset() == points.to_multiset().insert(p),
        coords(insert_by(points, p, axis), on).to_multiset() == coords(
            points,
            on,
        ).to_multiset().insert(p.coord(on)),
    decreases points.len(),
{
    broadcast use vstd::seq_lib::group_to_multiset_ensures;

    if points.len() == 0 {
        assert(seq![p] =~= points.push(p));
        assert(coords(seq![p], on) =~= coords(points, on).push(p.coord(on)));
    } else if points.last().coord(axis) > p.coord(axis) {
        let rest = points.drop_last();
        let last = points.last();
        let inner = insert_by(rest, p, axis);
        lemma_insert_by_permutes(rest, p, axis, on);
        lemma_insert_by_len(rest, p, axis);
        assert(points =~= rest.push(last));
        assert(coords(points, on) =~= coords(rest, on).push(last.coord(on)));
        assert(coords(inner.push(last), on) =~= coords(inner, on).push(last.coord(on)));
        assert(inner.push(last).to_multiset() =~= points.to_multiset().insert(p));
        assert(coords(inner.push(last), on).to_multiset() =~= coords(
            points,
            on,
        ).to_multiset().insert(p.coord(on)));
    } else {
        assert(coords(points.push(p), on) =~= coords(points, on).push(p.coord(on)));
    }
}

/// Sorting rearranges: the sorted points are the given points, each as often
/// as it was given, and so are their coordinates on either axis.
pub proof fn lemma_stable_sort_permutes(points: Seq<Point>, axis: Axis, on: Axis)
    ensures
        stable_sort(points, axis).to_multiset() == points.to_multiset(),
        coords(stable_sort(points, axis), on).to_multiset() == coords(points, on).to_multiset(),
    decreases points.len(),
{
    broadcast use vstd::seq_lib::group_to_multiset_ensures;

    if points.len() > 0 {
        let rest = points.drop_last();
        lemma_stable_sort_permutes(rest, axis, on);
        lemma_insert_by_permutes(stable_sort(rest, axis), points.last(), axis, on);
        assert(points =~= rest.push(points.last()));
        assert(coords(points, on) =~= coords(rest, on).push(points.last().coord(on)));
    } else {
        assert(coords(stable_sort(points, axis), on) =~= coords(points, on));
    }
}

/// Putting a point in makes the sequence longer by one.
pub proof fn lemma_insert_by_len(points: Seq<Point>, p: Point, axis: Axis)
    ensures
        insert_by(points, p, axis).len() == points.len() + 1,
    decreases points.len(),
{
    if points.len() > 0 && points.last().coord(axis) > p.coord(axis) {
        lemma_insert_by_len(points.drop_last(), p, axis);
    }
}

/// Sorting keeps the number of points.
pub proof fn lemma_stable_sort_len(points: Seq<Point>, axis: Axis)
    ensures
        stable_sort(points, axis).len() == points.len(),
    decreases points.len(),
{
    if points.len() > 0 {
        lemma_stable_sort_len(points.drop_last(), axis);
        lemma_insert_by_len(stable_sort(points.drop_last(), axis), points.last(), axis);
    }
}

/// Putting a point in by coordinate is putting it in at the place behind
/// which every point lies beyond it and before which the nearest does not.
proof fn lemma_insert_at(points: Seq<Point>, p: Point, axis: Axis, at: int)
    requires
        0 <= at <= points.len(),
        forall|k: int| at <= k < points.len() ==> (#[trigger] points[k]).coord(axis) > p.coord(axis),
        at > 0 ==> points[at - 1].coord(axis) <= p.coord(axis),
    ensures
        insert_by(points, p, axis) == points.insert(at, p),
    decreases points.len(),
{
    if points.len() == 0 {
        assert(seq![p] =~= points.insert(at, p));
    } else if at == points.len() {
        assert(points.push(p) =~= points.insert(at, p));
    } else {
        let rest = points.drop_last();
        assert(points.last() == points[points.len() - 1]);
        assert forall|k: int| at <= k < rest.len() implies (#[trigger] rest[k]).coord(axis) > p.coord(
            axis,
        ) by {
            assert(rest[k] == points[k]);
        }
        if at > 0 {
            assert(rest[at - 1] == points[at - 1]);
        }
        lemma_insert_at(rest, p, axis, at);
        assert(rest.insert(at, p).push(points.last()) =~= points.insert(at, p));
    }
}

/// Sorts the points in place, ascending along `axis`; points of one
/// coordinate keep their order.
pub fn sort_by_axis(points: &mut Vec<Point>, axis: Axis)
    ensures
        final(points)@ == stable_sort(old(points)@, axis),
        sorted_on(final(points)@, axis),
        final(points)@.to_multiset() == old(points)@.to_multiset(),
{
    let n = points.len();
    let mut i: usize = 0;
    proof {
        assert(points@.take(0) =~= stable_sort(old(points)@.take(0), axis));
    }
    while i < n
        invariant
            n == points@.len(),
            n == old(points)@.len(),
            i <= n,
            points@.take(i as int) == stable_sort(old(points)@.take(i as int), axis),
            points@.skip(i as int) == old(points)@.skip(i as int),
        decreases n - i,
    {
        let p = points[i];
        let c = p.along(axis);
        let ghost start = points@;
        let ghost prefix = points@.take(i as int);
        proof {
            assert(points@.skip(i as int)[0] == old(points)@.skip(i as int)[0]);
        }
        let mut j: usize = i;
        while j > 0 && points[j - 1].along(axis) > c
            invariant
                j <= i < n,
                n == points@.len(),
                start.len() == n,
                prefix == start.take(i as int),
                c == p.coord(axis),
                forall|k: int| 0 <= k < j ==> #[trigger] points@[k] == start[k],
                forall|k: int| j < k <= i ==> #[trigger] points@[k] == start[k - 1],
                forall|k: int| i < k < n ==> #[trigger] points@[k] == start[k],
                forall|k: int| j <= k < i ==> (#[trigger] start[k]).coord(axis) > c,
            decreases j,
        {
            let q = points[j - 1];
            points.set(j, q);
            j -= 1;
        }
        points.set(j, p);
        proof {
            assert forall|k: int| j <= k < prefix.len() implies (#[trigger] prefix[k]).coord(axis)
                > p.coord(axis) by {
                assert(prefix[k] == start[k]);
            }
            if j > 0 {
                assert(prefix[j - 1] == start[j - 1]);
            }
            lemma_insert_at(prefix, p, axis, j as int);
            assert(points@.take(i as int + 1) =~= prefix.insert(j as int, p));
            let seen = old(points)@.take(i as int + 1);
            assert(seen.drop_last() =~= old(points)@.take(i as int));
            assert(seen.last() == p);
            assert(points@.skip(i as int + 1) =~= old(points)@.skip(i as int + 1)) by {
                let tail = points@.skip(i as int + 1);
                assert forall|k: int| 0 <= k < n - i - 1 implies #[trigger] tail[k] == old(
                    points,
                )@.skip(i as int + 1)[k] by {
                    assert(points@[i + 1 + k] == start[i + 1 + k]);
                    assert(start.skip(i as int)[k + 1] == old(points)@.skip(i as int)[k + 1]);
                }
            }
        }
        i += 1;
    }
    proof {
        assert(points@.take(n as int) =~= points@);
        assert(old(points)@.take(n as int) =~= old(points)@);
        lemma_stable_sort_sorted(old(points)@, axis);
        lemma_stable_sort_permutes(old(points)@, axis, axis);
    }
}

/// Sorts the points in place by their x coordinate, keeping the order of
/// points of one x.
pub fn sort_by_x(points: &mut Vec<Point>)
    ensures
        final(points)@ == stable_sort(old(points)@, Axis::X),
        sorted_on(final(points)@, Axis::X),
        final(points)@.to_multiset() == old(points)@.to_multiset(),
{
    sort_by_axis(points, Axis::X)
}

/// Sorts the points in place by their y coordinate, keeping the order of
/// points of one y.
pub fn sort_by_y(points: &mut Vec<Point>)
    ensures
        final(points)@ == stable_sort(old(points)@, Axis::Y),
        sorted_on(final(points)@, Axis::Y),
        final(points)@.to_multiset() == old(points)@.to_multiset(),
{
    sort_by_axis(points, Axis::Y)
}

/// The coordinates of the points on `axis`, in the order of the points.
pub fn extract(points: &Vec<Point>, axis: Axis) -> (values: Vec<i32>)
    ensures
        values@ == coords(points@, axis),
{
    let n = points.len();
    let mut values: Vec<i32> = Vec::with_capacity(n);
    let mut i: usize = 0;
    while i < n
        invariant
            n == points@.len(),
            i <= n,
            values@.len() == i,
            forall|k: int| 0 <= k < i ==> #[trigger] values@[k] == points@[k].coord(axis),
        decreases n - i,
    {
        values.push(points[i].along(axis));
        i += 1;
    }
    assert(values@ =~= coords(points@, axis));
    values
}

/// The x coordinates of the points, in the order of the points.
pub fn extract_x(points: &Vec<Point>) -> (values: Vec<i32>)
    ensures
        values@ == coords(points@, Axis::X),
{
    extract(points, Axis::X)
}

/// The y coordinates of the points, in the order of the points.
pub fn extract_y(points: &Vec<Point>) -> (values: Vec<i32>)
    ensures
        values@ == coords(points@, Axis::Y),
{
    extract(points, Axis::Y)
}

} // verus!
