use vstd::prelude::*;
use vstd::multiset::Multiset;
use crate::hasher::LearnedHasher;
use crate::model::Model;
use crate::point::key_coord;
use crate::point::Point;
use vstd::arithmetic::div_mod::lemma_mod_bound;

verus! {

/// The point of `bucket` that is stored under `key`, if there is one.
pub open spec fn bucket_find(bucket: Seq<Point>, key: (i32, i32)) -> Option<Point>
    decreases bucket.len(),
{
    if bucket.len() == 0 {
        None
    } else if bucket.last().key() == key {
        Some(bucket.last())
    } else {
        bucket_find(bucket.drop_last(), key)
    }
}

/// No two points of `bucket` share a key.
pub open spec fn distinct_keys(bucket: Seq<Point>) -> bool {
    forall|i: int, j: int|
        0 <= i < j < bucket.len() ==> (#[trigger] bucket[i]).key() != (#[trigger] bucket[j]).key()
}

/// The number of points in all of `buckets`.
pub open spec fn total(buckets: Seq<Vec<Point>>) -> nat
    decreases buckets.len(),
{
    if buckets.len() == 0 {
        0
    } else {
        total(buckets.drop_last()) + buckets.last()@.len()
    }
}

/// The points of all `buckets`, each as often as it is stored.
pub open spec fn stored(buckets: Seq<Vec<Point>>) -> Multiset<Point>
    decreases buckets.len(),
{
    if buckets.len() == 0 {
        Multiset::empty()
    } else {
        stored(buckets.drop_last()).add(buckets.last()@.to_multiset())
    }
}

/// The capacity that follows `capacity` when the table grows: one slot for
/// an empty table, then twice as many, for as long as the doubled number can
/// be counted.
pub open spec fn next_capacity(capacity: nat) -> nat {
    if capacity == 0 {
        1
    } else if 2 * capacity > usize::MAX {
        capacity
    } else {
        2 * capacity
    }
}

/// Whether a table of `capacity` slots that holds `items` points grows before
/// the next point is placed: an empty table does, and so does one that is
/// more than three quarters full.
pub open spec fn must_grow(capacity: nat, items: nat) -> bool {
    capacity == 0 || items > 3 * capacity / 4
}

/// What looking a key up in a bucket finds, where no two points share a key:
/// nothing if no point has the key, else the one point that has it.
proof fn lemma_find(bucket: Seq<Point>, key: (i32, i32))
    requires
        distinct_keys(bucket),
    ensures
        bucket_find(bucket, key) is None ==> forall|i: int|
            0 <= i < bucket.len() ==> (#[trigger] bucket[i]).key() != key,
        bucket_find(bucket, key) is Some ==> bucket_find(bucket, key).unwrap().key() == key
            && bucket.contains(bucket_find(bucket, key).unwrap()),
        forall|i: int|
            0 <= i < bucket.len() && (#[trigger] bucket[i]).key() == key ==> bucket_find(
                bucket,
                key,
            ) == Some(bucket[i]),
    decreases bucket.len(),
{
    if bucket.len() > 0 {
        let rest = bucket.drop_last();
        assert(distinct_keys(rest)) by {
            assert forall|i: int, j: int| 0 <= i < j < rest.len() implies (#[trigger] rest[i]).key()
                != (#[trigger] rest[j]).key() by {
                assert(rest[i] == bucket[i] && rest[j] == bucket[j]);
            }
        }
        lemma_find(rest, key);
        if bucket.last().key() == key {
            assert(bucket[bucket.len() - 1] == bucket.last());
            assert forall|i: int| 0 <= i < bucket.len() && (#[trigger] bucket[i]).key() == key implies i
                == bucket.len() - 1 by {
                if i < bucket.len() - 1 {
                    assert(bucket[i].key() != bucket[bucket.len() - 1].key());
                }
            }
        } else {
            assert forall|i: int| 0 <= i < bucket.len() implies (bucket_find(bucket, key) is None
                ==> (#[trigger] bucket[i]).key() != key) && (bucket[i].key() == key ==> bucket_find(
                bucket,
                key,
            ) == Some(bucket[i])) by {
                if i < bucket.len() - 1 {
                    assert(rest[i] == bucket[i]);
                }
            }
            if bucket_find(bucket, key) is Some {
                let q = bucket_find(rest, key).unwrap();
                let i = choose|i: int| 0 <= i < rest.len() && rest[i] == q;
                assert(bucket[i] == q);
            }
        }
    }
}

/// Appending a point whose key is new keeps the keys distinct and changes what
/// is found under that key alone.
proof fn lemma_push(bucket: Seq<Point>, p: Point)
    requires
        distinct_keys(bucket),
        bucket_find(bucket, p.key()) is None,
    ensures
        distinct_keys(bucket.push(p)),
        forall|k: (i32, i32)| #[trigger]
            bucket_find(bucket.push(p), k) == if k == p.key() {
                Some(p)
            } else {
                bucket_find(bucket, k)
            },
{
    lemma_find(bucket, p.key());
    let after = bucket.push(p);
    assert(after.drop_last() =~= bucket);
    assert forall|i: int, j: int| 0 <= i < j < after.len() implies (#[trigger] after[i]).key()
        != (#[trigger] after[j]).key() by {
        assert(after[i] == bucket[i]);
        if j < bucket.len() {
            assert(after[j] == bucket[j]);
        }
    }
}

/// Replacing a point by one of the same key keeps the keys distinct and
/// changes what is found under that key alone.
proof fn lemma_replace(bucket: Seq<Point>, at: int, p: Point)
    requires
        distinct_keys(bucket),
        0 <= at < bucket.len(),
        bucket[at].key() == p.key(),
    ensures
        distinct_keys(bucket.update(at, p)),
        forall|k: (i32, i32)| #[trigger]
            bucket_find(bucket.update(at, p), k) == if k == p.key() {
                Some(p)
            } else {
                bucket_find(bucket, k)
            },
{
    let after = bucket.update(at, p);
    assert forall|i: int, j: int| 0 <= i < j < after.len() implies (#[trigger] after[i]).key()
        != (#[trigger] after[j]).key() by {
        assert(after[i].key() == bucket[i].key());
        assert(after[j].key() == bucket[j].key());
    }
    assert forall|k: (i32, i32)| #[trigger]
        bucket_find(after, k) == if k == p.key() {
            Some(p)
        } else {
            bucket_find(bucket, k)
        } by {
        lemma_find(bucket, k);
        lemma_find(after, k);
        if k == p.key() {
            assert(after[at] == p);
        } else {
            if bucket_find(bucket, k) is Some {
                let q = bucket_find(bucket, k).unwrap();
                let i = choose|i: int| 0 <= i < bucket.len() && bucket[i] == q;
                assert(after[i] == q);
            } else if bucket_find(after, k) is Some {
                let q = bucket_find(after, k).unwrap();
                let i = choose|i: int| 0 <= i < after.len() && after[i] == q;
                assert(bucket[i] == q);
            }
        }
    }
}

/// Moving the last point into the place of another and dropping the last
/// place keeps the keys distinct and forgets the key of the point that was
/// overwritten, and no other.
proof fn lemma_swap_remove(bucket: Seq<Point>, at: int)
    requires
        distinct_keys(bucket),
        0 <= at < bucket.len(),
    ensures
        distinct_keys(bucket.update(at, bucket.last()).drop_last()),
        forall|k: (i32, i32)| #[trigger]
            bucket_find(bucket.update(at, bucket.last()).drop_last(), k) == if k == bucket[at].key() {
                None
            } else {
                bucket_find(bucket, k)
            },
{
    let after = bucket.update(at, bucket.last()).drop_last();
    let last = bucket.len() - 1;
    assert forall|i: int| 0 <= i < after.len() implies #[trigger] after[i] == (if i == at {
        bucket[last]
    } else {
        bucket[i]
    }) by {}
    assert forall|i: int, j: int| 0 <= i < j < after.len() implies (#[trigger] after[i]).key()
        != (#[trigger] after[j]).key() by {
        let oi = if i == at { last } else { i };
        let oj = if j == at { last } else { j };
        assert(after[i] == bucket[oi] && after[j] == bucket[oj]);
        if oi < oj {
            assert(bucket[oi].key() != bucket[oj].key());
        } else {
            assert(bucket[oj].key() != bucket[oi].key());
        }
    }
    assert forall|k: (i32, i32)| #[trigger]
        bucket_find(after, k) == if k == bucket[at].key() {
            None
        } else {
            bucket_find(bucket, k)
        } by {
        lemma_find(bucket, k);
        lemma_find(after, k);
        if bucket_find(after, k) is Some {
            let q = bucket_find(after, k).unwrap();
            let i = choose|i: int| 0 <= i < after.len() && after[i] == q;
            let oi = if i == at { last } else { i };
            assert(bucket[oi] == q);
            if k == bucket[at].key() {
                if oi < at {
                    assert(bucket[oi].key() != bucket[at].key());
                } else {
                    assert(bucket[at].key() != bucket[oi].key());
                }
            }
        } else if k != bucket[at].key() && bucket_find(bucket, k) is Some {
            let q = bucket_find(bucket, k).unwrap();
            let i = choose|i: int| 0 <= i < bucket.len() && bucket[i] == q;
            let ni = if i == last { at } else { i };
            assert(after[ni] == q);
        }
    }
}

/// Changing one bucket changes the number of points by the change of that
/// bucket's length.
proof fn lemma_total_update(buckets: Seq<Vec<Point>>, at: int, b: Vec<Point>)
    requires
        0 <= at < buckets.len(),
    ensures
        total(buckets.update(at, b)) == total(buckets) - buckets[at]@.len() + b@.len(),
    decreases buckets.len(),
{
    let after = buckets.update(at, b);
    if at == buckets.len() - 1 {
        assert(after.drop_last() =~= buckets.drop_last());
    } else {
        lemma_total_update(buckets.drop_last(), at, b);
        assert(after.drop_last() =~= buckets.drop_last().update(at, b));
    }
}

/// A table of empty buckets holds no point.
proof fn lemma_total_empty(buckets: Seq<Vec<Point>>)
    requires
        forall|i: int| 0 <= i < buckets.len() ==> (#[trigger] buckets[i])@.len() == 0,
    ensures
        total(buckets) == 0,
    decreases buckets.len(),
{
    if buckets.len() > 0 {
        assert(buckets.last() == buckets[buckets.len() - 1]);
        lemma_total_empty(buckets.drop_last());
    }
}

/// A table that holds no point has only empty buckets.
proof fn lemma_total_zero(buckets: Seq<Vec<Point>>, at: int)
    requires
        total(buckets) == 0,
        0 <= at < buckets.len(),
    ensures
        buckets[at]@.len() == 0,
    decreases buckets.len(),
{
    if at < buckets.len() - 1 {
        lemma_total_zero(buckets.drop_last(), at);
    }
}

/// A hash table for points, keyed by their coordinates, whose bucket function
/// is a fitted model.
///
/// The table is a sequence of buckets. A point lies in the bucket that the
/// hasher selects for its key under the present capacity, and no two points
/// of a bucket share a key.
pub struct LearnedHashMap<M: Model> {
    hasher: LearnedHasher<M>,
    table: Vec<Vec<Point>>,
    items: usize,
}

/// Every point of `table` lies in the bucket that `hasher` selects for it, and
/// no bucket holds a key twice.
pub open spec fn table_ok<M: Model>(hasher: LearnedHasher<M>, table: Seq<Vec<Point>>) -> bool {
    &&& forall|i: int| 0 <= i < table.len() ==> distinct_keys((#[trigger] table[i])@)
    &&& forall|i: int, j: int|
        0 <= i < table.len() && 0 <= j < table[i]@.len() ==> hasher.spec_hash(
            (#[trigger] table[i]@[j]).key(),
            table.len() as int,
        ) == i
}

/// The point that `table` holds under `key`, if any.
pub open spec fn lookup<M: Model>(
    hasher: LearnedHasher<M>,
    table: Seq<Vec<Point>>,
    key: (i32, i32),
) -> Option<Point> {
    if table.len() == 0 {
        None
    } else {
        bucket_find(table[hasher.spec_hash(key, table.len() as int)]@, key)
    }
}

impl<M: Model> View for LearnedHashMap<M> {
    type V = Map<(i32, i32), Point>;

    /// The table as a map from keys to the points stored under them.
    closed spec fn view(&self) -> Map<(i32, i32), Point> {
        Map::new(
            |k: (i32, i32)| lookup(self.hasher, self.table@, k) is Some,
            |k: (i32, i32)| lookup(self.hasher, self.table@, k).unwrap(),
        )
    }
}

impl<M: Model> LearnedHashMap<M> {
    /// The invariant of the table.
    pub closed spec fn wf(&self) -> bool {
        &&& table_ok(self.hasher, self.table@)
        &&& self.items == total(self.table@)
        &&& self@.dom().finite()
        &&& self.items == self@.len()
    }

    /// The number of buckets.
    pub closed spec fn spec_capacity(&self) -> nat {
        self.table@.len()
    }

    /// The number of points stored: the number of keys of the map.
    pub open spec fn spec_len(&self) -> nat {
        self@.len()
    }

    /// A sound table holds finitely many points.
    pub proof fn lemma_finite(&self)
        requires
            self.wf(),
        ensures
            self@.dom().finite(),
    {
    }

    /// The hasher that places the points.
    pub closed spec fn hasher(&self) -> LearnedHasher<M> {
        self.hasher
    }

    /// The points that lie in the buckets, each as often as it lies there.
    pub closed spec fn points(&self) -> Multiset<Point> {
        stored(self.table@)
    }

    /// The buckets hold the points of the map, each once, and nothing else.
    pub proof fn lemma_points(&self, q: Point)
        requires
            self.wf(),
        ensures
            self.points().count(q) == if self@.contains_key(q.key()) && self@[q.key()] == q {
                1nat
            } else {
                0nat
            },
            self.points().len() == self.spec_len(),
    {
        let n = self.table@.len() as int;
        assert(self.table@.take(n) =~= self.table@);
        lemma_stored_count(self.hasher, self.table@, n, q);
        lemma_stored_len(self.table@);
        if n > 0 {
            lemma_mod_bound(
                self.hasher.model.prediction(key_coord(q.key(), self.hasher.axis)) as int,
                n,
            );
        }
    }

    /// Every point is stored under its own key.
    pub proof fn lemma_keys_match(&self, key: (i32, i32))
        requires
            self.wf(),
            self@.contains_key(key),
        ensures
            self@[key].key() == key,
    {
        lemma_find(self.table@[self.hasher.spec_hash(key, self.table@.len() as int)]@, key);
    }

    /// An empty table without buckets, whose model reads the x coordinate.
    pub fn new(model: M) -> (m: Self)
        ensures
            m.wf(),
            m@ == Map::<(i32, i32), Point>::empty(),
            m.spec_len() == 0,
            m.spec_capacity() == 0,
            m.hasher() == LearnedHasher::<M>::new_spec(model),
    {
        let m = LearnedHashMap { hasher: LearnedHasher::new(model), table: Vec::new(), items: 0 };
        assert(m@ =~= Map::<(i32, i32), Point>::empty());
        m
    }

    /// An empty table without buckets, with room reserved for `capacity` of
    /// them.
    pub fn with_capacity(model: M, capacity: usize) -> (m: Self)
        ensures
            m.wf(),
            m@ == Map::<(i32, i32), Point>::empty(),
            m.spec_len() == 0,
            m.spec_capacity() == 0,
            m.hasher() == LearnedHasher::<M>::new_spec(model),
    {
        let m = LearnedHashMap {
            hasher: LearnedHasher::new(model),
            table: Vec::with_capacity(capacity),
            items: 0,
        };
        assert(m@ =~= Map::<(i32, i32), Point>::empty());
        m
    }

    /// An empty table without buckets that places points with `hasher`.
    pub fn with_hasher(hasher: LearnedHasher<M>) -> (m: Self)
        ensures
            m.wf(),
            m@ == Map::<(i32, i32), Point>::empty(),
            m.spec_len() == 0,
            m.spec_capacity() == 0,
            m.hasher() == hasher,
    {
        let m = LearnedHashMap { hasher, table: Vec::new(), items: 0 };
        assert(m@ =~= Map::<(i32, i32), Point>::empty());
        m
    }

    /// The number of buckets.
    pub fn capacity(&self) -> (n: usize)
        ensures
            n == self.spec_capacity(),
    {
        self.table.len()
    }

    /// The number of points stored.
    pub fn len(&self) -> (n: usize)
        requires
            self.wf(),
        ensures
            n == self@.len(),
    {
        self.items
    }

    /// Whether no point is stored.
    pub fn is_empty(&self) -> (e: bool)
        requires
            self.wf(),
        ensures
            e == (self.spec_len() == 0),
            e == (self@ == Map::<(i32, i32), Point>::empty()),
    {
        proof {
            if self.items == 0 {
                assert forall|k: (i32, i32)| lookup(self.hasher, self.table@, k) is None by {
                    if self.table@.len() > 0 {
                        lemma_total_zero(
                            self.table@,
                            self.hasher.spec_hash(k, self.table@.len() as int),
                        );
                    }
                }
                assert(self@ =~= Map::<(i32, i32), Point>::empty());
            } else {
                if self@ == Map::<(i32, i32), Point>::empty() {
                    assert forall|i: int| 0 <= i < self.table@.len() implies (
                    #[trigger] self.table@[i])@.len() == 0 by {
                        let b = self.table@[i]@;
                        if b.len() > 0 {
                            let k = b[0].key();
                            lemma_find(b, k);
                            assert(lookup(self.hasher, self.table@, k) is Some);
                            assert(self@.dom().contains(k));
                        }
                    }
                    lemma_total_empty(self.table@);
                }
            }
        }
        self.items == 0
    }

    /// The point stored under `key`, if there is one.
    #[verifier::loop_isolation(false)]
    pub fn get(&self, key: &(i32, i32)) -> (found: Option<&Point>)
        requires
            self.wf(),
        ensures
            found is Some == self@.contains_key(*key),
            found is Some ==> *found.unwrap() == self@[*key],
    {
        if self.table.len() == 0 {
            return None;
        }
        let slot = self.hasher.hash(key, self.table.len());
        let bucket = &self.table[slot];
        let n = bucket.len();
        let mut j: usize = 0;
        while j < n
            invariant
                n == bucket@.len(),
                j <= n,
                forall|t: int| 0 <= t < j ==> (#[trigger] bucket@[t]).key() != *key,
            decreases n - j,
        {
            let ep = &bucket[j];
            if ep.x == key.0 && ep.y == key.1 {
                proof {
                    lemma_find(bucket@, *key);
                }
                return Some(ep);
            }
            j += 1;
        }
        proof {
            lemma_find(bucket@, *key);
        }
        None
    }

    /// Whether a point is stored under `key`.
    pub fn contains_key(&self, key: &(i32, i32)) -> (found: bool)
        requires
            self.wf(),
        ensures
            found == self@.contains_key(*key),
    {
        self.get(key).is_some()
    }

    /// Stores `p` under its key and returns the point that was stored under
    /// that key before, if there was one.
    ///
    /// The table first grows if it has no bucket or is more than three
    /// quarters full. A point of the same key is replaced, whatever its id,
    /// and the number of points stays; otherwise the point is added, for
    /// which the new number of points has to be countable.
    #[verifier::loop_isolation(false)]
    pub fn insert(&mut self, p: Point) -> (previous: Option<Point>)
        requires
            old(self).wf(),
            !old(self)@.contains_key(p.key()) ==> old(self).spec_len() < usize::MAX,
        ensures
            final(self).wf(),
            final(self)@ == old(self)@.insert(p.key(), p),
            previous is Some == old(self)@.contains_key(p.key()),
            previous is Some ==> previous.unwrap() == old(self)@[p.key()],
            final(self).spec_len() == old(self).spec_len() + (if previous is Some {
                0nat
            } else {
                1nat
            }),
            final(self).hasher() == old(self).hasher(),
            final(self).spec_capacity() == (if must_grow(old(self).spec_capacity(), old(self).spec_len()) {
                next_capacity(old(self).spec_capacity())
            } else {
                old(self).spec_capacity()
            }),
    {
        if self.table.len() == 0 || (self.items as u128) > 3 * (self.table.len() as u128) / 4 {
            self.resize();
        }
        let key = (p.x, p.y);
        let slot = self.hasher.hash(&key, self.table.len());
        let n = self.table[slot].len();
        let ghost mid = *self;
        let ghost before = self.table@;
        let ghost bucket = self.table@[slot as int]@;
        let mut j: usize = 0;
        while j < n
            invariant
                *self == mid,
                self.table@ == before,
                slot < before.len(),
                bucket == before[slot as int]@,
                n == bucket.len(),
                j <= n,
                forall|t: int| 0 <= t < j ==> (#[trigger] bucket[t]).key() != key,
            decreases n - j,
        {
            let ep = self.table[slot][j];
            if ep.x == p.x && ep.y == p.y {
                self.table[slot].set(j, p);
                proof {
                    lemma_find(bucket, key);
                    lemma_replace(bucket, j as int, p);
                    lemma_total_update(before, slot as int, self.table@[slot as int]);
                    assert(self.table@ =~= before.update(slot as int, self.table@[slot as int]));
                    lemma_bucket_changed(self.hasher, before, self.table@, slot as int, p);
                    assert(self@ =~= mid@.insert(key, p));
                    assert(mid@.dom().contains(key));
                    assert(self@.dom() =~= mid@.dom());
                }
                return Some(ep);
            }
            j += 1;
        }
        proof {
            lemma_find(bucket, key);
            assert(!mid@.dom().contains(key));
        }
        self.table[slot].push(p);
        self.items += 1;
        proof {
            lemma_push(bucket, p);
            lemma_total_update(before, slot as int, self.table@[slot as int]);
            assert(self.table@ =~= before.update(slot as int, self.table@[slot as int]));
            lemma_bucket_changed(self.hasher, before, self.table@, slot as int, p);
            assert(self@ =~= mid@.insert(key, p));
            assert(self@.dom() =~= mid@.dom().insert(key));
        }
        None
    }

    /// Removes the point stored under `key` and returns it, if there is one.
    #[verifier::loop_isolation(false)]
    pub fn remove(&mut self, key: &(i32, i32)) -> (removed: Option<Point>)
        requires
            old(self).wf(),
        ensures
            final(self).wf(),
            final(self)@ == old(self)@.remove(*key),
            removed is Some == old(self)@.contains_key(*key),
            removed is Some ==> removed.unwrap() == old(self)@[*key],
            final(self).spec_len() == old(self).spec_len() - (if removed is Some {
                1nat
            } else {
                0nat
            }),
            final(self).hasher() == old(self).hasher(),
            final(self).spec_capacity() == old(self).spec_capacity(),
    {
        if self.table.len() == 0 {
            assert(self@ =~= old(self)@.remove(*key));
            return None;
        }
        let slot = self.hasher.hash(key, self.table.len());
        let n = self.table[slot].len();
        let ghost before = self.table@;
        let ghost bucket = self.table@[slot as int]@;
        let mut j: usize = 0;
        while j < n
            invariant
                *self == *old(self),
                self.table@ == before,
                slot < before.len(),
                bucket == before[slot as int]@,
                n == bucket.len(),
                j <= n,
                forall|t: int| 0 <= t < j ==> (#[trigger] bucket[t]).key() != *key,
            decreases n - j,
        {
            let ep = self.table[slot][j];
            if ep.x == key.0 && ep.y == key.1 {
                let taken = self.table[slot].swap_remove(j);
                proof {
                    lemma_find(bucket, *key);
                    lemma_swap_remove(bucket, j as int);
                    lemma_total_update(before, slot as int, self.table@[slot as int]);
                    lemma_total_at_least(before, slot as int);
                }
                self.items -= 1;
                proof {
                    let after = self.table@;
                    assert(after =~= before.update(slot as int, after[slot as int]));
                    assert forall|i: int, t: int|
                        0 <= i < after.len() && 0 <= t < after[i]@.len() implies self.hasher.spec_hash(
                        (#[trigger] after[i]@[t]).key(),
                        after.len() as int,
                    ) == i by {
                        if i == slot {
                            let ot = if t == j { n - 1 } else { t };
                            assert(after[i]@[t] == before[i]@[ot]);
                        } else {
                            assert(after[i] == before[i]);
                        }
                    }
                    assert forall|i: int| 0 <= i < after.len() implies distinct_keys(
                        (#[trigger] after[i])@,
                    ) by {
                        if i != slot {
                            assert(after[i] == before[i]);
                        }
                    }
                    assert forall|k: (i32, i32)| #[trigger]
                        lookup(self.hasher, after, k) == if k == *key {
                            None
                        } else {
                            lookup(self.hasher, before, k)
                        } by {
                        let s = self.hasher.spec_hash(k, after.len() as int);
                        if s == slot {
                            assert(bucket_find(after[slot as int]@, k) == if k == bucket[j as int].key() {
                                None
                            } else {
                                bucket_find(bucket, k)
                            });
                        } else {
                            assert(after[s] == before[s]);
                        }
                    }
                    assert(self@ =~= old(self)@.remove(*key));
                    assert(old(self)@.dom().contains(*key));
                    assert(self@.dom() =~= old(self)@.dom().remove(*key));
                }
                return Some(taken);
            }
            j += 1;
        }
        proof {
            lemma_find(bucket, *key);
            assert(self@ =~= old(self)@.remove(*key));
        }
        None
    }

    /// Grows the table to the next capacity and places every point anew, in
    /// the bucket that the hasher selects for it under that capacity. The
    /// table holds the same points under the same keys afterwards.
    #[verifier::loop_isolation(false)]
    fn resize(&mut self)
        requires
            old(self).wf(),
        ensures
            final(self).wf(),
            final(self)@ == old(self)@,
            final(self).spec_len() == old(self).spec_len(),
            final(self).hasher() == old(self).hasher(),
            final(self).spec_capacity() == next_capacity(old(self).spec_capacity()),
            final(self).spec_capacity() > 0,
            final(self).points() == old(self).points(),
    {
        let n = self.table.len();
        if n > usize::MAX / 2 {
            return;
        }
        let target: usize = if n == 0 { 1 } else { 2 * n };
        let mut new_table: Vec<Vec<Point>> = Vec::new();
        let mut t: usize = 0;
        while t < target
            invariant
                t <= target,
                new_table@.len() == t,
                forall|i: int| 0 <= i < t ==> (#[trigger] new_table@[i])@.len() == 0,
            decreases target - t,
        {
            new_table.push(Vec::new());
            t += 1;
        }
        proof {
            lemma_total_empty(new_table@);
            assert(self.table@.take(0) =~= Seq::<Vec<Point>>::empty());
        }
        let mut i: usize = 0;
        while i < n
            invariant
                *self == *old(self),
                self.wf(),
                n == self.table@.len(),
                i <= n,
                target > 0,
                new_table@.len() == target,
                table_ok(self.hasher, new_table@),
                total(new_table@) == total(self.table@.take(i as int)),
                forall|k: (i32, i32)| #[trigger]
                    lookup(self.hasher, new_table@, k) == moved(
                        self.hasher,
                        self.table@,
                        i as int,
                        0,
                        k,
                    ),
            decreases n - i,
        {
            let m = self.table[i].len();
            let mut j: usize = 0;
            while j < m
                invariant
                    *self == *old(self),
                    self.wf(),
                    n == self.table@.len(),
                    i < n,
                    m == self.table@[i as int]@.len(),
                    j <= m,
                    target > 0,
                    new_table@.len() == target,
                    table_ok(self.hasher, new_table@),
                    total(new_table@) == total(self.table@.take(i as int)) + j,
                    forall|k: (i32, i32)| #[trigger]
                        lookup(self.hasher, new_table@, k) == moved(
                            self.hasher,
                            self.table@,
                            i as int,
                            j as int,
                            k,
                        ),
                decreases m - j,
            {
                let p = self.table[i][j];
                let key = (p.x, p.y);
                let s = self.hasher.hash(&key, target);
                let ghost placed = new_table@;
                let ghost source = self.table@[i as int]@;
                new_table[s].push(p);
                proof {
                    assert(source[j as int] == p);
                    assert(source.take(j as int + 1).drop_last() =~= source.take(j as int));
                    assert(source.take(j as int + 1).last() == p);
                    // the key of `p` has not been placed yet
                    assert(lookup(self.hasher, placed, key) == moved(
                        self.hasher,
                        self.table@,
                        i as int,
                        j as int,
                        key,
                    ));
                    assert(self.hasher.spec_hash(p.key(), n as int) == i);
                    lemma_find(source, key);
                    assert(bucket_find(source.take(j as int), key) is None) by {
                        let part = source.take(j as int);
                        assert(distinct_keys(part)) by {
                            assert forall|a: int, b: int| 0 <= a < b < part.len() implies (
                            #[trigger] part[a]).key() != (#[trigger] part[b]).key() by {
                                assert(part[a] == source[a] && part[b] == source[b]);
                            }
                        }
                        lemma_find(part, key);
                        if bucket_find(part, key) is Some {
                            let q = bucket_find(part, key).unwrap();
                            let a = choose|a: int| 0 <= a < part.len() && part[a] == q;
                            assert(source[a].key() != source[j as int].key());
                        }
                    }
                    lemma_push(placed[s as int]@, p);
                    lemma_total_update(placed, s as int, new_table@[s as int]);
                    assert(new_table@ =~= placed.update(s as int, new_table@[s as int]));
                    lemma_bucket_changed(self.hasher, placed, new_table@, s as int, p);
                }
                j += 1;
            }
            proof {
                assert(self.table@[i as int]@.take(m as int) =~= self.table@[i as int]@);
                assert(self.table@.take(i as int + 1).drop_last() =~= self.table@.take(i as int));
                assert(self.table@.take(i as int + 1).last() == self.table@[i as int]);
                assert(self.table@.take(i as int + 1)[i as int]@ =~= self.table@[i as int]@);
            }
            i += 1;
        }
        proof {
            assert(self.table@.take(n as int) =~= self.table@);
        }
        self.table = new_table;
        proof {
            assert(self@ =~= old(self)@);
            assert forall|q: Point| self.points().count(q) == old(self).points().count(q) by {
                self.lemma_points(q);
                old(self).lemma_points(q);
            }
            assert(self.points() =~= old(self).points());
        }
    }
}

/// What a table under construction holds under `key` when the buckets before
/// `bucket` of `table` and the first `done` points of that bucket have been
/// moved into it.
pub open spec fn moved<M: Model>(
    hasher: LearnedHasher<M>,
    table: Seq<Vec<Point>>,
    bucket: int,
    done: int,
    key: (i32, i32),
) -> Option<Point> {
    if table.len() == 0 {
        None
    } else {
        let s = hasher.spec_hash(key, table.len() as int);
        if s < bucket {
            bucket_find(table[s]@, key)
        } else if s == bucket && bucket < table.len() {
            bucket_find(table[s]@.take(done), key)
        } else {
            None
        }
    }
}

/// A bucket without a repeated key holds a point once if it is what is found
/// under the point's key, and else not at all.
proof fn lemma_bucket_count(bucket: Seq<Point>, q: Point)
    requires
        distinct_keys(bucket),
    ensures
        bucket.to_multiset().count(q) == if bucket_find(bucket, q.key()) == Some(q) {
            1nat
        } else {
            0nat
        },
{
    broadcast use vstd::seq_lib::group_to_multiset_ensures;

    lemma_find(bucket, q.key());
    assert forall|i: int, j: int|
        0 <= i < bucket.len() && 0 <= j < bucket.len() && i != j implies bucket[i] != bucket[j] by {
        if i < j {
            assert(bucket[i].key() != bucket[j].key());
        } else {
            assert(bucket[j].key() != bucket[i].key());
        }
    }
    bucket.lemma_multiset_has_no_duplicates();
    if bucket.contains(q) {
        let i = choose|i: int| 0 <= i < bucket.len() && bucket[i] == q;
        assert(bucket[i].key() == q.key());
        assert(bucket.to_multiset().contains(q));
    }
}

/// Among the first `n` buckets of a sound table a point lies once if its own
/// bucket is among them and finds it, and else not at all.
proof fn lemma_stored_count<M: Model>(
    hasher: LearnedHasher<M>,
    table: Seq<Vec<Point>>,
    n: int,
    q: Point,
)
    requires
        table_ok(hasher, table),
        0 <= n <= table.len(),
    ensures
        stored(table.take(n)).count(q) == if 0 <= hasher.spec_hash(q.key(), table.len() as int) < n
            && bucket_find(table[hasher.spec_hash(q.key(), table.len() as int)]@, q.key()) == Some(
            q,
        ) {
            1nat
        } else {
            0nat
        },
    decreases n,
{
    if n > 0 {
        let part = table.take(n);
        let bucket = table[n - 1]@;
        assert(part.drop_last() =~= table.take(n - 1));
        assert(part.last() == table[n - 1]);
        lemma_stored_count(hasher, table, n - 1, q);
        lemma_bucket_count(bucket, q);
        if hasher.spec_hash(q.key(), table.len() as int) != n - 1 {
            lemma_find(bucket, q.key());
            if bucket_find(bucket, q.key()) == Some(q) {
                let i = choose|i: int| 0 <= i < bucket.len() && bucket[i] == q;
                assert(hasher.spec_hash(table[n - 1]@[i].key(), table.len() as int) == n - 1);
            }
        }
    }
}

/// The buckets hold as many points as their lengths add up to.
proof fn lemma_stored_len(table: Seq<Vec<Point>>)
    ensures
        stored(table).len() == total(table),
    decreases table.len(),
{
    broadcast use vstd::seq_lib::group_to_multiset_ensures;

    if table.len() > 0 {
        lemma_stored_len(table.drop_last());
    }
}

/// A bucket holds no more points than the table.
proof fn lemma_total_at_least(buckets: Seq<Vec<Point>>, at: int)
    requires
        0 <= at < buckets.len(),
    ensures
        buckets[at]@.len() <= total(buckets),
    decreases buckets.len(),
{
    if at < buckets.len() - 1 {
        lemma_total_at_least(buckets.drop_last(), at);
    }
}

/// Where one bucket of a sound table was changed so that it finds `p` under
/// the key of `p` and everything else as before, the table is sound and holds
/// what it held, with `p` stored.
proof fn lemma_bucket_changed<M: Model>(
    hasher: LearnedHasher<M>,
    before: Seq<Vec<Point>>,
    after: Seq<Vec<Point>>,
    slot: int,
    p: Point,
)
    requires
        table_ok(hasher, before),
        0 <= slot < before.len(),
        hasher.spec_hash(p.key(), before.len() as int) == slot,
        after == before.update(slot, after[slot]),
        distinct_keys(after[slot]@),
        forall|k: (i32, i32)| #[trigger]
            bucket_find(after[slot]@, k) == if k == p.key() {
                Some(p)
            } else {
                bucket_find(before[slot]@, k)
            },
    ensures
        table_ok(hasher, after),
        forall|k: (i32, i32)| #[trigger]
            lookup(hasher, after, k) == if k == p.key() {
                Some(p)
            } else {
                lookup(hasher, before, k)
            },
{
    assert forall|i: int, j: int| 0 <= i < after.len() && 0 <= j < after[i]@.len() implies hasher.spec_hash(
        (#[trigger] after[i]@[j]).key(),
        after.len() as int,
    ) == i by {
        if i == slot {
            let q = after[i]@[j];
            assert(bucket_find(after[slot]@, q.key()) == if q.key() == p.key() {
                Some(p)
            } else {
                bucket_find(before[slot]@, q.key())
            });
            lemma_find(after[slot]@, q.key());
            if q.key() != p.key() {
                lemma_find(before[slot]@, q.key());
                let t = choose|t: int| 0 <= t < before[slot]@.len() && before[slot]@[t] == q;
                assert(before[slot]@[t].key() == q.key());
            }
        } else {
            assert(after[i] == before[i]);
        }
    }
    assert forall|i: int| 0 <= i < after.len() implies distinct_keys((#[trigger] after[i])@) by {
        if i != slot {
            assert(after[i] == before[i]);
        }
    }
    assert forall|k: (i32, i32)| #[trigger]
        lookup(hasher, after, k) == if k == p.key() {
            Some(p)
        } else {
            lookup(hasher, before, k)
        } by {
        let s = hasher.spec_hash(k, after.len() as int);
        if s == slot {
            assert(bucket_find(after[slot]@, k) == if k == p.key() {
                Some(p)
            } else {
                bucket_find(before[slot]@, k)
            });
        } else {
            assert(after[s] == before[s]);
        }
    }
}

} // verus!
