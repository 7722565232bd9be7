use learned_hash::error::Error;
use learned_hash::hasher::reduce;
use learned_hash::hasher::LearnedHasher;
use learned_hash::linear::LinearModel;
use learned_hash::map::LearnedHashMap;
use learned_hash::model::Model;
use learned_hash::point::Axis;
use learned_hash::point::Point;
use learned_hash::trainer::Trainer;

/// A model fitted so that it predicts `x` for every `x` from -1000 to 1000.
fn identity() -> LinearModel {
    let mut model = LinearModel::new();
    assert_eq!(model.fit(&vec![-1000, 1000], &vec![-1000, 1000]), Ok(()));
    model
}

/// A model fitted so that it predicts `-3 * x` for every `x` from -1000 to
/// 1000.
fn falling() -> LinearModel {
    let mut model = LinearModel::new();
    assert_eq!(model.fit(&vec![-1000, 1000], &vec![3000, -3000]), Ok(()));
    model
}

#[test]
fn insert() {
    let a = Point { id: 1, x: 0, y: 1 };
    let b = Point { id: 2, x: 1, y: 0 };
    let model = LinearModel::new();
    let mut map = LearnedHashMap::new(model);
    map.insert(a);
    map.insert(b);
    assert_eq!(map.get(&(0, 1)).unwrap(), &a);
    assert_eq!(map.get(&(1, 0)).unwrap(), &b);
}

#[test]
fn insert_repeated() {
    let mut map = LearnedHashMap::new(LinearModel::new());
    let a = Point { id: 1, x: 0, y: 1 };
    let b = Point { id: 2, x: 0, y: 1 };
    let res = map.insert(a);
    assert_eq!(res, None);
    let res = map.insert(b);
    assert_eq!(res, Some(a));
    assert_eq!(map.len(), 1);
    assert_eq!(map.get(&(0, 1)), Some(&b));
}

#[test]
fn new_table_is_empty() {
    let mut map = LearnedHashMap::with_capacity(LinearModel::new(), 16);
    assert!(map.is_empty());
    assert_eq!(map.len(), 0);
    assert_eq!(map.capacity(), 0);
    assert_eq!(map.get(&(3, 4)), None);
    assert!(!map.contains_key(&(3, 4)));
    assert_eq!(map.remove(&(3, 4)), None);
}

#[test]
fn insert_then_get_every_point() {
    let mut map = LearnedHashMap::new(falling());
    for i in 0..200usize {
        let p = Point::new(i, i as i32 - 100, (i * 7 % 13) as i32);
        assert_eq!(map.insert(p), None);
    }
    assert_eq!(map.len(), 200);
    for i in 0..200usize {
        let p = Point::new(i, i as i32 - 100, (i * 7 % 13) as i32);
        assert_eq!(map.get(&(p.x, p.y)), Some(&p));
        assert!(map.contains_key(&p.value()));
    }
    assert!(!map.contains_key(&(1000, 0)));
}

#[test]
fn update_keeps_len_and_returns_previous() {
    let mut map = LearnedHashMap::new(identity());
    assert_eq!(map.insert(Point::new(1, 5, 6)), None);
    assert_eq!(map.insert(Point::new(2, 7, 6)), None);
    assert_eq!(map.len(), 2);
    assert_eq!(map.insert(Point::new(9, 5, 6)), Some(Point::new(1, 5, 6)));
    assert_eq!(map.len(), 2);
    assert_eq!(map.get(&(5, 6)), Some(&Point::new(9, 5, 6)));
    assert_eq!(map.get(&(7, 6)), Some(&Point::new(2, 7, 6)));
}

#[test]
fn remove_present_and_absent() {
    let mut map = LearnedHashMap::new(LinearModel::new());
    for i in 0..10usize {
        map.insert(Point::new(i, i as i32, 0));
    }
    assert_eq!(map.len(), 10);
    assert_eq!(map.remove(&(3, 0)), Some(Point::new(3, 3, 0)));
    assert_eq!(map.len(), 9);
    assert_eq!(map.get(&(3, 0)), None);
    assert_eq!(map.remove(&(3, 0)), None);
    assert_eq!(map.len(), 9);
    assert_eq!(map.remove(&(42, 0)), None);
    assert_eq!(map.len(), 9);
    for i in 0..10usize {
        if i != 3 {
            assert_eq!(map.get(&(i as i32, 0)), Some(&Point::new(i, i as i32, 0)));
        }
    }
    assert!(!map.is_empty());
}

#[test]
fn capacity_doubles_past_three_quarters() {
    let mut map = LearnedHashMap::new(identity());
    let mut seen = Vec::new();
    for i in 0..8usize {
        map.insert(Point::new(i, i as i32, 1));
        seen.push(map.capacity());
    }
    assert_eq!(seen, vec![1, 2, 4, 4, 8, 8, 8, 16]);
    for i in 0..8usize {
        assert_eq!(map.get(&(i as i32, 1)), Some(&Point::new(i, i as i32, 1)));
    }
}

#[test]
fn points_survive_every_resize() {
    let mut map = LearnedHashMap::new(falling());
    for i in 0..100usize {
        map.insert(Point::new(i, -(i as i32), 2));
        for j in 0..=i {
            assert_eq!(map.get(&(-(j as i32), 2)), Some(&Point::new(j, -(j as i32), 2)));
        }
    }
    assert_eq!(map.capacity(), 256);
}

#[test]
fn reduce_is_a_remainder_in_range() {
    assert_eq!(reduce(0, 1), 0);
    assert_eq!(reduce(7, 4), 3);
    assert_eq!(reduce(8, 4), 0);
    assert_eq!(reduce(-1, 4), 3);
    assert_eq!(reduce(-4, 4), 0);
    assert_eq!(reduce(-5, 4), 3);
    assert_eq!(reduce(i32::MIN, 3), 1);
    assert_eq!(reduce(i32::MAX, 3), 1);
    assert_eq!(reduce(-7, usize::MAX), usize::MAX - 7);
}

#[test]
fn hasher_reads_the_coordinate_on_its_axis() {
    let hx = LearnedHasher::new(identity());
    let hy = LearnedHasher::with_axis(identity(), Axis::Y);
    assert_eq!(hx.hash(&(5, 9), 8), 5);
    assert_eq!(hy.hash(&(5, 9), 8), 1);
    assert_eq!(hx.hash(&(-1, 0), 8), 7);
}

#[test]
fn table_with_trained_model() {
    let mut points = vec![
        Point::new(10, 40, 1),
        Point::new(11, 10, 2),
        Point::new(12, 30, 1),
        Point::new(13, 20, 2),
    ];
    let trainer = Trainer::with_points(&mut points).unwrap();
    let mut model = LinearModel::new();
    assert_eq!(trainer.train(&mut model), Ok(()));
    assert_eq!(model.predict(10), 0);
    assert_eq!(model.predict(40), 3);
    let hasher = LearnedHasher::with_axis(model, *trainer.axis());
    let mut map = LearnedHashMap::with_hasher(hasher);
    for p in points.iter() {
        assert_eq!(map.insert(*p), None);
    }
    assert_eq!(map.len(), 4);
    for p in points.iter() {
        assert_eq!(map.get(&p.value()), Some(p));
    }
}

#[test]
fn linear_model_predicts_along_its_line() {
    let mut model = LinearModel::new();
    assert_eq!(model.predict(17), 0);
    assert_eq!(model.fit(&vec![10, 20, 30, 40], &vec![0, 1, 2, 3]), Ok(()));
    assert_eq!(model.predict(10), 0);
    assert_eq!(model.predict(19), 0);
    assert_eq!(model.predict(20), 1);
    assert_eq!(model.predict(35), 2);
    assert_eq!(model.predict(40), 3);
    assert_eq!(model.predict(-5), 0);
    assert_eq!(model.predict(i32::MAX), 3);
    assert_eq!(falling().predict(-1000), 3000);
    assert_eq!(falling().predict(1), -3);
    assert_eq!(falling().predict(1000), -3000);
    let mut wide = LinearModel::new();
    assert_eq!(wide.fit(&vec![i32::MIN, i32::MAX], &vec![i32::MAX, i32::MIN]), Ok(()));
    assert_eq!(wide.predict(i32::MIN), i32::MAX);
    assert_eq!(wide.predict(i32::MAX), i32::MIN);
    assert_eq!(wide.predict(0), -1);
}

#[test]
fn linear_model_refuses_bad_samples() {
    let mut model = identity();
    assert_eq!(model.fit(&vec![], &vec![]), Err(Error::EmptyInput));
    assert_eq!(model.fit(&vec![], &vec![1]), Err(Error::EmptyInput));
    assert_eq!(model.fit(&vec![1, 2], &vec![1]), Err(Error::LengthMismatch));
    assert_eq!(model.fit(&vec![1], &vec![]), Err(Error::LengthMismatch));
    assert_eq!(model.fit(&vec![4], &vec![0]), Err(Error::FitFailed));
    assert_eq!(model.fit(&vec![4, 4], &vec![0, 1]), Err(Error::FitFailed));
    assert_eq!(model.predict(123), 123);
}
