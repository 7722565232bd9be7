use learned_hash::error::Error;
use learned_hash::helper::extract_x;
use learned_hash::helper::extract_y;
use learned_hash::helper::sort_by_x;
use learned_hash::helper::sort_by_y;
use learned_hash::linear::LinearModel;
use learned_hash::model::Model;
use learned_hash::point::Axis;
use learned_hash::point::Point;
use learned_hash::trainer::rank_labels;
use learned_hash::trainer::Trainer;
use learned_hash::variance::variance;

fn sample() -> Vec<Point> {
    vec![
        Point { id: 0, x: 1, y: 1 },
        Point { id: 1, x: 3, y: 1 },
        Point { id: 2, x: 2, y: 1 },
        Point { id: 3, x: 3, y: 2 },
        Point { id: 4, x: 5, y: 1 },
    ]
}

#[test]
fn sort_by() {
    let mut data: Vec<Point> = sample();
    let data_sort_by_x: Vec<Point> = vec![
        Point { id: 0, x: 1, y: 1 },
        Point { id: 2, x: 2, y: 1 },
        Point { id: 1, x: 3, y: 1 },
        Point { id: 3, x: 3, y: 2 },
        Point { id: 4, x: 5, y: 1 },
    ];
    sort_by_x(&mut data);

    assert_eq!(data_sort_by_x, data);
}

#[test]
fn train() {
    let mut data: Vec<Point> = sample();
    let trainer = Trainer::with_points(&mut data).unwrap();
    let test_x = vec![1, 2, 3, 3, 5];
    let test_y = vec![0, 1, 2, 3, 4];

    assert_eq!(&test_x, trainer.train_x());
    assert_eq!(&test_y, trainer.train_y());
}

#[test]
fn with_points_selects_x_and_sorts_in_place() {
    let mut data = sample();
    let trainer = Trainer::with_points(&mut data).unwrap();
    assert_eq!(trainer.axis(), &Axis::X);
    assert_eq!(extract_x(&data), vec![1, 2, 3, 3, 5]);
    assert_eq!(extract_y(&data), vec![1, 1, 1, 2, 1]);
    assert_eq!(data[2], Point { id: 1, x: 3, y: 1 });
    assert_eq!(data[3], Point { id: 3, x: 3, y: 2 });
}

#[test]
fn sort_by_y_keeps_the_order_of_equal_points() {
    let mut data = sample();
    sort_by_y(&mut data);
    let ids: Vec<usize> = data.iter().map(|p| p.id).collect();
    assert_eq!(ids, vec![0, 1, 2, 4, 3]);
    let mut empty: Vec<Point> = Vec::new();
    sort_by_y(&mut empty);
    assert!(empty.is_empty());
}

#[test]
fn variance_is_exact() {
    assert_eq!(variance(&vec![1, 3, 2, 3, 5]), 5 * 48 - 14 * 14);
    assert_eq!(variance(&vec![1, 1, 1, 2, 1]), 5 * 8 - 6 * 6);
    assert_eq!(variance(&Vec::new()), 0);
    assert_eq!(variance(&vec![7]), 0);
    assert_eq!(variance(&vec![i32::MIN, i32::MAX]), {
        let d = i32::MAX as i128 - i32::MIN as i128;
        d * d
    });
}

#[test]
fn preprocess_selects_the_axis_of_larger_variance() {
    let mut trainer = Trainer::new();
    let ps = trainer.preprocess(vec![1, 3, 2, 3, 5], vec![1, 1, 1, 2, 1]).unwrap();
    assert_eq!(trainer.axis(), &Axis::X);
    assert_eq!(trainer.train_x(), &vec![1, 2, 3, 3, 5]);
    assert_eq!(trainer.train_y(), &vec![0, 1, 2, 3, 4]);
    assert_eq!(
        ps,
        vec![
            Point::new(0, 1, 1),
            Point::new(2, 2, 1),
            Point::new(1, 3, 1),
            Point::new(3, 3, 2),
            Point::new(4, 5, 1),
        ]
    );

    let ps = trainer.preprocess(vec![1, 1, 1, 2, 1], vec![9, 3, 2, 3, 5]).unwrap();
    assert_eq!(trainer.axis(), &Axis::Y);
    assert_eq!(trainer.train_x(), &vec![2, 3, 3, 5, 9]);
    assert_eq!(trainer.train_y(), &vec![0, 1, 2, 3, 4]);
    assert_eq!(ps[1], Point::new(1, 1, 3));
    assert_eq!(ps[2], Point::new(3, 2, 3));
}

#[test]
fn equal_variances_select_x() {
    let (trainer, ps) = Trainer::with_data(vec![2, 1], vec![4, 3]).unwrap();
    assert_eq!(trainer.axis(), &Axis::X);
    assert_eq!(trainer.train_x(), &vec![1, 2]);
    assert_eq!(trainer.train_y(), &vec![0, 1]);
    assert_eq!(ps, vec![Point::new(1, 1, 3), Point::new(0, 2, 4)]);

    let mut trainer = Trainer::new();
    let ps = trainer.preprocess(vec![1, 2], vec![2, 1]).unwrap();
    assert_eq!(trainer.axis(), &Axis::X);
    assert_eq!(trainer.train_x(), &vec![1, 2]);
    assert_eq!(trainer.train_y(), &vec![0, 1]);
    assert_eq!(ps, vec![Point::new(0, 1, 2), Point::new(1, 2, 1)]);

    let mut points = vec![Point::new(7, 2, 1), Point::new(8, 1, 2)];
    let trainer = Trainer::with_points(&mut points).unwrap();
    assert_eq!(trainer.axis(), &Axis::X);
    assert_eq!(trainer.train_x(), &vec![1, 2]);
    assert_eq!(points, vec![Point::new(8, 1, 2), Point::new(7, 2, 1)]);

    let mut single = vec![Point::new(3, 9, -9)];
    let trainer = Trainer::with_points(&mut single).unwrap();
    assert_eq!(trainer.axis(), &Axis::X);
    assert_eq!(trainer.train_x(), &vec![9]);
    assert_eq!(trainer.train_y(), &vec![0]);
}

#[test]
fn empty_and_mismatched_samples_are_refused() {
    let mut trainer = Trainer::new();
    trainer.set_train_x(vec![8]);
    trainer.set_train_y(vec![9]);
    trainer.set_axis(Axis::Y);
    assert_eq!(trainer.preprocess(vec![], vec![]), Err(Error::EmptyInput));
    assert_eq!(trainer.preprocess(vec![], vec![1]), Err(Error::EmptyInput));
    assert_eq!(trainer.preprocess(vec![1, 2], vec![1]), Err(Error::LengthMismatch));
    assert_eq!(trainer.preprocess(vec![1], vec![]), Err(Error::LengthMismatch));
    assert_eq!(trainer.train_x(), &vec![8]);
    assert_eq!(trainer.train_y(), &vec![9]);
    assert_eq!(trainer.axis(), &Axis::Y);
    assert!(matches!(Trainer::with_data(vec![], vec![]), Err(Error::EmptyInput)));
    assert!(matches!(Trainer::with_data(vec![1], vec![1, 2]), Err(Error::LengthMismatch)));
}

#[test]
fn with_points_on_no_points() {
    let mut none: Vec<Point> = Vec::new();
    let trainer = Trainer::with_points(&mut none).unwrap();
    assert_eq!(trainer.axis(), &Axis::X);
    assert!(trainer.train_x().is_empty());
    assert!(trainer.train_y().is_empty());
}

#[test]
fn train_hands_the_samples_to_the_model() {
    let mut data = sample();
    let trainer = Trainer::with_points(&mut data).unwrap();
    let mut model = LinearModel::new();
    assert_eq!(trainer.train(&mut model), Ok(()));
    assert_eq!(model.predict(1), 0);
    assert_eq!(model.predict(2), 1);
    assert_eq!(model.predict(3), 2);
    assert_eq!(model.predict(5), 4);
}

#[test]
fn train_returns_the_error_of_the_model() {
    let mut model = LinearModel::new();
    assert_eq!(Trainer::new().train(&mut model), Err(Error::EmptyInput));
    let mut trainer = Trainer::new();
    trainer.set_train_x(vec![1, 2]);
    trainer.set_train_y(vec![0]);
    assert_eq!(trainer.train(&mut model), Err(Error::LengthMismatch));
    trainer.set_train_x(vec![1]);
    assert_eq!(trainer.train(&mut model), Err(Error::FitFailed));
}

#[test]
fn rank_labels_count_from_zero() {
    assert_eq!(rank_labels(0), Vec::<i32>::new());
    assert_eq!(rank_labels(4), vec![0, 1, 2, 3]);
}

#[test]
fn default_point_is_the_origin() {
    assert_eq!(Point::default(), Point { id: 0, x: 0, y: 0 });
    assert_eq!(Point::new(3, -1, 2).along(Axis::X), -1);
    assert_eq!(Point::new(3, -1, 2).along(Axis::Y), 2);
}

#[test]
fn new_trainer_has_no_samples() {
    let trainer = Trainer::new();
    assert!(trainer.train_x().is_empty());
    assert!(trainer.train_y().is_empty());
    assert_eq!(trainer.axis(), &Axis::X);
    let other = Trainer::default();
    assert_eq!(other.axis(), &Axis::X);
}
