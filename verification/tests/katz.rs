use mojette::katz_criterion;
use mojette::projection::{Projection, Transform};
use mojette::support::{LinearSupport, RectangularSupport};

#[test]
fn katz_test() {
    let support = RectangularSupport::<u8>::new(3, 4);

    let mut transform = Transform::<u8>::new();
    transform.push(Projection::<u8>::new(1, 0, 0));
    transform.push(Projection::<u8>::new(1, 1, 0));
    transform.push(Projection::<u8>::new(0, 1, 0));
    transform.push(Projection::<u8>::new(-1, 1, 0));

    assert_eq!(true, katz_criterion(&transform, &support));

    let transform = transform[..3].to_vec();

    assert_eq!(false, katz_criterion(&transform, &support));
}

#[test]
fn katz_test2() {
    let support = RectangularSupport::<u8>::new(3, 3);

    let mut transform = Transform::<u8>::new();
    transform.push(Projection::<u8>::new(1, 0, 0));
    transform.push(Projection::<u8>::new(1, 1, 0));
    transform.push(Projection::<u8>::new(0, 1, 0));
    transform.push(Projection::<u8>::new(-1, 1, 0));

    assert_eq!(true, katz_criterion(&transform, &support));

    let transform = transform[..3].to_vec();

    assert_eq!(false, katz_criterion(&transform, &support));
}

#[test]
fn katz_test3() {
    let support = LinearSupport::<u8>::new(3);

    let mut transform = Transform::<u8>::new();
    transform.push(Projection::<u8>::new(1, 0, 0));
    transform.push(Projection::<u8>::new(1, 1, 0));
    transform.push(Projection::<u8>::new(0, 1, 0));
    transform.push(Projection::<u8>::new(-1, 1, 0));

    assert_eq!(true, katz_criterion(&transform, &support));

    let transform = transform[..1].to_vec();

    assert_eq!(false, katz_criterion(&transform, &support));
}

#[test]
fn katz_test4() {
    let support = RectangularSupport::<u8>::new(4, 3);

    let mut transform = Transform::<u8>::new();
    transform.push(Projection::<u8>::new(1, 0, 0));
    transform.push(Projection::<u8>::new(1, 1, 0));
    transform.push(Projection::<u8>::new(0, 1, 0));
    transform.push(Projection::<u8>::new(-1, 1, 0));

    assert_eq!(true, katz_criterion(&transform, &support));

    let transform = transform[..3].to_vec();

    assert_eq!(false, katz_criterion(&transform, &support));
}
