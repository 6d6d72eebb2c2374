use mojette::mt::{direct, inverse};
use mojette::projection::{Projection, Transform};
use mojette::support::{LinearSupport, RectangularSupport};

#[test]
fn basic_test() {
    let mut support = RectangularSupport::<usize>::new(3, 3);
    support.data[0] = 3;
    support.data[1] = 8;
    support.data[2] = 2;
    support.data[3] = 4;
    support.data[4] = 5;
    support.data[5] = 42;
    support.data[6] = 90;
    support.data[7] = 34;
    support.data[8] = 1;

    let mut transform = Transform::<usize>::new();
    transform.push(Projection::<usize>::new(1, 0, 0));
    transform.push(Projection::<usize>::new(1, 1, 0));
    transform.push(Projection::<usize>::new(0, 1, 0));
    transform.push(Projection::<usize>::new(-1, 1, 0));

    direct(support, &mut transform);

    let mut support = RectangularSupport::<usize>::new(3, 3);

    inverse(&mut support, transform);

    let res = vec![3, 8, 2, 4, 5, 42, 90, 34, 1];

    assert_eq!(res, support.data);
}

#[test]
fn rectangular_test() {
    let mut support = RectangularSupport::<usize>::new(3, 4);
    support.data[0] = 3;
    support.data[1] = 8;
    support.data[2] = 2;
    support.data[3] = 4;
    support.data[4] = 5;
    support.data[5] = 42;
    support.data[6] = 90;
    support.data[7] = 34;
    support.data[8] = 1;
    support.data[9] = std::usize::MAX;
    support.data[10] = 23;
    support.data[11] = 99;

    let mut transform = Transform::<usize>::new();
    transform.push(Projection::<usize>::new(1, 0, 0));
    transform.push(Projection::<usize>::new(1, 1, 0));
    transform.push(Projection::<usize>::new(0, 1, 0));
    transform.push(Projection::<usize>::new(-1, 1, 0));

    direct(support, &mut transform);

    let mut support = RectangularSupport::<usize>::new(3, 4);

    inverse(&mut support, transform);

    let res = vec![3, 8, 2, 4, 5, 42, 90, 34, 1, std::usize::MAX, 23, 99];

    assert_eq!(res, support.data);
}

#[test]
fn rectangular_test2() {
    let mut support = RectangularSupport::<isize>::new(4, 3);
    support.data[0] = 3;
    support.data[1] = 8;
    support.data[2] = 2;
    support.data[3] = 4;
    support.data[4] = 5;
    support.data[5] = 42;
    support.data[6] = 90;
    support.data[7] = 34;
    support.data[8] = 1;
    support.data[9] = 55;
    support.data[10] = 23;
    support.data[11] = 99;

    let mut transform = Transform::<isize>::new();
    transform.push(Projection::<isize>::new(1, 0, 0));
    transform.push(Projection::<isize>::new(1, 1, 0));
    transform.push(Projection::<isize>::new(0, 1, 0));
    transform.push(Projection::<isize>::new(-1, 1, 0));

    direct(support, &mut transform);

    let mut support = RectangularSupport::<isize>::new(4, 3);

    inverse(&mut support, transform);

    let res = vec![3, 8, 2, 4, 5, 42, 90, 34, 1, 55, 23, 99];

    assert_eq!(res, support.data);
}

#[test]
fn rectangular_test3() {
    let mut support = RectangularSupport::<isize>::new(1, 3);
    support.data[0] = 3;
    support.data[1] = 8;
    support.data[2] = 2;

    let mut transform = Transform::<isize>::new();
    transform.push(Projection::<isize>::new(1, 0, 0));
    transform.push(Projection::<isize>::new(1, 1, 0));
    transform.push(Projection::<isize>::new(0, 1, 0));
    transform.push(Projection::<isize>::new(-1, 1, 0));

    direct(support, &mut transform);

    let mut support = RectangularSupport::<isize>::new(1, 3);

    inverse(&mut support, transform);

    let res = vec![3, 8, 2];

    assert_eq!(res, support.data);
}

#[test]
fn rectangular_test_missing_data() {
    let mut support = RectangularSupport::<isize>::new(1, 3);
    support.data[0] = 3;
    support.data[1] = 8;
    support.data[2] = 2;

    let mut transform = Transform::<isize>::new();
    transform.push(Projection::<isize>::new(1, 0, 0));
    transform.push(Projection::<isize>::new(1, 1, 0));
    transform.push(Projection::<isize>::new(0, 1, 0));
    transform.push(Projection::<isize>::new(-1, 1, 0));

    direct(support, &mut transform);

    let mut support = RectangularSupport::<isize>::new(1, 3);

    transform.pop();
    transform.pop();

    inverse(&mut support, transform);

    let res = vec![3, 8, 2];

    assert_eq!(res, support.data);
}

#[test]
fn linear_test() {
    let mut support = LinearSupport::<isize>::new(3);
    support.data[0] = 3;
    support.data[1] = 8;
    support.data[2] = 2;

    let mut transform = Transform::<isize>::new();
    transform.push(Projection::<isize>::new(1, 0, 0));
    transform.push(Projection::<isize>::new(1, 1, 0));
    transform.push(Projection::<isize>::new(0, 1, 0));
    transform.push(Projection::<isize>::new(-1, 1, 0));

    direct(support, &mut transform);

    let mut support = LinearSupport::<isize>::new(3);

    inverse(&mut support, transform);

    let res = vec![3, 8, 2];

    assert_eq!(res, support.data);
}

#[test]
fn linear_test_missing_data() {
    let mut support = LinearSupport::<isize>::new(3);
    support.data[0] = 3;
    support.data[1] = 8;
    support.data[2] = 2;

    let mut transform = Transform::<isize>::new();
    transform.push(Projection::<isize>::new(1, 0, 0));
    transform.push(Projection::<isize>::new(1, 1, 0));
    transform.push(Projection::<isize>::new(0, 1, 0));
    transform.push(Projection::<isize>::new(-1, 1, 0));

    direct(support, &mut transform);

    let mut support = LinearSupport::<isize>::new(3);

    transform.pop();
    transform.pop();

    inverse(&mut support, transform);

    let res = vec![3, 8, 2];

    assert_eq!(res, support.data);
}

#[test]
fn linear_test2() {
    let mut support = LinearSupport::<u8>::new(3);
    support.data[0] = 3;
    support.data[1] = 8;
    support.data[2] = 2;

    let mut transform = Transform::<u8>::new();
    transform.push(Projection::<u8>::new(1, 0, 0));
    transform.push(Projection::<u8>::new(1, 1, 0));
    transform.push(Projection::<u8>::new(0, 1, 0));
    transform.push(Projection::<u8>::new(-1, 1, 0));

    direct(support, &mut transform);

    let mut support = LinearSupport::<u8>::new(3);

    inverse(&mut support, transform);

    let res = vec![3, 8, 2];

    assert_eq!(res, support.data);
}
