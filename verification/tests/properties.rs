use mojette::additive;
use mojette::element::Element;
use mojette::mt;
use mojette::projection::{Projection, Transform};
use mojette::support::{LinearSupport, RectangularSupport, Support};
use mojette::{next_farey_angle_compact, total_farey_angles};

fn four_directions<T: Element>() -> Transform<T> {
    let mut transform = Transform::<T>::new();
    transform.push(Projection::<T>::new(1, 0, 0));
    transform.push(Projection::<T>::new(1, 1, 0));
    transform.push(Projection::<T>::new(0, 1, 0));
    transform.push(Projection::<T>::new(-1, 1, 0));
    transform
}

fn scenario_grid() -> RectangularSupport<u64> {
    let mut support = RectangularSupport::<u64>::new(3, 3);
    support.data = vec![3, 8, 2, 4, 5, 42, 90, 34, 1];
    support
}

#[test]
fn additive_scenario_bins() {
    let mut transform = four_directions::<u64>();
    additive::direct(scenario_grid(), &mut transform);

    assert_eq!(transform[0].bins(), &vec![13, 51, 125]);
    assert_eq!(transform[1].bins(), &vec![3, 12, 97, 76, 1]);
    assert_eq!(transform[2].bins(), &vec![97, 47, 45]);
    assert_eq!(transform[3].bins(), &vec![90, 38, 9, 50, 2]);
}

#[test]
fn additive_scenario_round_trip() {
    let mut transform = four_directions::<u64>();
    additive::direct(scenario_grid(), &mut transform);

    let mut support = RectangularSupport::<u64>::new(3, 3);
    additive::inverse(&mut support, transform);

    assert_eq!(support.data, vec![3, 8, 2, 4, 5, 42, 90, 34, 1]);
}

#[test]
fn additive_degraded_one_removed_still_exact() {
    let mut transform = four_directions::<u64>();
    additive::direct(scenario_grid(), &mut transform);

    // Dropping the row-sum direction keeps the denominator sum at 3, so the
    // Katz criterion still holds against the 3x3 grid.
    transform.remove(0);

    let mut support = RectangularSupport::<u64>::new(3, 3);
    additive::inverse(&mut support, transform);

    assert_eq!(support.data, vec![3, 8, 2, 4, 5, 42, 90, 34, 1]);
}

#[test]
fn additive_degraded_too_few_leaves_defaults() {
    let mut transform = four_directions::<u64>();
    additive::direct(scenario_grid(), &mut transform);

    // Row sums alone make no bin univocal on a 3x3 grid: nothing can be
    // decoded, every cell keeps the default value, and nothing crashes.
    let transform = transform[..1].to_vec();

    let mut support = RectangularSupport::<u64>::new(3, 3);
    additive::inverse(&mut support, transform);

    assert_eq!(support.data, vec![0, 0, 0, 0, 0, 0, 0, 0, 0]);
}

#[test]
fn xor_round_trip_non_square() {
    let mut support = RectangularSupport::<isize>::new(2, 4);
    support.data = vec![-7, 3, 0, 12, 5, -1, 8, 2];

    let mut transform = four_directions::<isize>();
    mt::direct(support, &mut transform);

    let mut support = RectangularSupport::<isize>::new(2, 4);
    mt::inverse(&mut support, transform);

    assert_eq!(support.data, vec![-7, 3, 0, 12, 5, -1, 8, 2]);
}

#[test]
fn bin_count_formula() {
    let mut support = RectangularSupport::<u8>::new(3, 4);
    for i in 0..12 {
        support.data[i] = i as u8;
    }

    let mut transform = four_directions::<u8>();
    mt::direct(support, &mut transform);

    // |p|*(h-1) + q*(w-1) + 1 over a 3x4 (rows x columns) grid.
    assert_eq!(transform[0].bins().len(), 3);
    assert_eq!(transform[1].bins().len(), 6);
    assert_eq!(transform[2].bins().len(), 4);
    assert_eq!(transform[3].bins().len(), 6);
}

#[test]
fn construction_reduces() {
    let pr = Projection::<u8>::new(2, 4, 0);
    assert_eq!((pr.p(), pr.q()), (1, 2));

    let pr = Projection::<u8>::new(-2, 4, 0);
    assert_eq!((pr.p(), pr.q()), (-1, 2));

    let pr = Projection::<u8>::new(0, 7, 0);
    assert_eq!((pr.p(), pr.q()), (0, 1));

    let pr = Projection::<u8>::new(-6, 0, 0);
    assert_eq!((pr.p(), pr.q()), (-1, 0));

    let pr = Projection::<u8>::new(9, 12, 5);
    assert_eq!((pr.p(), pr.q()), (3, 4));
    assert_eq!(pr.bins().len(), 5);
}

#[test]
fn mutation_reduces() {
    let mut pr = Projection::<u8>::new(1, 2, 0);
    pr.set_p(-9);
    assert_eq!((pr.p(), pr.q()), (-9, 2));

    pr.set_q(6);
    assert_eq!((pr.p(), pr.q()), (-3, 2));

    pr.set_p(4);
    assert_eq!((pr.p(), pr.q()), (2, 1));
}

#[test]
fn reduction_idempotent() {
    let mut pr = Projection::<u8>::new(3, 7, 0);
    assert_eq!((pr.p(), pr.q()), (3, 7));

    pr.set_p(3);
    pr.set_p(3);
    assert_eq!((pr.p(), pr.q()), (3, 7));

    pr.set_q(7);
    pr.set_q(7);
    assert_eq!((pr.p(), pr.q()), (3, 7));
}

#[test]
fn projection_default_and_clone() {
    let pr = Projection::<u8>::default();
    assert_eq!((pr.p(), pr.q()), (0, 1));
    assert_eq!(pr.bins().len(), 0);

    let mut orig = Projection::<u8>::new(-3, 5, 2);
    orig.set_bin(0, 17);
    let copy = orig.clone();
    assert_eq!((copy.p(), copy.q()), (-3, 5));
    assert_eq!(copy.bins(), &vec![17, 0]);
}

#[test]
fn rectangular_resize_is_flat() {
    let mut support = RectangularSupport::<u8>::new(2, 3);
    support.data = vec![1, 2, 3, 4, 5, 6];

    support.set_height(3);
    assert_eq!(support.height, 3);
    assert_eq!(support.data, vec![1, 2, 3, 4, 5, 6, 0, 0, 0]);

    support.set_height(1);
    assert_eq!(support.data, vec![1, 2, 3]);

    let mut support = RectangularSupport::<u8>::new(2, 3);
    support.data = vec![1, 2, 3, 4, 5, 6];
    support.set_width(2);
    assert_eq!(support.width, 2);
    // The buffer keeps flat positions, not the 2-D layout.
    assert_eq!(support.data, vec![1, 2, 3, 4]);
}

#[test]
fn linear_resize() {
    let mut support = LinearSupport::<u8>::new(3);
    support.data = vec![7, 8, 9];

    support.set_height(5);
    assert_eq!(support.data, vec![7, 8, 9]);

    support.set_width(5);
    assert_eq!(support.data, vec![7, 8, 9, 0, 0]);

    support.set_width(2);
    assert_eq!(support.data, vec![7, 8]);
}

#[test]
fn support_access() {
    let mut s = RectangularSupport::<u8>::new(2, 3);
    s.set_data(1, 2, 9);
    assert_eq!(*s.get_data(1, 2), 9);
    *s.get_data_mut(0, 1) = 4;
    assert_eq!(s.data, vec![0, 4, 0, 0, 0, 9]);
    assert_eq!(s.height(), 2);
    assert_eq!(s.width(), 3);

    let mut ls = LinearSupport::<u8>::new(2);
    ls.set_data(0, 1, 5);
    *ls.get_data_mut(0, 0) = 3;
    assert_eq!(*ls.get_data(0, 1), 5);
    assert_eq!(ls.data, vec![3, 5]);
    assert_eq!(ls.height(), 1);
    assert_eq!(ls.width(), 2);
}

#[test]
fn farey_angle_count() {
    assert_eq!(total_farey_angles(0), 0);
    assert_eq!(total_farey_angles(5), 8);
    assert_eq!(total_farey_angles(10), 30);
}

#[test]
fn farey_next_angle() {
    // t = (1 + 0 + 5) / 3, so t*p2 - p1 floors to 2 and q follows as p1 + n.
    assert_eq!(next_farey_angle_compact(5, (0, 1), (1, 3)), (2, 5));

    // A negative numerator floors toward negative infinity: -4/3 gives -2.
    assert_eq!(next_farey_angle_compact(1, (0, 1), (-2, 3)), (-2, 1));
}
