//! Summary behaviour: pushing values, merging summaries, capacity limits.

use mean_by_key::average::Average;
use mean_by_key::error::Error;
use mean_by_key::SCALE;

fn mean_of(a: &Average) -> f64 {
    a.sum() as f64 / (a.count() as f64 * SCALE as f64)
}

#[test]
fn test_average_push() {
    let mut avg = Average::default();

    avg.push(2 * SCALE).unwrap();
    assert_eq!(mean_of(&avg), 2.0);

    avg.push(4 * SCALE).unwrap();
    assert_eq!(mean_of(&avg), 3.0);

    avg.push(6 * SCALE).unwrap();
    assert_eq!(mean_of(&avg), 4.0);
}

#[test]
fn test_average_merge() {
    let mut avg1 = Average::default();
    avg1.push(2 * SCALE).unwrap();
    avg1.push(4 * SCALE).unwrap();

    let mut avg2 = Average::default();
    avg2.push(6 * SCALE).unwrap();
    avg2.push(8 * SCALE).unwrap();

    avg1.merge(avg2).unwrap();
    assert_eq!(mean_of(&avg1), 5.0);
}

#[test]
fn merge_counts_and_sums() {
    // A from {2.0, 4.0} has mean 3.0 and count 2; B from {6.0, 8.0} has
    // mean 7.0 and count 2; merged: mean 5.0, count 4
    let mut a = Average::default();
    a.push(2 * SCALE).unwrap();
    a.push(4 * SCALE).unwrap();
    assert_eq!(mean_of(&a), 3.0);
    assert_eq!(a.count(), 2);

    let mut b = Average::default();
    b.push(6 * SCALE).unwrap();
    b.push(8 * SCALE).unwrap();
    assert_eq!(mean_of(&b), 7.0);

    a.merge(b).unwrap();
    assert_eq!(a.count(), 4);
    assert_eq!(mean_of(&a), 5.0);
}

#[test]
fn merge_is_associative_and_commutative() {
    let values: [&[i128]; 3] = [&[SCALE, 3 * SCALE], &[-7 * SCALE], &[2, 5, 11]];
    let build = |vs: &[i128]| {
        let mut a = Average::default();
        for &v in vs {
            a.push(v).unwrap();
        }
        a
    };
    let (x, y, z) = (build(values[0]), build(values[1]), build(values[2]));

    // (x + y) + z
    let mut left = x;
    left.merge(y).unwrap();
    left.merge(z).unwrap();

    // x + (y + z), built the other way around
    let mut yz = y;
    yz.merge(z).unwrap();
    let mut right = x;
    right.merge(yz).unwrap();

    assert_eq!(left.count(), right.count());
    assert_eq!(left.sum(), right.sum());

    // y + x against x + y
    let mut xy = x;
    xy.merge(y).unwrap();
    let mut yx = y;
    yx.merge(x).unwrap();
    assert_eq!(xy.count(), yx.count());
    assert_eq!(xy.sum(), yx.sum());
}

#[test]
fn merge_of_empty_summaries_is_harmless() {
    // the documented policy: the empty summary is the identity of the
    // merge, so merging two empty summaries yields the empty summary
    let mut a = Average::default();
    let b = Average::default();
    a.merge(b).unwrap();
    assert_eq!(a.count(), 0);
    assert_eq!(a.sum(), 0);

    // and an empty side leaves the other side's content unchanged
    let mut c = Average::default();
    c.push(5 * SCALE).unwrap();
    c.merge(Average::default()).unwrap();
    assert_eq!(c.count(), 1);
    assert_eq!(c.sum(), 5 * SCALE);
}

#[test]
fn push_reports_capacity() {
    let mut a = Average::default();
    a.push(i128::MAX).unwrap();
    assert_eq!(a.push(1), Err(Error::Capacity));
    // the failed push left the summary as it was
    assert_eq!(a.count(), 1);
    assert_eq!(a.sum(), i128::MAX);
}

#[test]
fn merge_reports_capacity() {
    let mut a = Average::default();
    a.push(i128::MAX).unwrap();
    let mut b = Average::default();
    b.push(i128::MAX).unwrap();
    assert_eq!(a.merge(b), Err(Error::Capacity));
    assert_eq!(a.count(), 1);
    assert_eq!(a.sum(), i128::MAX);
}
