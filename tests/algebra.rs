use solvomatic::logic::YesNoMaybe::{Maybe, No, Yes};
use solvomatic::count::{count_bounds, Count};
use solvomatic::interval::{Interval, Prod, Sum};
use solvomatic::logic::YesNoMaybe;

fn iv(min: i64, max: i64) -> Interval {
    Interval { min, max }
}

#[test]
fn yes_no_maybe_and() {
    assert_eq!(Yes.and(Yes), Yes);
    assert_eq!(Yes.and(Maybe), Maybe);
    assert_eq!(Maybe.and(Maybe), Maybe);
    assert_eq!(Maybe.and(No), No);
    assert_eq!(No.and(Yes), No);
    assert_eq!(YesNoMaybe::from_bool(true), Yes);
    assert_eq!(YesNoMaybe::from_bool(false), No);
    assert_eq!(YesNoMaybe::from(true), Yes);
    assert_eq!(YesNoMaybe::from(false), No);
}

#[test]
fn sum_algebra() {
    let s = Sum::new(10);
    assert_eq!(s.singleton(0, 4), iv(4, 4));
    assert_eq!(s.and(iv(1, 3), iv(2, 5)), iv(3, 8));
    assert_eq!(s.and(iv(1, 3), iv(2, 5)), s.and(iv(2, 5), iv(1, 3)));
    assert_eq!(s.and(s.and(iv(1, 2), iv(3, 4)), iv(5, 6)), s.and(iv(1, 2), s.and(iv(3, 4), iv(5, 6))));
    assert_eq!(s.or(iv(1, 3), iv(2, 5)), iv(1, 5));
    assert_eq!(s.or(iv(1, 3), iv(2, 5)), s.or(iv(2, 5), iv(1, 3)));
    assert_eq!(s.and(iv(i64::MAX, i64::MAX), iv(1, 1)), iv(i64::MAX, i64::MAX));
    assert_eq!(s.check(iv(10, 10)), Yes);
    assert_eq!(s.check(iv(3, 12)), Maybe);
    assert_eq!(s.check(iv(11, 20)), No);
    assert_eq!(s.check(iv(0, 9)), No);
}

#[test]
fn prod_algebra() {
    let p = Prod::new(12);
    assert_eq!(p.and(iv(1, 3), iv(2, 5)), iv(2, 15));
    assert_eq!(p.and(iv(2, 5), iv(1, 3)), iv(2, 15));
    assert_eq!(p.or(iv(1, 3), iv(2, 5)), iv(1, 5));
    assert_eq!(p.check(iv(12, 12)), Yes);
    assert_eq!(p.check(iv(2, 15)), Maybe);
    assert_eq!(p.check(iv(13, 15)), No);
    assert_eq!(p.and(iv(i64::MAX, i64::MAX), iv(2, 2)), iv(i64::MAX, i64::MAX));
}

#[test]
fn count_algebra() {
    // The value 7 occurs once or twice; 8 at most once; nothing else.
    let c = Count::new(vec![(7, 1, 2), (8, 0, 1)]);
    let one = c.singleton(0, 7);
    let two = c.and(&one, &c.singleton(1, 7));
    assert_eq!(count_bounds(&two, 7), (2, 2));
    assert_eq!(c.check(&two), Yes);
    let three = c.and(&two, &c.singleton(2, 7));
    assert_eq!(c.check(&three), No);
    let seven_or_eight = c.or(&c.singleton(0, 7), &c.singleton(0, 8));
    assert_eq!(count_bounds(&seven_or_eight, 7), (0, 1));
    assert_eq!(count_bounds(&seven_or_eight, 8), (0, 1));
    assert_eq!(c.check(&seven_or_eight), Maybe);
    assert_eq!(c.check(&c.singleton(0, 9)), No);
}
