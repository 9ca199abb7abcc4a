use solvomatic::logic::YesNoMaybe::{Maybe, No, Yes};
use solvomatic::logic::YesNoMaybe;
use solvomatic::pred::Pred;

fn less_than(v: &[i32]) -> bool {
    v[0] < v[1]
}

#[test]
fn test_sum() {

    let s = Pred::new::<2>(less_than as fn(&[i32]) -> bool);

    assert_eq!(s.singleton(0, 10), [Some(10), None]);
    assert_eq!(s.singleton(1, 10), [None, Some(10)]);
    assert_eq!(s.or(s.singleton(0, 10), s.singleton(0, 20)), [None, None]);
    assert_eq!(
        s.and(s.singleton(0, 10), s.singleton(1, 20)),
        [Some(10), Some(20)]
    );

    assert_eq!(s.check(vec![None, None]), Maybe);
    assert_eq!(s.check(vec![Some(1), None]), Maybe);
    assert_eq!(s.check(vec![None, Some(1)]), Maybe);
    assert_eq!(s.check(vec![Some(1), Some(2)]), Yes);
    assert_eq!(s.check(vec![Some(2), Some(2)]), No);
}

#[test]
fn pred_or_keeps_agreeing_slots() {
    let s = Pred::new_with_len(3, less_than as fn(&[i32]) -> bool);
    let a = s.and(s.singleton(0, 1), s.singleton(1, 5));
    let b = s.and(s.singleton(0, 1), s.singleton(1, 6));
    assert_eq!(s.or(a, b), vec![Some(1), None, None]);
}

#[test]
fn pred_partial_summary_is_maybe() {
    let always = Pred::new::<3>((|_: &[i32]| true) as fn(&[i32]) -> bool);
    let never = Pred::new::<3>((|_: &[i32]| false) as fn(&[i32]) -> bool);
    let partial = vec![Some(1), None, Some(2)];
    assert_eq!(always.check(partial.clone()), Maybe);
    assert_eq!(never.check(partial), Maybe);
    assert_eq!(never.check(vec![Some(1), Some(1), Some(2)]), No);
}
