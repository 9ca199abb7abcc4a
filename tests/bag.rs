use solvomatic::bag::Bag;
use solvomatic::permutation::{BagRange, Permutation, Subset, SubsetAndSuperset, Superset};
use solvomatic::logic::YesNoMaybe;

fn bag(chars: &str) -> Bag {
    Bag::new(chars.chars().map(|c| c as i32).collect())
}

fn show(bag: Bag) -> String {
    bag.0.into_iter().map(|v| char::from_u32(v as u32).unwrap()).collect::<String>()
}

#[test]
fn test_bag() {
    assert_eq!(show(bag("aabeeg").sum(bag("abbcf"))), "aaabbbceefg");
    assert_eq!(show(bag("aabeeg").union(bag("abbcf"))), "aabbceefg");
    assert_eq!(show(bag("abbcdff").intersection(bag("bceeffg"))), "bcff");
    assert!(bag("ace").is_subset(&bag("abccde")));
    assert!(!bag("ace").is_subset(&bag("abde")));
    assert!(bag("a").is_subset(&bag("aa")));
    assert!(bag("b").is_subset(&bag("abc")));
}

#[test]
fn bag_new_sorts() {
    assert_eq!(Bag::new(vec![3, 1, 2, 1]).0, vec![1, 1, 2, 3]);
    assert_eq!(Bag::new(vec![]).0, Vec::<i32>::new());
}

fn range(min: &[i32], max: &[i32]) -> BagRange {
    BagRange { min: Bag::new(min.to_vec()), max: Bag::new(max.to_vec()) }
}

#[test]
fn bag_range_and_or() {
    let a = BagRange::singleton(1);
    let b = BagRange::singleton(2);
    let both = a.clone().and(b.clone());
    assert_eq!(both.min.0, vec![1, 2]);
    assert_eq!(both.max.0, vec![1, 2]);
    let either = a.or(b);
    assert_eq!(either.min.0, Vec::<i32>::new());
    assert_eq!(either.max.0, vec![1, 2]);
}

#[test]
fn permutation_check() {
    let p = Permutation::new(vec![1, 2, 3]);
    assert_eq!(p.check(&range(&[1, 2, 3], &[1, 2, 3])), YesNoMaybe::Yes);
    assert_eq!(p.check(&range(&[1], &[1, 2, 3, 4])), YesNoMaybe::Maybe);
    assert_eq!(p.check(&range(&[1, 1], &[1, 1, 2, 3])), YesNoMaybe::No);
    assert_eq!(p.check(&range(&[], &[1, 2])), YesNoMaybe::No);
}

#[test]
fn subset_and_superset_checks() {
    let sub = Subset::new(vec![1, 2, 3]);
    assert_eq!(sub.check(&range(&[1], &[1, 2])), YesNoMaybe::Yes);
    assert_eq!(sub.check(&range(&[1], &[1, 4])), YesNoMaybe::Maybe);
    assert_eq!(sub.check(&range(&[4], &[4])), YesNoMaybe::No);
    let sup = Superset::new(vec![1, 2]);
    assert_eq!(sup.check(&range(&[1, 2, 5], &[1, 2, 5])), YesNoMaybe::Yes);
    assert_eq!(sup.check(&range(&[1], &[1, 2])), YesNoMaybe::Maybe);
    assert_eq!(sup.check(&range(&[1], &[1, 3])), YesNoMaybe::No);
    let both = SubsetAndSuperset::new(vec![1], vec![1, 2, 3]);
    assert_eq!(both.check(&range(&[1, 2], &[1, 2])), YesNoMaybe::Yes);
    assert_eq!(both.check(&range(&[2], &[1, 2])), YesNoMaybe::Maybe);
    assert_eq!(both.check(&range(&[4], &[4])), YesNoMaybe::No);
}
