use my_redis::flatten::{flatten, IteratorExt};

#[test]
fn empty() {
    assert_eq!(flatten(Vec::<Vec<()>>::new()).count(), 0);
}

#[test]
fn empty_wide() {
    assert_eq!(flatten(vec![Vec::<()>::new(), vec![], vec![]]).count(), 0);
}

#[test]
fn one() {
    assert_eq!(flatten(vec![vec!["a"]]).count(), 1);
}

#[test]
fn two() {
    assert_eq!(flatten(vec![vec!["a", "b"]]).count(), 2);
}

#[test]
fn two_wide() {
    assert_eq!(flatten(vec![vec!["a"], vec!["b"]]).count(), 2);
}

#[test]
fn reverse() {
    assert_eq!(flatten(vec![vec!["a", "b"]]).rev().collect(), vec!["b", "a"]);
}

#[test]
fn reverse_wide() {
    assert_eq!(flatten(vec![vec!["a"], vec!["b"]]).rev().collect(), vec!["b", "a"]);
}

#[test]
fn both_ends() {
    let mut iter = flatten(vec![vec!["a1", "a2", "a3"], vec!["b1", "b2", "b3"]]);
    assert_eq!(iter.next(), Some("a1"));
    assert_eq!(iter.next_back(), Some("b3"));
    assert_eq!(iter.next(), Some("a2"));
    assert_eq!(iter.next_back(), Some("b2"));
    assert_eq!(iter.next(), Some("a3"));
    assert_eq!(iter.next_back(), Some("b1"));
    assert_eq!(iter.next(), None);
    assert_eq!(iter.next_back(), None);
}

#[test]
fn deep() {
    assert_eq!(flatten(flatten(vec![vec![vec![0, 1]]]).collect()).count(), 2);
}

#[test]
fn ext() {
    assert_eq!(vec![vec![0, 1]].our_flatten().count(), 2);
}
