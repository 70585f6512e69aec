use rustengan::value_set::{copy, difference, merge};
use std::collections::HashSet;

fn set(values: &[u64]) -> HashSet<u64> {
    values.iter().copied().collect()
}

#[test]
fn difference_keeps_what_the_other_lacks() {
    assert_eq!(difference(&set(&[1, 2, 3]), &set(&[2, 4])), set(&[1, 3]));
    assert_eq!(difference(&set(&[1, 2]), &set(&[1, 2])), set(&[]));
    assert_eq!(difference(&set(&[]), &set(&[1])), set(&[]));
    assert_eq!(difference(&set(&[7]), &set(&[])), set(&[7]));
}

#[test]
fn merge_adds_every_value() {
    let mut into = set(&[1, 2]);
    merge(&mut into, &set(&[2, 3]));
    assert_eq!(into, set(&[1, 2, 3]));
    merge(&mut into, &set(&[]));
    assert_eq!(into, set(&[1, 2, 3]));
}

#[test]
fn copy_has_the_same_values() {
    assert_eq!(copy(&set(&[4, 5])), set(&[4, 5]));
    assert_eq!(copy(&set(&[])), set(&[]));
}
