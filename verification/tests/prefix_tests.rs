use binary_prefix::checked_range_prefix;
use binary_prefix::pad;
use binary_prefix::range_prefix;
use binary_prefix::shared_prefix;
use binary_prefix::InvalidRange;

use std::cmp::PartialEq;
use std::fmt::Debug;

fn assert_vec_equal<T>(a: &[T], b: &[T])
where
    T: Debug,
    T: PartialEq,
{
    let pairs = a.iter().zip(b);
    for entry in pairs {
        assert_eq!(entry.0, entry.1);
    }
}

#[test]
fn finds_shared_prefix() {
    let start = vec![true, false, true, false, true, false, false, false, true, true];
    let end = vec![true, false, true, false, true, false, false, true, true, true];
    let expected = &start[0..7];

    let result = shared_prefix(&start, &end);

    assert_vec_equal(result, expected);
}

#[test]
fn gets_agressive_prefix() {
    let start = vec![true, false, true, false, true, false, false, false, true, true];
    let end = vec![true, false, true, false, true, false, false, true, true, true];

    let start_prefix = vec![true, false, true, false, true, false, false, false, true, true];
    let end_prefix = vec![true, false, true, false, true, false, false, true];

    let result = range_prefix(&start, &end);

    assert_vec_equal(&start_prefix, result.0);
    assert_vec_equal(&end_prefix, result.1);
}

#[test]
fn do_pad_vec() {
    let expected = [false, true, false];
    let result = pad(3, &vec![true, false]);

    assert_vec_equal(&result, &expected);
}

#[test]
fn pad_empty() {
    let expected = [false, false, false];
    let input: Vec<bool> = Vec::new();
    let result = pad(3, &input);

    assert_vec_equal(&result, &expected);
}

#[test]
fn no_pad() {
    let expected = [false, true, false];
    let result = pad(3, &vec![false, true, false]);

    assert_vec_equal(&result, &expected);
}

#[test]
fn pad_is_idempotent() {
    let input = vec![true, false];
    let once = pad(3, &input);
    let twice = pad(3, &once);
    assert_eq!(twice, once);
    assert_eq!(twice.len(), once.len());
}

#[test]
fn pad_never_truncates() {
    let input = vec![true, true, true, false];
    let result = pad(2, &input);
    assert_eq!(result, input);
    assert_eq!(result.len(), 4);
}

#[test]
fn shared_prefix_of_diverging_keys() {
    let a = vec![true, false, true, false];
    let b = vec![true, false, true, true];
    let result = shared_prefix(&a, &b);
    assert_eq!(result, &[true, false, true]);
}

#[test]
fn shared_prefix_is_symmetric_in_length() {
    let a = vec![true, false, true, false, false];
    let b = vec![true, false, true, true];
    assert_eq!(shared_prefix(&a, &b).len(), shared_prefix(&b, &a).len());

    let c = vec![false, true];
    let d = vec![true, false, true];
    assert_eq!(shared_prefix(&c, &d).len(), shared_prefix(&d, &c).len());
    assert_eq!(shared_prefix(&c, &d).len(), 0);
}

#[test]
fn shared_prefix_of_empty_keys_is_empty() {
    let empty: Vec<bool> = Vec::new();
    let other = vec![true, false];
    assert_eq!(shared_prefix(&empty, &empty), &[] as &[bool]);
    assert_eq!(shared_prefix(&empty, &other), &[] as &[bool]);
    assert_eq!(shared_prefix(&other, &empty), &[] as &[bool]);
}

#[test]
fn range_prefix_exact() {
    let start = vec![true, false, true, false, true, false, false, false, true, true];
    let end = vec![true, false, true, false, true, false, false, true, true, true];

    let (start_prefix, end_prefix) = range_prefix(&start, &end);

    assert_eq!(start_prefix, &start[..]);
    assert_eq!(
        end_prefix,
        &[true, false, true, false, true, false, false, true]
    );
}

#[test]
fn range_prefix_of_equal_keys_is_the_key() {
    let key = vec![true, true, false, true];
    let (start_prefix, end_prefix) = range_prefix(&key, &key);
    assert_eq!(start_prefix, &key[..]);
    assert_eq!(end_prefix, &key[..]);
}

#[test]
fn range_prefix_of_empty_keys() {
    let empty: Vec<bool> = Vec::new();
    let (start_prefix, end_prefix) = range_prefix(&empty, &empty);
    assert_eq!(start_prefix, &[] as &[bool]);
    assert_eq!(end_prefix, &[] as &[bool]);
}

#[test]
fn range_prefixes_begin_with_shared_prefix() {
    let start = vec![false, true, true, false, true, false];
    let end = vec![false, true, true, true, false];

    let base = shared_prefix(&start, &end);
    let (start_prefix, end_prefix) = range_prefix(&start, &end);

    assert!(start_prefix.len() >= base.len());
    assert!(end_prefix.len() >= base.len());
    assert_eq!(&start_prefix[0..base.len()], base);
    assert_eq!(&end_prefix[0..base.len()], base);
}

#[test]
fn checked_range_prefix_accepts_ordered_lengths() {
    let start = vec![true, false, true, false, true, false, false, false, true, true];
    let end = vec![true, false, true, false, true, false, false, true, true, true];

    let result = checked_range_prefix(&start, &end).unwrap();
    let direct = range_prefix(&start, &end);

    assert_eq!(result.0, direct.0);
    assert_eq!(result.1, direct.1);
}

#[test]
fn checked_range_prefix_rejects_short_start() {
    let start = vec![true, false];
    let end = vec![true, false, true];

    let result = checked_range_prefix(&start, &end);

    assert_eq!(result, Err(InvalidRange));
}

#[test]
fn checked_range_prefix_accepts_empty_keys() {
    let empty: Vec<bool> = Vec::new();
    let (start_prefix, end_prefix) = checked_range_prefix(&empty, &empty).unwrap();
    assert_eq!(start_prefix, &[] as &[bool]);
    assert_eq!(end_prefix, &[] as &[bool]);
}
