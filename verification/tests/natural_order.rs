use std::cmp::Ordering;

use alphanumeric_sort::RawPath;

#[test]
fn digit_runs_order_numerically() {
    assert_eq!(Ordering::Less, alphanumeric_sort::compare_str("shot-2", "shot-11"));
    assert_eq!(Ordering::Greater, alphanumeric_sort::compare_str("shot-11", "shot-2"));
}

#[test]
fn leading_zero_tie_break() {
    assert_eq!(Ordering::Less, alphanumeric_sort::compare_str("1", "01"));
    assert_eq!(Ordering::Less, alphanumeric_sort::compare_str("01", "001"));
    assert_eq!(Ordering::Less, alphanumeric_sort::compare_str("0", "00"));
    assert_eq!(Ordering::Greater, alphanumeric_sort::compare_str("01", "1"));
    assert_eq!(Ordering::Greater, alphanumeric_sort::compare_str("001", "01"));
    assert_eq!(Ordering::Greater, alphanumeric_sort::compare_str("00", "0"));
}

#[test]
fn reflexive_on_sample_values() {
    assert_eq!(Ordering::Equal, alphanumeric_sort::compare_str("", ""));
    assert_eq!(Ordering::Equal, alphanumeric_sort::compare_str("shot-11", "shot-11"));
    assert_eq!(Ordering::Equal, alphanumeric_sort::compare_str("第10-15-2章", "第10-15-2章"));
}

#[test]
fn antisymmetric_on_sample_values() {
    let pairs = [
        ("", "a"),
        ("shot-2", "shot-11"),
        ("01", "1x"),
        ("1個", "1.1個"),
        ("第1章", "第1-2章"),
    ];
    for (a, b) in pairs {
        let forward = alphanumeric_sort::compare_str(a, b);
        let backward = alphanumeric_sort::compare_str(b, a);
        assert_eq!(forward, backward.reverse());
    }
}

#[test]
fn transitive_on_sample_values() {
    let triples = [
        ("shot-1", "shot-2", "shot-11"),
        ("1", "01", "001"),
        ("第1章", "第1-2章", "第2章"),
        ("1中", "1a", "1b"),
    ];
    for (a, b, c) in triples {
        assert_ne!(Ordering::Greater, alphanumeric_sort::compare_str(a, b));
        assert_ne!(Ordering::Greater, alphanumeric_sort::compare_str(b, c));
        assert_ne!(Ordering::Greater, alphanumeric_sort::compare_str(a, c));
    }
}

#[test]
fn sort_is_idempotent() {
    let mut array = vec!["shot-11", "shot-1", "shot-2", "shot-2"];
    alphanumeric_sort::sort_str_slice(&mut array);
    let once = array.clone();
    alphanumeric_sort::sort_str_slice(&mut array);
    assert_eq!(once, array);
}

#[test]
fn sort_str_slice_rev_reverses_order() {
    let mut array = vec!["shot-2", "shot-11", "shot-1"];
    alphanumeric_sort::sort_str_slice_rev(&mut array);
    assert_eq!(vec!["shot-11", "shot-2", "shot-1"], array);
}

#[test]
fn unstable_by_str_key_sorts() {
    let mut array = vec![("shot-11", 0), ("shot-1", 1), ("shot-2", 2)];
    alphanumeric_sort::sort_slice_unstable_by_str_key(&mut array, |e: &(&str, i32)| e.0);
    assert_eq!(vec![("shot-1", 1), ("shot-2", 2), ("shot-11", 0)], array);
}

#[test]
fn stable_by_str_key_keeps_equal_keys_in_order() {
    let mut array = vec![("b", 0), ("a", 1), ("b", 2), ("a", 3), ("b", 4)];
    alphanumeric_sort::sort_slice_by_str_key(&mut array, |e: &(&str, i32)| e.0);
    assert_eq!(vec![("a", 1), ("a", 3), ("b", 0), ("b", 2), ("b", 4)], array);
}

#[test]
fn rev_stable_by_str_key_keeps_equal_keys_in_order() {
    let mut array = vec![("b", 0), ("a", 1), ("b", 2), ("a", 3), ("b", 4)];
    alphanumeric_sort::sort_slice_rev_by_str_key(&mut array, |e: &(&str, i32)| e.0);
    assert_eq!(vec![("b", 0), ("b", 2), ("b", 4), ("a", 1), ("a", 3)], array);
}

#[test]
fn rev_unstable_by_str_key_sorts() {
    let mut array = vec![("shot-2", 0), ("shot-11", 1), ("shot-1", 2)];
    alphanumeric_sort::sort_slice_rev_unstable_by_str_key(&mut array, |e: &(&str, i32)| e.0);
    assert_eq!(vec![("shot-11", 1), ("shot-2", 0), ("shot-1", 2)], array);
}

#[test]
fn compare_path_uses_natural_order_on_text() {
    let a = RawPath::from_text("shot-2");
    let b = RawPath::from_text("shot-11");
    // plain byte order would put "shot-11" first
    assert_eq!(Ordering::Less, alphanumeric_sort::compare_path(&a, &b));
    assert_eq!(Ordering::Greater, alphanumeric_sort::compare_path(&b, &a));
}

#[test]
fn compare_path_falls_back_on_bytes() {
    // 0xFF can open no UTF-8 sequence
    let a = RawPath::new(vec![0xFF, b'2']);
    let b = RawPath::new(vec![0xFF, b'1', b'1']);
    // numeric runs no longer count: 0xFF 0x32 > 0xFF 0x31
    assert_eq!(Ordering::Greater, alphanumeric_sort::compare_path(&a, &b));
    assert_eq!(Ordering::Less, alphanumeric_sort::compare_path(&b, &a));
    assert_eq!(Ordering::Equal, alphanumeric_sort::compare_path(&a, &a));
}

#[test]
fn sort_path_slice_falls_back_uniformly() {
    // one entry does not decode, so every entry compares by plain bytes
    let bad = RawPath::new(vec![0xFF]);
    let mut array = vec![
        RawPath::from_text("shot-2"),
        bad.clone(),
        RawPath::from_text("shot-11"),
        RawPath::from_text("shot-1"),
    ];
    alphanumeric_sort::sort_path_slice(&mut array);
    assert_eq!(
        vec![
            RawPath::from_text("shot-1"),
            RawPath::from_text("shot-11"),
            RawPath::from_text("shot-2"),
            bad,
        ],
        array
    );
}

#[test]
fn sort_path_slice_rev_reverses_order() {
    let mut array = vec![
        RawPath::from_text("shot-2"),
        RawPath::from_text("shot-11"),
        RawPath::from_text("shot-1"),
    ];
    alphanumeric_sort::sort_path_slice_rev(&mut array);
    assert_eq!(
        vec![
            RawPath::from_text("shot-11"),
            RawPath::from_text("shot-2"),
            RawPath::from_text("shot-1"),
        ],
        array
    );
}

#[test]
fn unstable_by_path_key_sorts() {
    let mut array = vec![
        (RawPath::from_text("shot-11"), 0),
        (RawPath::from_text("shot-1"), 1),
    ];
    alphanumeric_sort::sort_slice_unstable_by_path_key(&mut array, |e: &(RawPath, i32)| &e.0);
    assert_eq!(1, array[0].1);
    assert_eq!(0, array[1].1);
}

#[test]
fn rev_by_path_key_keeps_equal_keys_in_order() {
    let mut array = vec![
        (RawPath::from_text("a"), 0),
        (RawPath::from_text("b"), 1),
        (RawPath::from_text("a"), 2),
    ];
    alphanumeric_sort::sort_slice_rev_by_path_key(&mut array, |e: &(RawPath, i32)| &e.0);
    assert_eq!(vec![1, 0, 2], array.iter().map(|e| e.1).collect::<Vec<i32>>());
}

#[test]
fn rev_unstable_by_path_key_sorts() {
    let mut array = vec![
        (RawPath::from_text("shot-1"), 0),
        (RawPath::from_text("shot-11"), 1),
        (RawPath::from_text("shot-2"), 2),
    ];
    alphanumeric_sort::sort_slice_rev_unstable_by_path_key(&mut array, |e: &(RawPath, i32)| &e.0);
    assert_eq!(vec![1, 2, 0], array.iter().map(|e| e.1).collect::<Vec<i32>>());
}

#[test]
fn by_path_key_falls_back_uniformly() {
    let mut array = vec![
        (RawPath::from_text("shot-2"), 0),
        (RawPath::new(vec![0xFF]), 1),
        (RawPath::from_text("shot-11"), 2),
    ];
    alphanumeric_sort::sort_slice_by_path_key(&mut array, |e: &(RawPath, i32)| &e.0);
    // byte order: "shot-11" < "shot-2" < 0xFF
    assert_eq!(vec![2, 0, 1], array.iter().map(|e| e.1).collect::<Vec<i32>>());
}

#[test]
fn empty_and_prefix_cases() {
    assert_eq!(Ordering::Equal, alphanumeric_sort::compare_str("", ""));
    assert_eq!(Ordering::Less, alphanumeric_sort::compare_str("", "a"));
    assert_eq!(Ordering::Greater, alphanumeric_sort::compare_str("a", ""));
    assert_eq!(Ordering::Less, alphanumeric_sort::compare_str("ab", "abc"));
    let mut empty: Vec<&str> = Vec::new();
    alphanumeric_sort::sort_str_slice(&mut empty);
    assert!(empty.is_empty());
}

#[test]
fn raw_path_accessors() {
    let p = RawPath::new(vec![b'a', b'b']);
    assert_eq!(&vec![b'a', b'b'], p.bytes());
    let q = RawPath::from_text("ab");
    assert_eq!(p, q);
}
