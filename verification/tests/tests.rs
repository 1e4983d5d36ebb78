use std::cmp::Ordering;

use alphanumeric_sort::RawPath;

#[test]
fn compare_lv0_1() {
    assert_eq!(Ordering::Less, alphanumeric_sort::compare_str("0", "1"));
    assert_eq!(Ordering::Greater, alphanumeric_sort::compare_str("1", "0"));
}

#[test]
fn compare_lv0_2() {
    assert_eq!(Ordering::Less, alphanumeric_sort::compare_str("1", "2"));
    assert_eq!(Ordering::Greater, alphanumeric_sort::compare_str("2", "1"));
}

#[test]
fn compare_lv0_3() {
    assert_eq!(Ordering::Equal, alphanumeric_sort::compare_str("0", "0"));
    assert_eq!(Ordering::Equal, alphanumeric_sort::compare_str("1", "1"));
}

#[test]
fn compare_lv1_1() {
    assert_eq!(Ordering::Less, alphanumeric_sort::compare_str("abc", "bbb"));
    assert_eq!(Ordering::Greater, alphanumeric_sort::compare_str("bbb", "abc"));
}

#[test]
fn compare_lv1_2() {
    assert_eq!(Ordering::Less, alphanumeric_sort::compare_str("abcd", "bbb"));
    assert_eq!(Ordering::Greater, alphanumeric_sort::compare_str("bbb", "abcd"));
}

#[test]
fn compare_lv1_3() {
    assert_eq!(Ordering::Less, alphanumeric_sort::compare_str("abcd", "bbbbb"));
    assert_eq!(Ordering::Greater, alphanumeric_sort::compare_str("bbbbb", "abcd"));
}

#[test]
fn compare_lv1_5() {
    assert_eq!(Ordering::Equal, alphanumeric_sort::compare_str("abcd", "abcd"));
}

#[test]
fn compare_lv2_1() {
    assert_eq!(Ordering::Less, alphanumeric_sort::compare_str("abc321", "abc3210"));
    assert_eq!(Ordering::Greater, alphanumeric_sort::compare_str("abc3210", "abc321"));
}

#[test]
fn compare_lv2_2() {
    assert_eq!(Ordering::Equal, alphanumeric_sort::compare_str("abc321", "abc321"));
}

#[test]
fn compare_lv3_1() {
    assert_eq!(Ordering::Less, alphanumeric_sort::compare_str("abc320", "abc321"));
    assert_eq!(Ordering::Greater, alphanumeric_sort::compare_str("abc321", "abc320"));
}

#[test]
fn compare_lv4_1() {
    assert_eq!(Ordering::Less, alphanumeric_sort::compare_str("abc1", "abc321"));
    assert_eq!(Ordering::Greater, alphanumeric_sort::compare_str("abc321", "abc1"));
}

#[test]
fn compare_lv4_2() {
    assert_eq!(Ordering::Less, alphanumeric_sort::compare_str("abc5", "abc321"));
    assert_eq!(Ordering::Greater, alphanumeric_sort::compare_str("abc321", "abc5"));
}

#[test]
fn compare_lv4_3() {
    assert_eq!(Ordering::Less, alphanumeric_sort::compare_str("abc321", "abc567"));
    assert_eq!(Ordering::Greater, alphanumeric_sort::compare_str("abc567", "abc321"));
}

#[test]
fn compare_lv4_4() {
    assert_eq!(Ordering::Less, alphanumeric_sort::compare_str("abc5d67", "abc321"));
    assert_eq!(Ordering::Greater, alphanumeric_sort::compare_str("abc321", "abc5d67"));
}

#[test]
fn compare_lv5_1() {
    assert_eq!(Ordering::Less, alphanumeric_sort::compare_str("abc123d1", "abc123d123"));
    assert_eq!(Ordering::Greater, alphanumeric_sort::compare_str("abc123d123", "abc123d1"));
}

#[test]
fn compare_lv5_2() {
    assert_eq!(Ordering::Equal, alphanumeric_sort::compare_str("abc123d123", "abc123d123"));
}

#[test]
fn compare_lv6_1() {
    assert_eq!(Ordering::Less, alphanumeric_sort::compare_str("1", "1a"));
    assert_eq!(Ordering::Greater, alphanumeric_sort::compare_str("1a", "1"));
}

#[test]
fn compare_lv7_1() {
    assert_eq!(Ordering::Less, alphanumeric_sort::compare_str("1", "中"));
    assert_eq!(Ordering::Greater, alphanumeric_sort::compare_str("中", "1"));
}

#[test]
fn compare_lv8_1() {
    assert_eq!(Ordering::Less, alphanumeric_sort::compare_str("1個", "1.1個"));
    assert_eq!(Ordering::Greater, alphanumeric_sort::compare_str("1.1個", "1個"));
}

#[test]
fn compare_lv9_1() {
    assert_eq!(Ordering::Less, alphanumeric_sort::compare_str("1", "01"));
    assert_eq!(Ordering::Greater, alphanumeric_sort::compare_str("01", "1"));
}

#[test]
fn compare_lv9_2() {
    assert_eq!(Ordering::Less, alphanumeric_sort::compare_str("1章", "01章"));
    assert_eq!(Ordering::Greater, alphanumeric_sort::compare_str("01章", "1章"));
}

#[test]
fn compare_lv9_3() {
    assert_eq!(Ordering::Less, alphanumeric_sort::compare_str("1", "10"));
    assert_eq!(Ordering::Greater, alphanumeric_sort::compare_str("10", "1"));
}

#[test]
fn compare_lv9_4() {
    assert_eq!(Ordering::Less, alphanumeric_sort::compare_str("1章", "10章"));
    assert_eq!(Ordering::Greater, alphanumeric_sort::compare_str("10章", "1章"));
}

#[test]
fn compare_lv10_1() {
    assert_eq!(Ordering::Less, alphanumeric_sort::compare_str("00001", "000001"));
    assert_eq!(Ordering::Greater, alphanumeric_sort::compare_str("000001", "00001"));
}

#[test]
fn compare_lv11_1() {
    assert_eq!(alphanumeric_sort::compare_str(
        "23478435345672365487236435437465873645736452658734658734653645872542736437465365487326548734658736457265345736458735",
        "23478435345672365487236435437465873645736452658734658734653645872542736437465365487326548734658736457265345736458736"
    ), Ordering::Less);

    assert_eq!(alphanumeric_sort::compare_str(
        "23478435345672365487236435437465873645736452658734658734653645872542736437465365487326548734658736457265345736458736",
        "23478435345672365487236435437465873645736452658734658734653645872542736437465365487326548734658736457265345736458735",
    ), Ordering::Greater);
}

#[test]
fn sort_str_slice() {
    let mut array = vec![
        "第10-15-2章",
        "第1-2章",
        "第2-4章",
        "第2-33章",
        "第1章",
        "第1-4章",
        "第2-3章",
        "第1-11章",
        "第10-1章",
        "第3-1章",
        "第2-10章",
        "第2-2章",
        "第1-3章",
        "第10-15章",
        "第10-2章",
        "第10-15-1章",
        "第2-1章",
        "第2-12章",
        "第1-10章",
        "第3-10章",
    ];

    alphanumeric_sort::sort_str_slice(&mut array);

    assert_eq!(
        vec![
            "第1章",
            "第1-2章",
            "第1-3章",
            "第1-4章",
            "第1-10章",
            "第1-11章",
            "第2-1章",
            "第2-2章",
            "第2-3章",
            "第2-4章",
            "第2-10章",
            "第2-12章",
            "第2-33章",
            "第3-1章",
            "第3-10章",
            "第10-1章",
            "第10-2章",
            "第10-15章",
            "第10-15-1章",
            "第10-15-2章"
        ],
        array
    );
}

#[derive(Debug)]
struct StrItem(&'static str);

impl From<&'static str> for StrItem {
    fn from(s: &'static str) -> Self {
        StrItem(s)
    }
}

impl PartialEq<StrItem> for &str {
    fn eq(&self, other: &StrItem) -> bool {
        self == &other.0
    }
}

#[test]
fn sort_slice_by_str_key() {
    let mut array = vec![
        StrItem::from("第10-15-2章"),
        StrItem::from("第1-2章"),
        StrItem::from("第2-4章"),
        StrItem::from("第2-33章"),
        StrItem::from("第1章"),
        StrItem::from("第1-4章"),
        StrItem::from("第2-3章"),
        StrItem::from("第1-11章"),
        StrItem::from("第10-1章"),
        StrItem::from("第3-1章"),
        StrItem::from("第2-10章"),
        StrItem::from("第2-2章"),
        StrItem::from("第1-3章"),
        StrItem::from("第10-15章"),
        StrItem::from("第10-2章"),
        StrItem::from("第10-15-1章"),
        StrItem::from("第2-1章"),
        StrItem::from("第2-12章"),
        StrItem::from("第1-10章"),
        StrItem::from("第3-10章"),
    ];

    alphanumeric_sort::sort_slice_by_str_key(&mut array, |e: &StrItem| e.0);

    assert_eq!(
        vec![
            "第1章",
            "第1-2章",
            "第1-3章",
            "第1-4章",
            "第1-10章",
            "第1-11章",
            "第2-1章",
            "第2-2章",
            "第2-3章",
            "第2-4章",
            "第2-10章",
            "第2-12章",
            "第2-33章",
            "第3-1章",
            "第3-10章",
            "第10-1章",
            "第10-2章",
            "第10-15章",
            "第10-15-1章",
            "第10-15-2章"
        ],
        array
    );
}

#[test]
fn sort_path_slice() {
    let mut array = vec![
        RawPath::from_text("第10-15-2章"),
        RawPath::from_text("第1-2章"),
        RawPath::from_text("第2-4章"),
        RawPath::from_text("第2-33章"),
        RawPath::from_text("第1章"),
        RawPath::from_text("第1-4章"),
        RawPath::from_text("第2-3章"),
        RawPath::from_text("第1-11章"),
        RawPath::from_text("第10-1章"),
        RawPath::from_text("第3-1章"),
        RawPath::from_text("第2-10章"),
        RawPath::from_text("第2-2章"),
        RawPath::from_text("第1-3章"),
        RawPath::from_text("第10-15章"),
        RawPath::from_text("第10-2章"),
        RawPath::from_text("第10-15-1章"),
        RawPath::from_text("第2-1章"),
        RawPath::from_text("第2-12章"),
        RawPath::from_text("第1-10章"),
        RawPath::from_text("第3-10章"),
    ];

    alphanumeric_sort::sort_path_slice(&mut array);

    assert_eq!(
        vec![
            RawPath::from_text("第1章"),
            RawPath::from_text("第1-2章"),
            RawPath::from_text("第1-3章"),
            RawPath::from_text("第1-4章"),
            RawPath::from_text("第1-10章"),
            RawPath::from_text("第1-11章"),
            RawPath::from_text("第2-1章"),
            RawPath::from_text("第2-2章"),
            RawPath::from_text("第2-3章"),
            RawPath::from_text("第2-4章"),
            RawPath::from_text("第2-10章"),
            RawPath::from_text("第2-12章"),
            RawPath::from_text("第2-33章"),
            RawPath::from_text("第3-1章"),
            RawPath::from_text("第3-10章"),
            RawPath::from_text("第10-1章"),
            RawPath::from_text("第10-2章"),
            RawPath::from_text("第10-15章"),
            RawPath::from_text("第10-15-1章"),
            RawPath::from_text("第10-15-2章")
        ],
        array
    );
}

#[derive(Debug)]
struct PathItem(RawPath);

impl From<&'static str> for PathItem {
    fn from(s: &'static str) -> Self {
        PathItem(RawPath::from_text(s))
    }
}

impl PartialEq<PathItem> for RawPath {
    fn eq(&self, other: &PathItem) -> bool {
        self == &other.0
    }
}

#[test]
fn sort_slice_by_path_key() {
    let mut array = vec![
        PathItem::from("第10-15-2章"),
        PathItem::from("第1-2章"),
        PathItem::from("第2-4章"),
        PathItem::from("第2-33章"),
        PathItem::from("第1章"),
        PathItem::from("第1-4章"),
        PathItem::from("第2-3章"),
        PathItem::from("第1-11章"),
        PathItem::from("第10-1章"),
        PathItem::from("第3-1章"),
        PathItem::from("第2-10章"),
        PathItem::from("第2-2章"),
        PathItem::from("第1-3章"),
        PathItem::from("第10-15章"),
        PathItem::from("第10-2章"),
        PathItem::from("第10-15-1章"),
        PathItem::from("第2-1章"),
        PathItem::from("第2-12章"),
        PathItem::from("第1-10章"),
        PathItem::from("第3-10章"),
    ];

    alphanumeric_sort::sort_slice_by_path_key(&mut array, |e: &PathItem| &e.0);

    assert_eq!(
        vec![
            RawPath::from_text("第1章"),
            RawPath::from_text("第1-2章"),
            RawPath::from_text("第1-3章"),
            RawPath::from_text("第1-4章"),
            RawPath::from_text("第1-10章"),
            RawPath::from_text("第1-11章"),
            RawPath::from_text("第2-1章"),
            RawPath::from_text("第2-2章"),
            RawPath::from_text("第2-3章"),
            RawPath::from_text("第2-4章"),
            RawPath::from_text("第2-10章"),
            RawPath::from_text("第2-12章"),
            RawPath::from_text("第2-33章"),
            RawPath::from_text("第3-1章"),
            RawPath::from_text("第3-10章"),
            RawPath::from_text("第10-1章"),
            RawPath::from_text("第10-2章"),
            RawPath::from_text("第10-15章"),
            RawPath::from_text("第10-15-1章"),
            RawPath::from_text("第10-15-2章")
        ],
        array
    );
}
