//! Text and sorting.

use llamanyon::sorting::rank;
use llamanyon::text::{decimal_string, find_first, parse_u64, push_decimal, replace_first, same_text};

#[test]
fn numerals() {
    for n in [0, 7, 10, 99, 100, u64::MAX] {
        assert_eq!(decimal_string(n), n.to_string());
        assert_eq!(parse_u64(&n.to_string()), Some(n));
    }
    let mut s = "n=".to_string();
    push_decimal(&mut s, 42);
    assert_eq!(s, "n=42");
}

#[test]
fn numbers_in_text() {
    for t in ["", "+", "-1", "1 2", "0x1", " 7 ", "\u{3000}7\u{85}", "00012", "+5", "++5"] {
        assert_eq!(parse_u64(t), t.trim().parse::<u64>().ok());
    }
}

#[test]
fn occurrences() {
    assert!(same_text("é", "é"));
    assert!(!same_text("e", "é"));
    assert_eq!(find_first("añañ", "ñ"), Some(1));
    assert_eq!(find_first("abc", "d"), None);
    assert_eq!(find_first("abc", ""), Some(0));
    assert_eq!(replace_first("a.b.a", "a", "x"), "x.b.a");
    assert_eq!(replace_first("a.b", "c", "x"), "a.b");
}

#[test]
fn ranks_are_stable() {
    assert_eq!(rank(&vec![3, 9, 3, -1, 9]), vec![1, 4, 0, 2, 3]);
    assert!(rank(&vec![]).is_empty());
}
