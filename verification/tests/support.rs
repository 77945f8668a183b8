//! Text maps, stable orders and text.

use mission_control::order::{key_before, key_of, keys_of, stable_order};
use mission_control::text::{
    chars_of, contains, first_filled_line, join, lines, same_ignoring_case, string_of, strip,
    to_decimal, to_lower, trim,
};
use mission_control::textmap::TextMap;

#[test]
fn text_maps_keep_one_value_per_key_in_order() {
    let mut map: TextMap<u32> = TextMap::new();
    map.insert("b".to_string(), 1);
    map.insert("a".to_string(), 2);
    map.insert("b".to_string(), 3);
    assert_eq!(map.len(), 2);
    assert_eq!(map.keys(), vec!["a", "b"]);
    assert_eq!(map.get("b"), Some(&3));
    assert_eq!(map.get("c"), None);
    assert!(map.contains_key("a"));
    assert!(map.remove("a"));
    assert!(!map.remove("a"));
    assert_eq!(map.keys(), vec!["b"]);
}

#[test]
fn stable_orders_sort_by_key_then_place() {
    assert_eq!(
        stable_order(&vec![vec![2, 1], vec![1], vec![2], vec![1], vec![]]),
        vec![4, 1, 3, 2, 0]
    );
    assert!(key_before(&[1, 9], &[2]));
    assert!(!key_before(&[2], &[2]));
    assert_eq!(key_of(&['a', 'é']), vec![97, 233]);
    assert_eq!(keys_of(&vec!["b".to_string()]), vec![vec![98]]);
}

#[test]
fn lines_end_as_line_feeds_or_returns_say() {
    let split = |s: &str| -> Vec<String> {
        lines(chars_of(s).as_slice()).iter().map(|l| string_of(l.as_slice())).collect()
    };
    for text in ["", "\n", "a\nb", "a\r\nb\r\n", "a\n\nb\n", "a\rb\n\r\n", "x\r"] {
        let expected: Vec<&str> = text.lines().collect();
        assert_eq!(split(text), expected, "{text:?}");
    }
}

#[test]
fn text_helpers_agree_with_the_standard_library() {
    for text in ["", "  a b\t\n", "\u{a0}x\u{3000}", "…"] {
        assert_eq!(string_of(trim(chars_of(text).as_slice())), text.trim());
        assert_eq!(
            string_of(to_lower(chars_of(text).as_slice()).as_slice()),
            text.to_ascii_lowercase()
        );
    }
    assert!(contains(&['a', 'b', 'c'], &['b', 'c']));
    assert!(contains(&['a'], &[]));
    assert!(!contains(&['a', 'b'], &['b', 'c']));
    assert_eq!(strip(&['a', 'b'], "a"), Some(&['b'][..]));
    assert_eq!(strip(&['a', 'b'], "b"), None);
    assert_eq!(first_filled_line(&['\n', ' ', '\n', 'x']), Some(vec!['x']));
    assert!(same_ignoring_case("NoTes", "notes"));
    assert!(!same_ignoring_case("note", "notes"));
    assert_eq!(to_decimal(0), "0");
    assert_eq!(to_decimal(18_446_744_073_709_551_615), "18446744073709551615");
    assert_eq!(join("ab", "cd"), "abcd");
}
