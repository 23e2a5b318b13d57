use photensor_sim::order::stable_order;
use photensor_sim::text::{chars_of, parse_usize, starts_with};

fn parse(s: &str) -> Option<usize> {
    parse_usize(&chars_of(s))
}

#[test]
fn parse_usize_matches_from_str() {
    for s in ["0", "12", "+7", "007", "", "+", "-1", "1a", " 1", "18446744073709551615", "18446744073709551616", "99999999999999999999999"] {
        assert_eq!(parse(s), s.parse::<usize>().ok(), "input {:?}", s);
    }
}

#[test]
fn parse_usize_values() {
    assert_eq!(parse("42"), Some(42));
    assert_eq!(parse("+3"), Some(3));
    assert_eq!(parse("x"), None);
}

#[test]
fn starts_with_prefix() {
    assert!(starts_with("op_l_3", "op_l_"));
    assert!(starts_with("abc", ""));
    assert!(!starts_with("op", "op_l_"));
    assert!(!starts_with("op_r_1", "op_l_"));
}

#[test]
fn stable_order_sorts_and_keeps_ties() {
    let keys = vec![(3i128, 0i128), (1, 5), (3, 0), (1, 2), (2, 9)];
    assert_eq!(stable_order(&keys), vec![3, 1, 4, 0, 2]);
    assert!(stable_order(&Vec::new()).is_empty());
}
