use inverted_index::filter::{first_field_id, parse_id, Selector};

#[test]
fn parses_leading_number() {
    assert_eq!(parse_id("42"), Some(42));
    assert_eq!(parse_id("0042"), Some(42));
    assert_eq!(parse_id("42 is the answer"), Some(42));
    assert_eq!(parse_id("+7"), Some(7));
    assert_eq!(parse_id("4294967295"), Some(u32::MAX));
}

#[test]
fn rejects_what_is_no_u32() {
    assert_eq!(parse_id(""), None);
    assert_eq!(parse_id("abc"), None);
    assert_eq!(parse_id("4294967296"), None);
    assert_eq!(parse_id("-5"), None);
    assert_eq!(parse_id("-0"), Some(0));
}

#[test]
fn reads_id_of_first_field() {
    assert_eq!(first_field_id("123\tsome text"), Some(123));
    assert_eq!(first_field_id("  77 text"), Some(77));
    assert_eq!(first_field_id("9x more"), Some(9));
    assert_eq!(first_field_id("x9 more"), None);
    assert_eq!(first_field_id(""), None);
    assert_eq!(first_field_id("   "), None);
}

#[test]
fn selects_in_one_ordered_pass() {
    let mut s = Selector::new(vec![30, 10, 20]);
    let ids = [Some(5), Some(10), Some(15), Some(20), None, Some(30), Some(40)];
    let kept: Vec<bool> = ids.iter().map(|&i| s.accept(i)).collect();
    assert_eq!(kept, vec![false, true, false, true, false, true, false]);
    assert!(s.done());
}

#[test]
fn out_of_order_collection_misses_later_ids() {
    let mut s = Selector::new(vec![1, 2]);
    assert!(!s.accept(Some(2)));
    assert!(s.accept(Some(1)));
    assert!(!s.done());
    assert!(!s.accept(Some(3)));
    assert!(!s.done());
}

#[test]
fn empty_selection_is_done_at_once() {
    let mut s = Selector::new(Vec::new());
    assert!(s.done());
    assert!(!s.accept(Some(0)));
}
