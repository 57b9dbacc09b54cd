use load_titles::text::{is_space_char, non_empty_lines};

#[test]
fn blank_lines_are_dropped_and_lines_trimmed() {
    let r = non_empty_lines("http://a.com\n\n   \n  http://b.com  \r\n\t\nhttp://c.com");
    assert_eq!(r, vec!["http://a.com", "http://b.com", "http://c.com"]);
}

#[test]
fn k_valid_lines_among_blank_ones_give_k_entries() {
    let r = non_empty_lines("\n x \n\n\t \n y\n \u{a0}\n z \n\n");
    assert_eq!(r.len(), 3);
    assert_eq!(r, vec!["x", "y", "z"]);
}

#[test]
fn empty_input_gives_no_entries() {
    assert!(non_empty_lines("").is_empty());
    assert!(non_empty_lines("\n\n \r\n").is_empty());
}

#[test]
fn duplicates_and_order_are_kept() {
    let r = non_empty_lines("b\na\nb\n");
    assert_eq!(r, vec!["b", "a", "b"]);
}

#[test]
fn unicode_whitespace_is_trimmed() {
    let r = non_empty_lines("\u{3000}héllo wörld\u{2003}");
    assert_eq!(r, vec!["héllo wörld"]);
    assert!(is_space_char('\u{85}'));
    assert!(!is_space_char('x'));
}
