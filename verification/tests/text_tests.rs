use bootstrapper::text::{split_char, split_once_char, trim_end_matches_str, trim_matches_char};

#[test]
fn split_keeps_empty_pieces() {
    assert_eq!(split_char("a:b::c", ':'), vec!["a", "b", "", "c"]);
    assert_eq!(split_char("", ':'), vec![""]);
    assert_eq!(split_char(":", ':'), vec!["", ""]);
}

#[test]
fn split_once_at_first_separator() {
    assert_eq!(
        split_once_char("k=v=w", '='),
        Some(("k".to_string(), "v=w".to_string()))
    );
    assert_eq!(split_once_char("abc", '='), None);
    assert_eq!(split_once_char("=", '='), Some((String::new(), String::new())));
}

#[test]
fn trim_quotes_at_both_ends() {
    assert_eq!(trim_matches_char("\"\"x\"y\"\"", '"'), "x\"y");
    assert_eq!(trim_matches_char("\"\"\"", '"'), "");
    assert_eq!(trim_matches_char("plain", '"'), "plain");
}

#[test]
fn trim_repeated_suffix() {
    assert_eq!(trim_end_matches_str("a.yaml.yaml", ".yaml"), "a");
    assert_eq!(trim_end_matches_str("1.0.yml", ".yaml"), "1.0.yml");
    assert_eq!(trim_end_matches_str(".yaml", ".yaml"), "");
}
