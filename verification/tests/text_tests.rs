use experiment_github_star::text::{chars_of, decimal_string, join_strings, split_str};

fn strings(items: &[&str]) -> Vec<String> {
    items.iter().map(|s| s.to_string()).collect()
}

#[test]
fn join_matches_std_join() {
    let parts = strings(&["ai", "rust", "webdev"]);
    assert_eq!(join_strings(&parts, ","), "ai,rust,webdev");
    assert_eq!(join_strings(&parts, " -"), "ai -rust -webdev");
    assert_eq!(join_strings(&strings(&["solo"]), ", "), "solo");
    assert_eq!(join_strings(&Vec::new(), ", "), "");
}

#[test]
fn split_matches_std_split() {
    for (s, sep) in [
        ("a, b, c", ", "),
        ("", ", "),
        (", ", ", "),
        ("a,b", ", "),
        ("a, , b", ", "),
        ("x, y, ", ", "),
        ("ß, ü,  ö", ", "),
        ("aaa", "aa"),
    ] {
        let expected: Vec<String> = s.split(sep).map(String::from).collect();
        assert_eq!(split_str(s, sep), expected, "splitting {:?} at {:?}", s, sep);
    }
}

#[test]
fn split_then_join_gives_back_the_text() {
    for s in ["a, b, c", "", ", , ", "no separator", "trailing, "] {
        assert_eq!(join_strings(&split_str(s, ", "), ", "), s);
    }
}

#[test]
fn decimal_matches_display() {
    for n in [0, 7, 10, 42, 120, -1, -120, 1_000_000, i32::MAX, i32::MIN] {
        assert_eq!(decimal_string(n), n.to_string());
    }
}

#[test]
fn chars_of_keeps_every_character() {
    assert_eq!(chars_of("héllo"), vec!['h', 'é', 'l', 'l', 'o']);
    assert!(chars_of("").is_empty());
}
