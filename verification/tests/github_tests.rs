use experiment_github_star::tools::github::{
    is_valid_header_value, Github, PageEvent, PageStep, StarredPages,
};

#[test]
fn request_for_given_page() {
    let github = Github::new("token123".to_string());
    assert!(github.authorization_is_valid());
    let request = github.starred_request(Some(4));
    assert_eq!(request.url, "https://api.github.com/user/starred");
    assert_eq!(request.user_agent, "request");
    assert_eq!(request.authorization, "Bearer token123");
    assert_eq!(request.page, 4);
    assert_eq!(request.per_page, 30);
}

#[test]
fn request_defaults_to_first_page() {
    let github = Github::new("abc".to_string());
    let request = github.starred_request(None);
    assert_eq!(request.page, 1);
    assert_eq!(request.per_page, 30);
}

#[test]
fn header_values_refuse_control_characters() {
    assert!(is_valid_header_value("Bearer abc\tdef"));
    assert!(is_valid_header_value("ünïcode ok"));
    assert!(is_valid_header_value(""));
    assert!(!is_valid_header_value("line\nbreak"));
    assert!(!is_valid_header_value("del\u{7f}"));
    assert!(!is_valid_header_value("nul\0"));
    assert!(!Github::new("bad\r\ntoken".to_string()).authorization_is_valid());
}

#[test]
fn pager_walks_pages_in_order() {
    let mut pager = StarredPages::new(3);
    let mut asked = Vec::new();
    while let Some(page) = pager.next_page() {
        asked.push(page);
        assert!(pager.record(PageEvent::Loaded(30)) == PageStep::Yield);
    }
    assert_eq!(asked, vec![1, 2, 3]);
}

#[test]
fn pager_stops_at_an_empty_page() {
    let mut pager = StarredPages::new(100);
    assert_eq!(pager.next_page(), Some(1));
    assert!(pager.record(PageEvent::Loaded(30)) == PageStep::Yield);
    assert_eq!(pager.next_page(), Some(2));
    assert!(pager.record(PageEvent::Loaded(0)) == PageStep::Stop);
    assert_eq!(pager.next_page(), None);
}

#[test]
fn pager_skips_a_failed_page() {
    let mut pager = StarredPages::new(2);
    assert_eq!(pager.next_page(), Some(1));
    assert!(pager.record(PageEvent::Failed) == PageStep::Skip);
    assert_eq!(pager.next_page(), Some(2));
    assert!(pager.record(PageEvent::Failed) == PageStep::Skip);
    assert_eq!(pager.next_page(), None);
}

#[test]
fn pager_with_no_pages_asks_for_none() {
    assert_eq!(StarredPages::new(0).next_page(), None);
    assert_eq!(StarredPages::new(-5).next_page(), None);
}
