use experiment_github_star::record_search::record_matches;

#[test]
fn matches_only_a_whole_field() {
    let fields: Vec<String> = vec!["Boston".to_string(), "MA".to_string(), "4628910".to_string()];
    assert!(record_matches(&fields, "MA"));
    assert!(record_matches(&fields, "Boston"));
    assert!(!record_matches(&fields, "Bost"));
    assert!(!record_matches(&fields, "ma"));
    assert!(!record_matches(&Vec::new(), ""));
}
