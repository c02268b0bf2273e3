use experiment_github_star::tools::agent_classifier::{
    classifier_preamble, repository_information, repository_prompt, SIMPLE_CLASSIFIER_PREAMBLE,
};

fn strings(items: &[&str]) -> Vec<String> {
    items.iter().map(|s| s.to_string()).collect()
}

#[test]
fn preamble_lists_the_categories() {
    let categories = strings(&["ai", "rust", "webdev", "fullstack", "frontend"]);
    let expected = format!(
        "You are an AI assistant specialized in classifying repository information into predefined categories. \
        The categories are: -{} \
        Use only category that I mentions before  \
        Only one category should be selected. \
        If information doesn't fit into these categories, use the 'other' category. \
        Summary result into single category and give confidence score rate 1-10. \
        If cannot get confidence score assign score to 0. \
        ",
        categories.join(" -")
    );
    assert_eq!(classifier_preamble(&categories), expected);
    assert!(classifier_preamble(&categories).contains("-ai -rust -webdev -fullstack -frontend "));
}

#[test]
fn preamble_without_categories() {
    let preamble = classifier_preamble(&Vec::new());
    assert!(preamble.contains("The categories are: - Use only"));
}

#[test]
fn simple_preamble_names_fixed_categories() {
    assert!(SIMPLE_CLASSIFIER_PREAMBLE.contains("The categories are: ai, rust, webdev, fullstack, frontend Use only"));
    assert!(SIMPLE_CLASSIFIER_PREAMBLE.ends_with("for each classification."));
}

#[test]
fn information_formats_like_the_prompt() {
    let topics = strings(&["cli", "say \"hi\""]);
    let text = repository_information("tool", "does things", &topics, -3);
    assert_eq!(
        text,
        format!(
            "Name: {}\nDescription: {}\nTopics: {:?}\nID: {}\n",
            "tool", "does things", topics, -3
        )
    );
    assert!(text.contains("Topics: [\"cli\", \"say \\\"hi\\\"\"]"));
}

#[test]
fn prompt_from_rendered_topics() {
    assert_eq!(
        repository_prompt("n", "d", "[]", 12),
        "Name: n\nDescription: d\nTopics: []\nID: 12\n"
    );
}
