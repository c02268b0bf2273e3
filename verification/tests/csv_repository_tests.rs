use experiment_github_star::tools::csv_repository::{
    deserialize_topics, serialize_topics, CsvRepository,
};
use experiment_github_star::tools::github::Repository;

fn strings(items: &[&str]) -> Vec<String> {
    items.iter().map(|s| s.to_string()).collect()
}

fn repository(description: Option<&str>) -> Repository {
    Repository {
        id: 7,
        name: "verus".to_string(),
        topics: strings(&["rust", "verification"]),
        description: description.map(|d| d.to_string()),
        repo_url: "https://github.com/verus-lang/verus".to_string(),
        category: None,
    }
}

#[test]
fn row_keeps_the_description() {
    let row = CsvRepository::from(repository(Some("a verifier")));
    assert_eq!(row.id, 7);
    assert_eq!(row.name, "verus");
    assert_eq!(row.topics, strings(&["rust", "verification"]));
    assert_eq!(row.description, "a verifier");
    assert_eq!(row.repo_url, "https://github.com/verus-lang/verus");
    assert_eq!(row.category, None);
}

#[test]
fn row_without_description_says_none() {
    let row = CsvRepository::from(repository(None));
    assert_eq!(row.description, "none");
}

#[test]
fn category_is_set() {
    let row = CsvRepository::from(repository(None)).with_category("rust".to_string());
    assert_eq!(row.category, Some("rust".to_string()));
    assert_eq!(row.name, "verus");
}

#[test]
fn topics_field_is_comma_joined() {
    assert_eq!(serialize_topics(&strings(&["rust", "cli"])), "rust,cli");
    assert_eq!(serialize_topics(&Vec::new()), "");
}

#[test]
fn topics_field_is_cut_at_comma_space() {
    assert_eq!(deserialize_topics("rust, cli"), strings(&["rust", "cli"]));
    assert_eq!(deserialize_topics("rust,cli"), strings(&["rust,cli"]));
    assert_eq!(deserialize_topics(""), strings(&[""]));
}

#[test]
fn single_topic_survives_the_round_trip() {
    let topics = strings(&["rust"]);
    assert_eq!(deserialize_topics(&serialize_topics(&topics)), topics);
}

#[test]
fn several_topics_do_not_survive_the_round_trip() {
    let topics = strings(&["rust", "cli"]);
    assert_eq!(deserialize_topics(&serialize_topics(&topics)), strings(&["rust,cli"]));
    let none: Vec<String> = Vec::new();
    assert_eq!(deserialize_topics(&serialize_topics(&none)), strings(&[""]));
    let with_separator = strings(&["a, b"]);
    assert_eq!(deserialize_topics(&serialize_topics(&with_separator)), strings(&["a", "b"]));
}

#[test]
fn field_round_trip_only_without_comma_space() {
    assert_eq!(serialize_topics(&deserialize_topics("rust,cli")), "rust,cli");
    assert_eq!(serialize_topics(&deserialize_topics("rust, cli")), "rust,cli");
}

#[test]
fn row_information_lists_the_row() {
    let row = CsvRepository::from(repository(None));
    assert_eq!(
        row.information(),
        "Name: verus\nDescription: none\nTopics: [\"rust\", \"verification\"]\nID: 7\n"
    );
}
