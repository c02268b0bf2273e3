use experiment_github_star::tools::csv_repository::CsvRepository;
use experiment_github_star::usecases::create_readme::{
    group_by_category, readme_document, readme_sections, readme_text, ClassifiedEntry,
};

fn strings(items: &[&str]) -> Vec<String> {
    items.iter().map(|s| s.to_string()).collect()
}

fn entry(name: &str, category: Option<&str>) -> ClassifiedEntry {
    ClassifiedEntry {
        name: name.to_string(),
        url: format!("https://github.com/x/{}", name),
        category: category.map(|c| c.to_string()),
    }
}

fn row(name: &str, category: Option<&str>) -> CsvRepository {
    CsvRepository {
        id: 1,
        name: name.to_string(),
        topics: Vec::new(),
        description: "none".to_string(),
        repo_url: format!("https://github.com/x/{}", name),
        category: category.map(|c| c.to_string()),
    }
}

#[test]
fn groups_in_order_of_first_occurrence() {
    let entries = vec![
        entry("a", Some("rust")),
        entry("b", Some("ai")),
        entry("c", Some("other")),
        entry("d", None),
        entry("e", Some("rust")),
    ];
    let categories = strings(&["ai", "rust"]);
    let sections = group_by_category(&entries, &categories);
    assert_eq!(sections.len(), 2);
    assert_eq!(sections[0].category, "rust");
    let names: Vec<&str> = sections[0].entries.iter().map(|e| e.name.as_str()).collect();
    assert_eq!(names, vec!["a", "e"]);
    assert_eq!(sections[1].category, "ai");
    assert_eq!(sections[1].entries.len(), 1);
    assert_eq!(sections[1].entries[0].url, "https://github.com/x/b");
}

#[test]
fn nothing_wanted_gives_no_sections() {
    let entries = vec![entry("a", Some("other")), entry("b", None)];
    assert!(group_by_category(&entries, &strings(&["ai"])).is_empty());
    assert!(group_by_category(&Vec::new(), &strings(&["ai"])).is_empty());
}

#[test]
fn every_wanted_entry_is_listed_once() {
    let entries = vec![
        entry("a", Some("ai")),
        entry("b", Some("ai")),
        entry("c", Some("rust")),
        entry("d", Some("bevy")),
        entry("a", Some("ai")),
    ];
    let sections = group_by_category(&entries, &strings(&["ai", "rust"]));
    let listed: usize = sections.iter().map(|s| s.entries.len()).sum();
    assert_eq!(listed, 4);
}

#[test]
fn readme_layout() {
    let rows = vec![row("a", Some("ai")), row("b", Some("rust")), row("c", Some("ai")), row("d", None)];
    let text = readme_text(&rows, &strings(&["ai", "rust", "webdev"]));
    assert_eq!(
        text,
        "### ai\n- [a](https://github.com/x/a)\n- [c](https://github.com/x/c)\n### rust\n- [b](https://github.com/x/b)\n"
    );
}

#[test]
fn empty_readme() {
    assert_eq!(readme_sections(&Vec::new()), "");
    assert_eq!(
        readme_document(&Vec::new()),
        "Experiment for llm classification to categorize github repository"
    );
}

#[test]
fn document_layout() {
    let entries = vec![entry("a", Some("ai")), entry("b", Some("rust"))];
    let sections = group_by_category(&entries, &strings(&["ai", "rust"]));
    assert_eq!(
        readme_document(&sections),
        "Experiment for llm classification to categorize github repository\n### ai\n- [a](https://github.com/x/a)\n### rust\n- [b](https://github.com/x/b)"
    );
}
