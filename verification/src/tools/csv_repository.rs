//! The repository record kept in the CSV files, and how its topics are
//! written to and read from a single CSV field.

use vstd::prelude::*;

use crate::text::{
    join, join_strings, lemma_join_longer, lemma_join_split, lemma_split_from_match,
    lemma_split_from_nonempty, lemma_split_single, occurs_in, split, split_str, views,
};
use crate::tools::agent_classifier::{debug_list, repository_information, repository_prompt_text};
use crate::tools::github::Repository;

verus! {

/// The separator that `serialize_topics` writes between topics.
pub open spec fn topic_writer_separator() -> Seq<char> {
    seq![',']
}

/// The separator at which `deserialize_topics` cuts a field.
pub open spec fn topic_reader_separator() -> Seq<char> {
    seq![',', ' ']
}

/// A repository as one row of the CSV files.
#[derive(Debug)]
pub struct CsvRepository {
    pub id: i32,
    pub name: String,
    pub topics: Vec<String>,
    pub description: String,
    pub repo_url: String,
    pub category: Option<String>,
}

/// The description written for a repository: its own, or `none` when it has none.
pub open spec fn description_text(description: Option<String>) -> Seq<char> {
    match description {
        Some(d) => d@,
        None => "none"@,
    }
}

/// A row keeps a repository's own description; a repository without one
/// gets the four letters `none`.
pub proof fn lemma_description_text(d: String)
    ensures
        description_text(Some(d)) == d@,
        description_text(None) == seq!['n', 'o', 'n', 'e'],
{
    reveal_strlit("none");
}

impl CsvRepository {
    /// The row for a repository listed by GitHub; a missing description is
    /// written as `none`.
    pub fn from(repo: Repository) -> (c: CsvRepository)
        ensures
            c.id == repo.id,
            c.name == repo.name,
            c.topics == repo.topics,
            c.description@ == description_text(repo.description),
            c.repo_url == repo.repo_url,
            c.category == repo.category,
    {
        let description = match repo.description {
            Some(d) => d,
            None => String::from_str("none"),
        };
        CsvRepository {
            id: repo.id,
            name: repo.name,
            topics: repo.topics,
            description,
            repo_url: repo.repo_url,
            category: repo.category,
        }
    }

    /// The description of the row handed to the classifier.
    pub fn information(&self) -> (r: String)
        ensures
            r@ == repository_prompt_text(
                self.name@,
                self.description@,
                debug_list(views(self.topics@)),
                self.id as int,
            ),
    {
        repository_information(self.name.as_str(), self.description.as_str(), &self.topics, self.id)
    }

    /// The same row, sorted into `category`.
    pub fn with_category(self, category: String) -> (c: CsvRepository)
        ensures
            c.id == self.id,
            c.name == self.name,
            c.topics == self.topics,
            c.description == self.description,
            c.repo_url == self.repo_url,
            c.category == Some(category),
    {
        CsvRepository {
            id: self.id,
            name: self.name,
            topics: self.topics,
            description: self.description,
            repo_url: self.repo_url,
            category: Some(category),
        }
    }
}

/// The CSV field for a list of topics: the topics joined with `,`.
pub fn serialize_topics(topics: &Vec<String>) -> (s: String)
    ensures
        s@ == join(views(topics@), topic_writer_separator()),
{
    let sep = ",";
    proof {
        reveal_strlit(",");
        assert(sep@ =~= topic_writer_separator());
    }
    join_strings(topics, sep)
}

/// The topics read back from a CSV field: the field cut at every `, `.
pub fn deserialize_topics(field: &str) -> (topics: Vec<String>)
    ensures
        views(topics@) == split(field@, topic_reader_separator()),
{
    let sep = ", ";
    proof {
        reveal_strlit(", ");
        assert(sep@ =~= topic_reader_separator());
    }
    split_str(field, sep)
}

/// Writing topics to a field and reading them back gives the same topics
/// exactly when there is one topic and `, ` does not occur in it. (Topics are
/// written with `,` between them but read back cut at `, `.)
pub proof fn lemma_topics_round_trip(topics: Seq<Seq<char>>)
    ensures
        split(join(topics, topic_writer_separator()), topic_reader_separator()) == topics
            <==> (topics.len() == 1 && !occurs_in(topics[0], topic_reader_separator())),
{
    let w = topic_writer_separator();
    let r = topic_reader_separator();
    let field = join(topics, w);
    if topics.len() == 1 {
        assert(field == topics[0]);
        lemma_split_single(topics[0], r);
        assert(topics =~= seq![topics[0]]);
        if occurs_in(topics[0], r) {
            assert(split(field, r) != seq![topics[0]]);
        } else {
            assert(split(field, r) == seq![topics[0]]);
        }
    } else if split(field, r) == topics {
        lemma_split_from_nonempty(field, r, 0, 0);
        lemma_join_split(field, r);
        assert(join(topics, r) == field);
        lemma_join_longer(topics, w, r);
        assert(false);
    }
}

/// Reading a field and writing the topics back gives the same field exactly
/// when `, ` does not occur in it.
pub proof fn lemma_field_round_trip(field: Seq<char>)
    ensures
        join(split(field, topic_reader_separator()), topic_writer_separator()) == field
            <==> !occurs_in(field, topic_reader_separator()),
{
    let w = topic_writer_separator();
    let r = topic_reader_separator();
    lemma_split_single(field, r);
    if occurs_in(field, r) {
        let j = choose|j: int| crate::text::matches_at(field, r, j);
        lemma_split_from_match(field, r, 0, 0, j);
        lemma_join_split(field, r);
        lemma_join_longer(split(field, r), w, r);
    } else {
        assert(join(seq![field], w) == field);
    }
}

} // verus!
