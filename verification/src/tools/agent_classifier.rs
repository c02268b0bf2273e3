//! The texts handed to the language model that sorts repositories into
//! categories: the instructions it is given and the description of each
//! repository.

use vstd::prelude::*;

use crate::text::{
    ended_lines, decimal, decimal_string, join, join_offset, join_strings, lemma_framed_join, views,
};

verus! {

/// The instructions up to the list of categories.
pub const CLASSIFIER_PREAMBLE_HEAD: &'static str = "You are an AI assistant specialized in classifying repository information into predefined categories. The categories are: -";

/// The instructions after the list of categories.
pub const CLASSIFIER_PREAMBLE_TAIL: &'static str = " Use only category that I mentions before  Only one category should be selected. If information doesn't fit into these categories, use the 'other' category. Summary result into single category and give confidence score rate 1-10. If cannot get confidence score assign score to 0. ";

/// The instructions of the classifier that works from a fixed list of categories.
pub const SIMPLE_CLASSIFIER_PREAMBLE: &'static str = "You are an AI assistant specialized in classifying repository information into predefined categories. The categories are: ai, rust, webdev, fullstack, frontend Use only category I provided do not create new category. Only one category should be selected. If information doesn't fit into these categories, use the 'other' category. If the information is not clear, use the 'unknown' category. Provide a confidence score and a brief summary for each classification.";

/// The instructions for sorting into `categories`: the categories stand
/// between the fixed head and tail, joined with ` -`.
pub open spec fn classifier_preamble_text(categories: Seq<Seq<char>>) -> Seq<char> {
    CLASSIFIER_PREAMBLE_HEAD@ + join(categories, " -"@) + CLASSIFIER_PREAMBLE_TAIL@
}

/// The instructions for a classifier that sorts into `categories`.
pub fn classifier_preamble(categories: &Vec<String>) -> (r: String)
    ensures
        r@ == classifier_preamble_text(views(categories@)),
{
    let listed = join_strings(categories, " -");
    let mut r = String::from_str(CLASSIFIER_PREAMBLE_HEAD);
    r.append(listed.as_str());
    r.append(CLASSIFIER_PREAMBLE_TAIL);
    r
}

/// The instructions for `categories` are the fixed head, then every
/// category in the given order with ` -` between each two neighbours, then
/// the fixed tail: category `i` stands right after the head at
/// `join_offset(categories, " -", i)`, so none is dropped, reordered or
/// repeated, and the length is exactly that of head, categories, separators
/// and tail together.
pub proof fn lemma_preamble_lists_every_category(categories: Seq<Seq<char>>)
    ensures
        ({
            let t = classifier_preamble_text(categories);
            let head = CLASSIFIER_PREAMBLE_HEAD@;
            let tail = CLASSIFIER_PREAMBLE_TAIL@;
            let sep = " -"@;
            let h = head.len() as int;
            &&& t.subrange(0, h) == head
            &&& t.subrange(t.len() - tail.len(), t.len() as int) == tail
            &&& t.len() == h + tail.len() + if categories.len() == 0 {
                0
            } else {
                join_offset(categories, sep, categories.len() - 1) + categories.last().len()
            }
            &&& forall|i: int|
                0 <= i < categories.len() ==> t.subrange(
                    h + join_offset(categories, sep, i),
                    h + join_offset(categories, sep, i) + categories[i].len(),
                ) == #[trigger] categories[i]
            &&& forall|i: int|
                0 <= i < categories.len() - 1 ==> t.subrange(
                    h + join_offset(categories, sep, i) + categories[i].len(),
                    h + #[trigger] join_offset(categories, sep, i + 1),
                ) == sep
        }),
{
    lemma_framed_join(
        CLASSIFIER_PREAMBLE_HEAD@,
        categories,
        " -"@,
        CLASSIFIER_PREAMBLE_TAIL@,
    );
}

/// The description of a repository is four lines, each ended by a newline:
/// `Name: ` and the name, `Description: ` and the description, `Topics: `
/// and the rendered topics, `ID: ` and the id in decimal.
pub proof fn lemma_prompt_lines(name: Seq<char>, description: Seq<char>, topics: Seq<char>, id: int)
    ensures
        repository_prompt_text(name, description, topics, id) == ended_lines(
            seq![
                "Name: "@ + name,
                "Description: "@ + description,
                "Topics: "@ + topics,
                "ID: "@ + decimal(id),
            ],
        ),
{
    reveal_strlit("Name: ");
    reveal_strlit("\nDescription: ");
    reveal_strlit("Description: ");
    reveal_strlit("\nTopics: ");
    reveal_strlit("Topics: ");
    reveal_strlit("\nID: ");
    reveal_strlit("ID: ");
    reveal_strlit("\n");
    let lines = seq![
        "Name: "@ + name,
        "Description: "@ + description,
        "Topics: "@ + topics,
        "ID: "@ + decimal(id),
    ];
    let l3 = lines.drop_last();
    let l2 = l3.drop_last();
    let l1 = l2.drop_last();
    let l0 = l1.drop_last();
    assert(l0 =~= Seq::<Seq<char>>::empty());
    assert(ended_lines(l0) == Seq::<char>::empty());
    assert(ended_lines(l1) == ended_lines(l0) + l1.last() + "\n"@);
    assert(ended_lines(l2) == ended_lines(l1) + l2.last() + "\n"@);
    assert(ended_lines(l3) == ended_lines(l2) + l3.last() + "\n"@);
    assert(ended_lines(lines) == ended_lines(l3) + lines.last() + "\n"@);
    assert(l1.last() == lines[0]);
    assert(l2.last() == lines[1]);
    assert(l3.last() == lines[2]);
    assert(repository_prompt_text(name, description, topics, id) =~= ended_lines(lines));
}

/// What `{:?}` writes for a list of strings: each string quoted and escaped,
/// the whole in square brackets, separated by `, `.
pub uninterp spec fn debug_list(items: Seq<Seq<char>>) -> Seq<char>;

/// The debug rendering of a list of topics.
///
/// Trusted: calls std's `Debug` for `Vec<String>` through `format!("{:?}")`;
/// the contract says only that the text depends on the topics' characters
/// alone, under the name `debug_list`. The escaping rules are left unsaid.
#[verifier::external_body]
fn debug_topics(topics: &Vec<String>) -> (r: String)
    ensures
        r@ == debug_list(views(topics@)),
{
    format!("{:?}", topics)
}

/// The description of a repository handed to the classifier, given the
/// already rendered topic list.
pub open spec fn repository_prompt_text(
    name: Seq<char>,
    description: Seq<char>,
    topics: Seq<char>,
    id: int,
) -> Seq<char> {
    "Name: "@ + name + "\nDescription: "@ + description + "\nTopics: "@ + topics + "\nID: "@
        + decimal(id) + "\n"@
}

/// The description of a repository, from its name, description, rendered
/// topic list and id.
pub fn repository_prompt(name: &str, description: &str, topics: &str, id: i32) -> (r: String)
    ensures
        r@ == repository_prompt_text(name@, description@, topics@, id as int),
{
    let mut r = String::from_str("Name: ");
    r.append(name);
    r.append("\nDescription: ");
    r.append(description);
    r.append("\nTopics: ");
    r.append(topics);
    r.append("\nID: ");
    let number = decimal_string(id);
    r.append(number.as_str());
    r.append("\n");
    r
}

/// The description of a repository handed to the classifier: its name,
/// description, topics (as `{:?}` lists them) and id, one per line.
pub fn repository_information(name: &str, description: &str, topics: &Vec<String>, id: i32) -> (r:
    String)
    ensures
        r@ == repository_prompt_text(name@, description@, debug_list(views(topics@)), id as int),
{
    let listed = debug_topics(topics);
    repository_prompt(name, description, listed.as_str(), id)
}

} // verus!
