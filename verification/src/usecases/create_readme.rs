//! The README built from classified repositories: the repositories whose
//! category is one of the wanted ones, grouped under a heading per category.

use vstd::prelude::*;

use crate::text::{ended_lines, join, join_strings, lemma_ended_lines_concat, views};
use crate::tools::csv_repository::CsvRepository;

verus! {

/// A repository with the category it was sorted into, as the README needs it.
pub struct ClassifiedEntry {
    pub name: String,
    pub url: String,
    pub category: Option<String>,
}

/// One line of a README section.
pub struct ReadmeEntry {
    pub name: String,
    pub url: String,
}

/// A category heading with the repositories listed under it.
pub struct CategorySection {
    pub category: String,
    pub entries: Vec<ReadmeEntry>,
}

/// A listed repository: its name and its address.
pub type EntryView = (Seq<char>, Seq<char>);

/// A section: its category and its repositories.
pub type SectionView = (Seq<char>, Seq<EntryView>);

pub open spec fn entry_view(e: ReadmeEntry) -> EntryView {
    (e.name@, e.url@)
}

pub open spec fn section_view(s: CategorySection) -> SectionView {
    (s.category@, s.entries@.map_values(|e: ReadmeEntry| entry_view(e)))
}

pub open spec fn sections_view(ss: Seq<CategorySection>) -> Seq<SectionView> {
    ss.map_values(|s: CategorySection| section_view(s))
}

/// `e` has a category, and it is one of `categories`.
pub open spec fn is_wanted(e: ClassifiedEntry, categories: Seq<Seq<char>>) -> bool {
    e.category matches Some(c) && categories.contains(c@)
}

/// The category of an entry that has one.
pub open spec fn category_of(e: ClassifiedEntry) -> Seq<char> {
    e.category->Some_0@
}

/// The wanted entries of category `c`, in their order, as name and address.
pub open spec fn entries_in(es: Seq<ClassifiedEntry>, categories: Seq<Seq<char>>, c: Seq<char>) -> Seq<
    EntryView,
>
    decreases es.len(),
{
    if es.len() == 0 {
        Seq::empty()
    } else {
        let rest = entries_in(es.drop_last(), categories, c);
        let e = es.last();
        if is_wanted(e, categories) && category_of(e) == c {
            rest.push((e.name@, e.url@))
        } else {
            rest
        }
    }
}

/// The categories of the wanted entries, each once, in the order in which
/// they first occur.
pub open spec fn category_order(es: Seq<ClassifiedEntry>, categories: Seq<Seq<char>>) -> Seq<
    Seq<char>,
>
    decreases es.len(),
{
    if es.len() == 0 {
        Seq::empty()
    } else {
        let rest = category_order(es.drop_last(), categories);
        let e = es.last();
        if is_wanted(e, categories) && !rest.contains(category_of(e)) {
            rest.push(category_of(e))
        } else {
            rest
        }
    }
}

/// The sections of the README: one per category that occurs among the
/// wanted entries, in order of first occurrence, each listing that
/// category's entries in their order.
pub open spec fn grouped(es: Seq<ClassifiedEntry>, categories: Seq<Seq<char>>) -> Seq<SectionView> {
    let order = category_order(es, categories);
    Seq::new(order.len(), |i: int| (order[i], entries_in(es, categories, order[i])))
}

/// Whether `list` holds a string equal to `s`.
fn contains_string(list: &Vec<String>, s: &String) -> (r: bool)
    ensures
        r == views(list@).contains(s@),
{
    let mut i: usize = 0;
    while i < list.len()
        invariant
            i <= list.len(),
            forall|j: int| 0 <= j < i ==> list@[j]@ != s@,
        decreases list.len() - i,
    {
        if list[i] == *s {
            assert(views(list@)[i as int] == s@);
            return true;
        }
        i = i + 1;
    }
    proof {
        if views(list@).contains(s@) {
            let j = choose|j: int| 0 <= j < views(list@).len() && views(list@)[j] == s@;
            assert(list@[j]@ == s@);
        }
    }
    false
}

/// Whether `e` is a wanted entry.
fn wanted(e: &ClassifiedEntry, categories: &Vec<String>) -> (r: bool)
    ensures
        r == is_wanted(*e, views(categories@)),
{
    match &e.category {
        Some(c) => contains_string(categories, c),
        None => false,
    }
}

/// Groups the wanted entries, those whose category is one of `categories`,
/// by category.
pub fn group_by_category(entries: &Vec<ClassifiedEntry>, categories: &Vec<String>) -> (r: Vec<
    CategorySection,
>)
    ensures
        sections_view(r@) == grouped(entries@, views(categories@)),
{
    let ghost cats = views(categories@);
    let mut order: Vec<String> = Vec::new();
    let mut i: usize = 0;
    while i < entries.len()
        invariant
            i <= entries.len(),
            cats == views(categories@),
            views(order@) == category_order(entries@.take(i as int), cats),
        decreases entries.len() - i,
    {
        let e = &entries[i];
        assert(entries@.take(i + 1).drop_last() =~= entries@.take(i as int));
        assert(entries@.take(i + 1).last() == entries@[i as int]);
        if wanted(e, categories) {
            let c = e.category.as_ref().unwrap();
            if !contains_string(&order, c) {
                let ghost before = order@;
                order.push(c.clone());
                assert(views(order@) =~= views(before).push(c@));
            }
        }
        i = i + 1;
    }
    assert(entries@.take(entries.len() as int) =~= entries@);
    let mut sections: Vec<CategorySection> = Vec::new();
    let mut k: usize = 0;
    while k < order.len()
        invariant
            k <= order.len(),
            cats == views(categories@),
            views(order@) == category_order(entries@, cats),
            sections_view(sections@) =~= grouped(entries@, cats).take(k as int),
        decreases order.len() - k,
    {
        let c = &order[k];
        let mut listed: Vec<ReadmeEntry> = Vec::new();
        let mut j: usize = 0;
        while j < entries.len()
            invariant
                j <= entries.len(),
                cats == views(categories@),
                listed@.map_values(|e: ReadmeEntry| entry_view(e)) == entries_in(
                    entries@.take(j as int),
                    cats,
                    c@,
                ),
            decreases entries.len() - j,
        {
            let e = &entries[j];
            assert(entries@.take(j + 1).drop_last() =~= entries@.take(j as int));
            assert(entries@.take(j + 1).last() == entries@[j as int]);
            if wanted(e, categories) {
                let ec = e.category.as_ref().unwrap();
                if *ec == *c {
                    let ghost before = listed@;
                    listed.push(ReadmeEntry { name: e.name.clone(), url: e.url.clone() });
                    assert(listed@.map_values(|e: ReadmeEntry| entry_view(e)) =~= before.map_values(
                        |e: ReadmeEntry| entry_view(e),
                    ).push((e.name@, e.url@)));
                }
            }
            j = j + 1;
        }
        assert(entries@.take(entries.len() as int) =~= entries@);
        let ghost before = sections@;
        sections.push(CategorySection { category: c.clone(), entries: listed });
        assert(sections_view(sections@) =~= sections_view(before).push(
            grouped(entries@, cats)[k as int],
        ));
        k = k + 1;
    }
    sections
}

/// The first line of the README written by the all-in-one program.
pub const README_TITLE: &'static str = "Experiment for llm classification to categorize github repository";

/// The Markdown link for a listed repository.
pub open spec fn entry_link(e: EntryView) -> Seq<char> {
    "- ["@ + e.0 + "]("@ + e.1 + ")"@
}

/// The Markdown heading of a category.
pub open spec fn heading(c: Seq<char>) -> Seq<char> {
    "### "@ + c
}

/// Each entry's link on a line of its own.
pub open spec fn links_text(es: Seq<EntryView>) -> Seq<char>
    decreases es.len(),
{
    if es.len() == 0 {
        Seq::empty()
    } else {
        links_text(es.drop_last()) + entry_link(es.last()) + "\n"@
    }
}

/// Each section as its heading line followed by its link lines, every line
/// ended by a newline.
pub open spec fn sections_text(ss: Seq<SectionView>) -> Seq<char>
    decreases ss.len(),
{
    if ss.len() == 0 {
        Seq::empty()
    } else {
        sections_text(ss.drop_last()) + heading(ss.last().0) + "\n"@ + links_text(ss.last().1)
    }
}

/// The lines of a section: its heading, then a link per entry.
pub open spec fn section_lines(s: SectionView) -> Seq<Seq<char>> {
    seq![heading(s.0)] + s.1.map_values(|e: EntryView| entry_link(e))
}

/// The lines of the README: the title, then every section's lines.
pub open spec fn document_lines(ss: Seq<SectionView>) -> Seq<Seq<char>>
    decreases ss.len(),
{
    if ss.len() == 0 {
        seq![README_TITLE@]
    } else {
        document_lines(ss.drop_last()) + section_lines(ss.last())
    }
}

/// The links of `entries`, one per line.
fn links(entries: &Vec<ReadmeEntry>) -> (r: String)
    ensures
        r@ == links_text(entries@.map_values(|e: ReadmeEntry| entry_view(e))),
{
    let ghost es = entries@.map_values(|e: ReadmeEntry| entry_view(e));
    let mut r = String::new();
    let mut i: usize = 0;
    while i < entries.len()
        invariant
            i <= entries.len(),
            es == entries@.map_values(|e: ReadmeEntry| entry_view(e)),
            r@ == links_text(es.take(i as int)),
        decreases entries.len() - i,
    {
        let e = &entries[i];
        r.append("- [");
        r.append(e.name.as_str());
        r.append("](");
        r.append(e.url.as_str());
        r.append(")");
        r.append("\n");
        assert(es.take(i + 1).drop_last() =~= es.take(i as int));
        assert(es.take(i + 1).last() == (e.name@, e.url@));
        i = i + 1;
    }
    assert(es.take(entries.len() as int) =~= es);
    r
}

/// The README body: for each section, a `### category` line followed by a
/// `- [name](url)` line per repository.
pub fn readme_sections(sections: &Vec<CategorySection>) -> (r: String)
    ensures
        r@ == sections_text(sections_view(sections@)),
{
    let ghost ss = sections_view(sections@);
    let mut r = String::new();
    let mut i: usize = 0;
    while i < sections.len()
        invariant
            i <= sections.len(),
            ss == sections_view(sections@),
            r@ == sections_text(ss.take(i as int)),
        decreases sections.len() - i,
    {
        let s = &sections[i];
        r.append("### ");
        r.append(s.category.as_str());
        r.append("\n");
        let listed = links(&s.entries);
        r.append(listed.as_str());
        assert(ss.take(i + 1).drop_last() =~= ss.take(i as int));
        assert(ss.take(i + 1).last() == section_view(*s));
        i = i + 1;
    }
    assert(ss.take(sections.len() as int) =~= ss);
    r
}

/// The README written from classified rows: the rows whose category is one
/// of `categories`, grouped by category, in the layout of `readme_sections`.
pub fn readme_text(repositories: &Vec<CsvRepository>, categories: &Vec<String>) -> (r: String)
    ensures
        r@ == sections_text(grouped(classified_rows(repositories@), views(categories@))),
{
    let entries = classified_entries(repositories);
    let sections = group_by_category(&entries, categories);
    readme_sections(&sections)
}

/// The README of the all-in-one program: the title line, then each
/// section's heading and links, the lines joined with newlines.
pub fn readme_document(sections: &Vec<CategorySection>) -> (r: String)
    ensures
        r@ == join(document_lines(sections_view(sections@)), "\n"@),
{
    let ghost ss = sections_view(sections@);
    let mut lines: Vec<String> = Vec::new();
    lines.push(String::from_str(README_TITLE));
    assert(views(lines@) =~= document_lines(ss.take(0)));
    let mut i: usize = 0;
    while i < sections.len()
        invariant
            i <= sections.len(),
            ss == sections_view(sections@),
            views(lines@) == document_lines(ss.take(i as int)),
        decreases sections.len() - i,
    {
        let s = &sections[i];
        let ghost start = views(lines@);
        let mut h = String::from_str("### ");
        h.append(s.category.as_str());
        lines.push(h);
        let ghost es = s.entries@.map_values(|e: ReadmeEntry| entry_view(e));
        let mut j: usize = 0;
        while j < s.entries.len()
            invariant
                j <= s.entries.len(),
                es == s.entries@.map_values(|e: ReadmeEntry| entry_view(e)),
                views(lines@) == start + seq![heading(s.category@)] + es.take(j as int).map_values(
                    |e: EntryView| entry_link(e),
                ),
            decreases s.entries.len() - j,
        {
            let e = &s.entries[j];
            let mut l = String::from_str("- [");
            l.append(e.name.as_str());
            l.append("](");
            l.append(e.url.as_str());
            l.append(")");
            let ghost before = views(lines@);
            lines.push(l);
            assert(es.take(j + 1).map_values(|e: EntryView| entry_link(e)) =~= es.take(
                j as int,
            ).map_values(|e: EntryView| entry_link(e)).push(entry_link(es[j as int])));
            assert(views(lines@) =~= before.push(l@));
            j = j + 1;
        }
        assert(es.take(s.entries.len() as int) =~= es);
        assert(ss.take(i + 1).drop_last() =~= ss.take(i as int));
        assert(ss.take(i + 1).last() == section_view(*s));
        assert(views(lines@) =~= document_lines(ss.take(i + 1)));
        i = i + 1;
    }
    assert(ss.take(sections.len() as int) =~= ss);
    join_strings(&lines, "\n")
}

/// The entry for a classified row: its name, its address and its category.
pub open spec fn classified(c: CsvRepository) -> ClassifiedEntry {
    ClassifiedEntry { name: c.name, url: c.repo_url, category: c.category }
}

/// The entries for classified rows, one per row in the same order.
pub open spec fn classified_rows(rows: Seq<CsvRepository>) -> Seq<ClassifiedEntry> {
    rows.map_values(|c: CsvRepository| classified(c))
}

/// The entries for classified rows, one per row in the same order.
pub fn classified_entries(repositories: &Vec<CsvRepository>) -> (r: Vec<ClassifiedEntry>)
    ensures
        r@ == classified_rows(repositories@),
{
    let mut r: Vec<ClassifiedEntry> = Vec::new();
    let mut i: usize = 0;
    while i < repositories.len()
        invariant
            i <= repositories.len(),
            r@ == repositories@.take(i as int).map_values(|c: CsvRepository| classified(c)),
        decreases repositories.len() - i,
    {
        let c = &repositories[i];
        let category = match &c.category {
            Some(k) => Some(k.clone()),
            None => None,
        };
        r.push(ClassifiedEntry { name: c.name.clone(), url: c.repo_url.clone(), category });
        assert(repositories@.take(i + 1).map_values(|c: CsvRepository| classified(c)) =~= r@);
        i = i + 1;
    }
    assert(repositories@.take(repositories.len() as int) =~= repositories@);
    r
}

/// How many of the entries are wanted.
pub open spec fn wanted_count(es: Seq<ClassifiedEntry>, categories: Seq<Seq<char>>) -> nat
    decreases es.len(),
{
    if es.len() == 0 {
        0
    } else {
        wanted_count(es.drop_last(), categories) + if is_wanted(es.last(), categories) {
            1nat
        } else {
            0nat
        }
    }
}

/// How many repositories the sections list in all.
pub open spec fn listed_count(ss: Seq<SectionView>) -> nat
    decreases ss.len(),
{
    if ss.len() == 0 {
        0
    } else {
        listed_count(ss.drop_last()) + ss.last().1.len()
    }
}

/// The number of entries of each category of `order`, added up.
spec fn count_over(es: Seq<ClassifiedEntry>, categories: Seq<Seq<char>>, order: Seq<Seq<char>>) -> nat
    decreases order.len(),
{
    if order.len() == 0 {
        0
    } else {
        count_over(es, categories, order.drop_last()) + entries_in(es, categories, order.last()).len()
    }
}

/// How often `c` occurs in `order`.
spec fn occurrences(order: Seq<Seq<char>>, c: Seq<char>) -> nat
    decreases order.len(),
{
    if order.len() == 0 {
        0
    } else {
        occurrences(order.drop_last(), c) + if order.last() == c {
            1nat
        } else {
            0nat
        }
    }
}

proof fn lemma_listed_is_count_over(es: Seq<ClassifiedEntry>, categories: Seq<Seq<char>>, n: int)
    requires
        0 <= n <= category_order(es, categories).len(),
    ensures
        listed_count(grouped(es, categories).take(n)) == count_over(
            es,
            categories,
            category_order(es, categories).take(n),
        ),
    decreases n,
{
    let order = category_order(es, categories);
    let g = grouped(es, categories);
    if n > 0 {
        lemma_listed_is_count_over(es, categories, n - 1);
        assert(g.take(n).drop_last() =~= g.take(n - 1));
        assert(order.take(n).drop_last() =~= order.take(n - 1));
    }
}

/// Adding an entry of category `c` raises the count over `order` by the
/// number of times `c` stands in `order`.
proof fn lemma_count_over_shift(
    longer: Seq<ClassifiedEntry>,
    shorter: Seq<ClassifiedEntry>,
    categories: Seq<Seq<char>>,
    order: Seq<Seq<char>>,
    c: Seq<char>,
)
    requires
        forall|x: Seq<char>|
            #[trigger] entries_in(longer, categories, x).len() == entries_in(shorter, categories, x).len()
                + if x == c {
                1nat
            } else {
                0nat
            },
    ensures
        count_over(longer, categories, order) == count_over(shorter, categories, order)
            + occurrences(order, c),
    decreases order.len(),
{
    if order.len() > 0 {
        lemma_count_over_shift(longer, shorter, categories, order.drop_last(), c);
        let _ = entries_in(longer, categories, order.last());
    }
}

proof fn lemma_count_over_same(
    longer: Seq<ClassifiedEntry>,
    shorter: Seq<ClassifiedEntry>,
    categories: Seq<Seq<char>>,
    order: Seq<Seq<char>>,
)
    requires
        forall|x: Seq<char>|
            #[trigger] entries_in(longer, categories, x).len() == entries_in(shorter, categories, x).len(),
    ensures
        count_over(longer, categories, order) == count_over(shorter, categories, order),
    decreases order.len(),
{
    if order.len() > 0 {
        lemma_count_over_same(longer, shorter, categories, order.drop_last());
        let _ = entries_in(longer, categories, order.last());
    }
}

proof fn lemma_occurrences(order: Seq<Seq<char>>, c: Seq<char>)
    requires
        forall|i: int, j: int| 0 <= i < j < order.len() ==> order[i] != order[j],
    ensures
        occurrences(order, c) == if order.contains(c) {
            1nat
        } else {
            0nat
        },
    decreases order.len(),
{
    if order.len() > 0 {
        let rest = order.drop_last();
        lemma_occurrences(rest, c);
        if order.last() == c {
            assert(order[order.len() - 1] == c);
            if rest.contains(c) {
                let i = choose|i: int| 0 <= i < rest.len() && rest[i] == c;
                assert(order[i] == order[order.len() - 1]);
            }
        } else {
            if order.contains(c) {
                let i = choose|i: int| 0 <= i < order.len() && order[i] == c;
                assert(rest[i] == c);
            }
            if rest.contains(c) {
                let i = choose|i: int| 0 <= i < rest.len() && rest[i] == c;
                assert(order[i] == c);
            }
        }
    }
}

/// The facts about the category order that the laws rest on.
proof fn lemma_order_facts(es: Seq<ClassifiedEntry>, categories: Seq<Seq<char>>)
    ensures
        forall|i: int, j: int|
            0 <= i < j < category_order(es, categories).len() ==> category_order(es, categories)[i]
                != category_order(es, categories)[j],
        forall|i: int|
            0 <= i < category_order(es, categories).len() ==> categories.contains(
                #[trigger] category_order(es, categories)[i],
            ),
        forall|i: int|
            0 <= i < category_order(es, categories).len() ==> entries_in(
                es,
                categories,
                #[trigger] category_order(es, categories)[i],
            ).len() >= 1,
        forall|c: Seq<char>|
            !category_order(es, categories).contains(c) ==> #[trigger] entries_in(
                es,
                categories,
                c,
            ).len() == 0,
        forall|k: int|
            0 <= k < es.len() && is_wanted(#[trigger] es[k], categories) ==> category_order(
                es,
                categories,
            ).contains(category_of(es[k])),
    decreases es.len(),
{
    if es.len() > 0 {
        let p = es.drop_last();
        let e = es.last();
        lemma_order_facts(p, categories);
        let op = category_order(p, categories);
        let o = category_order(es, categories);
        assert forall|i: int| 0 <= i < o.len() implies entries_in(
            es,
            categories,
            #[trigger] o[i],
        ).len() >= 1 by {
            if i < op.len() {
                assert(o[i] == op[i]);
            }
        }
        assert forall|c: Seq<char>| !o.contains(c) implies #[trigger] entries_in(
            es,
            categories,
            c,
        ).len() == 0 by {
            if op.contains(c) {
                let i = choose|i: int| 0 <= i < op.len() && op[i] == c;
                assert(o[i] == c);
                assert(o.contains(c));
            }
            assert(!op.contains(c));
            assert(entries_in(p, categories, c).len() == 0);
            if is_wanted(e, categories) && category_of(e) == c {
                assert(o[o.len() - 1] == c);
                assert(o.contains(c));
            }
            assert(entries_in(es, categories, c) == entries_in(p, categories, c));
        }
        assert forall|k: int| 0 <= k < es.len() && is_wanted(#[trigger] es[k], categories) implies o.contains(
            category_of(es[k]),
        ) by {
            if k < p.len() {
                assert(es[k] == p[k]);
                let i = choose|i: int| 0 <= i < op.len() && op[i] == category_of(p[k]);
                assert(o[i] == op[i]);
            } else {
                assert(es[k] == e);
                if !op.contains(category_of(e)) {
                    assert(o[o.len() - 1] == category_of(e));
                } else {
                    let i = choose|i: int| 0 <= i < op.len() && op[i] == category_of(e);
                    assert(o[i] == op[i]);
                }
            }
        }
    }
}

/// The README's sections have distinct categories, each one of the wanted
/// categories and each with at least one repository; every wanted
/// repository's category has a section.
pub proof fn lemma_sections_are_distinct_and_wanted(
    es: Seq<ClassifiedEntry>,
    categories: Seq<Seq<char>>,
)
    ensures
        forall|i: int, j: int|
            0 <= i < j < grouped(es, categories).len() ==> grouped(es, categories)[i].0
                != grouped(es, categories)[j].0,
        forall|i: int|
            0 <= i < grouped(es, categories).len() ==> categories.contains(
                #[trigger] grouped(es, categories)[i].0,
            ) && grouped(es, categories)[i].1.len() >= 1,
        forall|k: int|
            0 <= k < es.len() && is_wanted(#[trigger] es[k], categories) ==> exists|i: int|
                0 <= i < grouped(es, categories).len() && grouped(es, categories)[i].0
                    == category_of(es[k]),
{
    lemma_order_facts(es, categories);
    let o = category_order(es, categories);
    let g = grouped(es, categories);
    assert forall|i: int| 0 <= i < g.len() implies categories.contains(#[trigger] g[i].0)
        && g[i].1.len() >= 1 by {
        assert(g[i].0 == o[i]);
    }
    assert forall|k: int| 0 <= k < es.len() && is_wanted(#[trigger] es[k], categories) implies exists|
        i: int,
    | 0 <= i < g.len() && g[i].0 == category_of(es[k]) by {
        let i = choose|i: int| 0 <= i < o.len() && o[i] == category_of(es[k]);
        assert(g[i].0 == o[i]);
    }
}

/// The README lists every wanted repository exactly once: the sections hold
/// as many repositories as there are wanted entries.
pub proof fn lemma_every_wanted_listed_once(es: Seq<ClassifiedEntry>, categories: Seq<Seq<char>>)
    ensures
        listed_count(grouped(es, categories)) == wanted_count(es, categories),
    decreases es.len(),
{
    let o = category_order(es, categories);
    lemma_listed_is_count_over(es, categories, o.len() as int);
    assert(grouped(es, categories).take(o.len() as int) =~= grouped(es, categories));
    assert(o.take(o.len() as int) =~= o);
    lemma_count_equals_wanted(es, categories);
}

proof fn lemma_count_equals_wanted(es: Seq<ClassifiedEntry>, categories: Seq<Seq<char>>)
    ensures
        count_over(es, categories, category_order(es, categories)) == wanted_count(es, categories),
    decreases es.len(),
{
    if es.len() > 0 {
        let p = es.drop_last();
        let e = es.last();
        lemma_count_equals_wanted(p, categories);
        lemma_order_facts(p, categories);
        let op = category_order(p, categories);
        if is_wanted(e, categories) {
            let c = category_of(e);
            assert forall|x: Seq<char>| #[trigger] entries_in(es, categories, x).len() == entries_in(
                p,
                categories,
                x,
            ).len() + if x == c {
                1nat
            } else {
                0nat
            } by {}
            if op.contains(c) {
                lemma_count_over_shift(es, p, categories, op, c);
                lemma_occurrences(op, c);
            } else {
                let o = op.push(c);
                assert(o.drop_last() =~= op);
                lemma_count_over_shift(es, p, categories, op, c);
                lemma_occurrences(op, c);
                assert(entries_in(p, categories, c).len() == 0);
            }
        } else {
            assert forall|x: Seq<char>| #[trigger] entries_in(es, categories, x).len() == entries_in(
                p,
                categories,
                x,
            ).len() by {}
            lemma_count_over_same(es, p, categories, op);
        }
    }
}


/// An entry is wanted exactly when it has a category and that category is
/// equal to one of the listed categories, wherever it stands in the list.
pub proof fn lemma_wanted_is_membership(e: ClassifiedEntry, categories: Seq<Seq<char>>)
    ensures
        is_wanted(e, categories) <==> (e.category is Some && exists|i: int|
            0 <= i < categories.len() && categories[i] == e.category->Some_0@),
{
    if e.category is Some && exists|i: int|
        0 <= i < categories.len() && categories[i] == e.category->Some_0@ {
        let i = choose|i: int| 0 <= i < categories.len() && categories[i] == e.category->Some_0@;
        assert(categories.contains(e.category->Some_0@));
    }
}

proof fn lemma_entries_in_has(es: Seq<ClassifiedEntry>, categories: Seq<Seq<char>>, k: int)
    requires
        0 <= k < es.len(),
        is_wanted(es[k], categories),
    ensures
        entries_in(es, categories, category_of(es[k])).contains((es[k].name@, es[k].url@)),
    decreases es.len(),
{
    let c = category_of(es[k]);
    let p = es.drop_last();
    if k == es.len() - 1 {
        let r = entries_in(es, categories, c);
        assert(r[r.len() - 1] == (es[k].name@, es[k].url@));
    } else {
        assert(p[k] == es[k]);
        lemma_entries_in_has(p, categories, k);
        let rp = entries_in(p, categories, c);
        let i = choose|i: int| 0 <= i < rp.len() && rp[i] == (es[k].name@, es[k].url@);
        assert(entries_in(es, categories, c)[i] == rp[i]);
    }
}

proof fn lemma_entries_in_from(es: Seq<ClassifiedEntry>, categories: Seq<Seq<char>>, c: Seq<char>, m: int)
    requires
        0 <= m < entries_in(es, categories, c).len(),
    ensures
        exists|k: int|
            0 <= k < es.len() && #[trigger] es[k].category == Some(
                es[k].category->Some_0,
            ) && es[k].category->Some_0@ == c && categories.contains(c)
                && entries_in(es, categories, c)[m] == (es[k].name@, es[k].url@),
    decreases es.len(),
{
    let p = es.drop_last();
    let rp = entries_in(p, categories, c);
    if m < rp.len() {
        lemma_entries_in_from(p, categories, c, m);
        let k = choose|k: int|
            0 <= k < p.len() && #[trigger] p[k].category == Some(p[k].category->Some_0)
                && p[k].category->Some_0@ == c && categories.contains(c) && rp[m] == (
                p[k].name@,
                p[k].url@,
            );
        assert(es[k] == p[k]);
    } else {
        let k = es.len() - 1;
        assert(es[k] == es.last());
    }
}

proof fn lemma_listed_come_from_entries(es: Seq<ClassifiedEntry>, categories: Seq<Seq<char>>)
    ensures
        forall|j: int, pair: EntryView|
            0 <= j < grouped(es, categories).len() && #[trigger] grouped(es, categories)[j].1.contains(
                pair,
            ) ==> exists|k: int|
                #![trigger es[k]]
                0 <= k < es.len() && es[k].category is Some && es[k].category->Some_0@ == grouped(
                    es,
                    categories,
                )[j].0 && pair == (es[k].name@, es[k].url@),
{
    let g = grouped(es, categories);
    let o = category_order(es, categories);
    assert forall|j: int, pair: EntryView|
        0 <= j < g.len() && #[trigger] g[j].1.contains(pair) implies exists|k: int|
            #![trigger es[k]]
            0 <= k < es.len() && es[k].category is Some && es[k].category->Some_0@ == g[j].0 && pair
                == (es[k].name@, es[k].url@) by {
        assert(g[j].1 == entries_in(es, categories, o[j]));
        let m = choose|m: int| 0 <= m < g[j].1.len() && g[j].1[m] == pair;
        lemma_entries_in_from(es, categories, o[j], m);
        let k = choose|k: int|
            0 <= k < es.len() && #[trigger] es[k].category == Some(es[k].category->Some_0)
                && es[k].category->Some_0@ == o[j] && categories.contains(o[j])
                && entries_in(es, categories, o[j])[m] == (es[k].name@, es[k].url@);
        assert(es[k].category is Some);
    }
}

/// Every entry whose category equals one of the listed categories is listed
/// in the section headed by that category; every section's heading is one
/// of the listed categories; and everything a section lists comes from an
/// entry of exactly that category.
pub proof fn lemma_sections_follow_categories(es: Seq<ClassifiedEntry>, categories: Seq<Seq<char>>)
    ensures
        forall|k: int|
            0 <= k < es.len() && (#[trigger] es[k]).category is Some && categories.contains(
                es[k].category->Some_0@,
            ) ==> exists|j: int|
                0 <= j < grouped(es, categories).len() && grouped(es, categories)[j].0
                    == es[k].category->Some_0@ && grouped(es, categories)[j].1.contains(
                    (es[k].name@, es[k].url@),
                ),
        forall|j: int|
            0 <= j < grouped(es, categories).len() ==> categories.contains(
                #[trigger] grouped(es, categories)[j].0,
            ),
        forall|j: int, pair: EntryView|
            0 <= j < grouped(es, categories).len() && #[trigger] grouped(es, categories)[j].1.contains(
                pair,
            ) ==> exists|k: int|
                #![trigger es[k]]
                0 <= k < es.len() && es[k].category is Some && es[k].category->Some_0@ == grouped(
                    es,
                    categories,
                )[j].0 && pair == (es[k].name@, es[k].url@),
{
    let g = grouped(es, categories);
    let o = category_order(es, categories);
    lemma_sections_are_distinct_and_wanted(es, categories);
    lemma_listed_come_from_entries(es, categories);
    assert forall|k: int|
        0 <= k < es.len() && (#[trigger] es[k]).category is Some && categories.contains(
            es[k].category->Some_0@,
        ) implies exists|j: int|
        0 <= j < g.len() && g[j].0 == es[k].category->Some_0@ && g[j].1.contains(
            (es[k].name@, es[k].url@),
        ) by {
        assert(is_wanted(es[k], categories));
        lemma_entries_in_has(es, categories, k);
        let j = choose|j: int| 0 <= j < g.len() && g[j].0 == category_of(es[k]);
        assert(g[j].1 == entries_in(es, categories, o[j]));
    }
}


/// The entry made for each row keeps that row's own name, address and
/// category.
pub proof fn lemma_classified_keeps_rows(rows: Seq<CsvRepository>)
    ensures
        forall|i: int|
            #![trigger classified_rows(rows)[i]]
            0 <= i < rows.len() ==> {
                let e = classified_rows(rows)[i];
                &&& e.name == rows[i].name
                &&& e.url == rows[i].repo_url
                &&& e.category == rows[i].category
            },
{
}

/// In the README written from classified rows, every row whose category is
/// one of the listed categories is listed, by its name and address, under
/// the heading of its own category; every heading is one of the listed
/// categories; and every listed line comes from a row of exactly that
/// heading's category.
pub proof fn lemma_readme_rows_under_own_category(rows: Seq<CsvRepository>, categories: Seq<Seq<char>>)
    ensures
        forall|k: int|
            0 <= k < rows.len() && (#[trigger] rows[k]).category is Some && categories.contains(
                rows[k].category->Some_0@,
            ) ==> exists|j: int|
                0 <= j < grouped(classified_rows(rows), categories).len()
                    && grouped(classified_rows(rows), categories)[j].0
                    == rows[k].category->Some_0@ && grouped(
                    classified_rows(rows),
                    categories,
                )[j].1.contains((rows[k].name@, rows[k].repo_url@)),
        forall|j: int, pair: EntryView|
            0 <= j < grouped(classified_rows(rows), categories).len()
                && #[trigger] grouped(
                classified_rows(rows),
                categories,
            )[j].1.contains(pair) ==> exists|k: int|
                #![trigger rows[k]]
                0 <= k < rows.len() && rows[k].category is Some && rows[k].category->Some_0@
                    == grouped(classified_rows(rows), categories)[j].0
                    && pair == (rows[k].name@, rows[k].repo_url@),
{
    let es = classified_rows(rows);
    let g = grouped(es, categories);
    lemma_sections_follow_categories(es, categories);
    assert forall|k: int|
        0 <= k < rows.len() && (#[trigger] rows[k]).category is Some && categories.contains(
            rows[k].category->Some_0@,
        ) implies exists|j: int|
        0 <= j < g.len() && g[j].0 == rows[k].category->Some_0@ && g[j].1.contains(
            (rows[k].name@, rows[k].repo_url@),
        ) by {
        assert(es[k] == classified(rows[k]));
    }
    assert forall|j: int, pair: EntryView|
        0 <= j < g.len() && #[trigger] g[j].1.contains(pair) implies exists|k: int|
            #![trigger rows[k]]
            0 <= k < rows.len() && rows[k].category is Some && rows[k].category->Some_0@ == g[j].0
                && pair == (rows[k].name@, rows[k].repo_url@) by {
        let k = choose|k: int|
            #![trigger es[k]]
            0 <= k < es.len() && es[k].category is Some && es[k].category->Some_0@ == g[j].0
                && pair == (es[k].name@, es[k].url@);
        assert(es[k] == classified(rows[k]));
    }
}


/// How many lines the sections take: a heading line per section and a line
/// per repository.
pub open spec fn line_count(ss: Seq<SectionView>) -> nat
    decreases ss.len(),
{
    if ss.len() == 0 {
        0
    } else {
        line_count(ss.drop_last()) + 1 + ss.last().1.len()
    }
}

proof fn lemma_line_count_step(ss: Seq<SectionView>, i: int)
    requires
        0 <= i < ss.len(),
    ensures
        line_count(ss.take(i + 1)) == line_count(ss.take(i)) + 1 + ss[i].1.len(),
{
    assert(ss.take(i + 1).drop_last() =~= ss.take(i));
}

proof fn lemma_line_count_grows(ss: Seq<SectionView>, a: int, b: int)
    requires
        0 <= a <= b <= ss.len(),
    ensures
        line_count(ss.take(a)) <= line_count(ss.take(b)),
    decreases b - a,
{
    if a < b {
        lemma_line_count_grows(ss, a, b - 1);
        lemma_line_count_step(ss, b - 1);
    }
}

proof fn lemma_document_len(ss: Seq<SectionView>)
    ensures
        document_lines(ss).len() == 1 + line_count(ss),
        document_lines(ss)[0] == README_TITLE@,
    decreases ss.len(),
{
    if ss.len() > 0 {
        lemma_document_len(ss.drop_last());
    }
}

proof fn lemma_document_line(ss: Seq<SectionView>, i: int, k: int)
    requires
        0 <= i < ss.len(),
        -1 <= k < ss[i].1.len(),
    ensures
        document_lines(ss)[1 + line_count(ss.take(i)) + 1 + k] == if k == -1 {
            "### "@ + ss[i].0
        } else {
            "- ["@ + ss[i].1[k].0 + "]("@ + ss[i].1[k].1 + ")"@
        },
    decreases ss.len(),
{
    let n = ss.len() as int;
    let p = ss.drop_last();
    lemma_document_len(p);
    let dp = document_lines(p);
    assert(document_lines(ss) == dp + section_lines(ss.last()));
    if i < n - 1 {
        lemma_document_line(p, i, k);
        assert(p.take(i) =~= ss.take(i));
        assert(p[i] == ss[i]);
        lemma_line_count_step(p, i);
        lemma_line_count_grows(p, i + 1, n - 1);
        assert(p.take(n - 1) =~= p);
    } else {
        assert(ss.take(i) =~= p);
    }
}

/// The README document's lines: the title first, then for each section its
/// `### category` heading followed by exactly one `- [name](url)` line per
/// repository of the section, in order; section `i` starts right after the
/// lines of the sections before it, and there are no other lines.
pub proof fn lemma_document_layout(ss: Seq<SectionView>)
    ensures
        document_lines(ss).len() == 1 + line_count(ss),
        document_lines(ss)[0] == README_TITLE@,
        forall|i: int|
            0 <= i < ss.len() ==> document_lines(ss)[1int + #[trigger] line_count(ss.take(i))]
                == "### "@ + ss[i].0,
        forall|i: int, k: int|
            0 <= i < ss.len() && 0 <= k < ss[i].1.len() ==> document_lines(ss)[1 + #[trigger] line_count(
                ss.take(i),
            ) + 1 + k] == "- ["@ + #[trigger] ss[i].1[k].0 + "]("@ + ss[i].1[k].1 + ")"@,
{
    lemma_document_len(ss);
    assert forall|i: int| 0 <= i < ss.len() implies document_lines(ss)[1int + #[trigger] line_count(
        ss.take(i),
    )] == "### "@ + ss[i].0 by {
        lemma_document_line(ss, i, -1);
    }
    assert forall|i: int, k: int|
        0 <= i < ss.len() && 0 <= k < ss[i].1.len() implies document_lines(ss)[1 + #[trigger] line_count(
            ss.take(i),
        ) + 1 + k] == "- ["@ + #[trigger] ss[i].1[k].0 + "]("@ + ss[i].1[k].1 + ")"@ by {
        lemma_document_line(ss, i, k);
    }
}


proof fn lemma_links_are_ended_lines(es: Seq<EntryView>)
    ensures
        links_text(es) == ended_lines(es.map_values(|e: EntryView| entry_link(e))),
    decreases es.len(),
{
    if es.len() > 0 {
        lemma_links_are_ended_lines(es.drop_last());
        assert(es.map_values(|e: EntryView| entry_link(e)).drop_last() =~= es.drop_last().map_values(
            |e: EntryView| entry_link(e),
        ));
    }
}

/// The README that the step-by-step program writes is the all-in-one
/// document without its title line, every line ended by a newline: both
/// layouts list the same headings and links in the same order.
pub proof fn lemma_sections_text_is_document_body(ss: Seq<SectionView>)
    ensures
        sections_text(ss) == ended_lines(document_lines(ss).drop_first()),
    decreases ss.len(),
{
    if ss.len() == 0 {
        assert(document_lines(ss).drop_first() =~= Seq::<Seq<char>>::empty());
    } else {
        let p = ss.drop_last();
        let last = ss.last();
        lemma_sections_text_is_document_body(p);
        lemma_document_len(p);
        let lines = section_lines(last);
        let links = last.1.map_values(|e: EntryView| entry_link(e));
        assert(document_lines(ss).drop_first() =~= document_lines(p).drop_first() + lines);
        lemma_ended_lines_concat(document_lines(p).drop_first(), lines);
        lemma_ended_lines_concat(seq![heading(last.0)], links);
        assert(ended_lines(seq![heading(last.0)]) =~= heading(last.0) + "\n"@) by {
            let one = seq![heading(last.0)];
            assert(one.drop_last() =~= Seq::<Seq<char>>::empty());
            assert(ended_lines(one.drop_last()) =~= Seq::<char>::empty());
            assert(one.last() == heading(last.0));
            assert(ended_lines(one) == ended_lines(one.drop_last()) + one.last() + "\n"@);
        }
        lemma_links_are_ended_lines(last.1);
        assert(sections_text(ss) =~= ended_lines(document_lines(ss).drop_first()));
    }
}


/// The repositories listed for category `c` are exactly the entries of
/// category `c` (whose category is one of the listed ones), in input order:
/// the returned positions pick them out of `es`, strictly increasing, one
/// per listed repository, and every such entry is picked.
pub proof fn lemma_section_keeps_input_order(
    es: Seq<ClassifiedEntry>,
    categories: Seq<Seq<char>>,
    c: Seq<char>,
) -> (positions: Seq<int>)
    ensures
        positions.len() == entries_in(es, categories, c).len(),
        forall|m: int|
            0 <= m < positions.len() ==> {
                let k = #[trigger] positions[m];
                &&& 0 <= k < es.len()
                &&& es[k].category is Some
                &&& es[k].category->Some_0@ == c
                &&& categories.contains(c)
                &&& entries_in(es, categories, c)[m] == (es[k].name@, es[k].url@)
            },
        forall|m1: int, m2: int|
            0 <= m1 < m2 < positions.len() ==> #[trigger] positions[m1] < #[trigger] positions[m2],
        forall|k: int|
            0 <= k < es.len() && (#[trigger] es[k]).category is Some && es[k].category->Some_0@ == c
                && categories.contains(c) ==> positions.contains(k),
    decreases es.len(),
{
    if es.len() == 0 {
        Seq::empty()
    } else {
        let p = es.drop_last();
        let n = es.len() - 1;
        let e = es.last();
        let q = lemma_section_keeps_input_order(p, categories, c);
        assert forall|k: int| 0 <= k < n implies #[trigger] es[k] == p[k] by {}
        if is_wanted(e, categories) && category_of(e) == c {
            let r = q.push(n);
            assert forall|m: int| 0 <= m < r.len() implies {
                let k = #[trigger] r[m];
                &&& 0 <= k < es.len()
                &&& es[k].category is Some
                &&& es[k].category->Some_0@ == c
                &&& categories.contains(c)
                &&& entries_in(es, categories, c)[m] == (es[k].name@, es[k].url@)
            } by {
                if m < q.len() {
                    assert(r[m] == q[m]);
                    assert(es[q[m]] == p[q[m]]);
                }
            }
            assert forall|k: int|
                0 <= k < es.len() && (#[trigger] es[k]).category is Some && es[k].category->Some_0@
                    == c && categories.contains(c) implies r.contains(k) by {
                if k < n {
                    assert(p[k] == es[k]);
                    let m = choose|m: int| 0 <= m < q.len() && q[m] == k;
                    assert(r[m] == k);
                } else {
                    assert(r[r.len() - 1] == k);
                }
            }
            r
        } else {
            assert forall|m: int| 0 <= m < q.len() implies {
                let k = #[trigger] q[m];
                &&& 0 <= k < es.len()
                &&& es[k].category is Some
                &&& es[k].category->Some_0@ == c
                &&& categories.contains(c)
                &&& entries_in(es, categories, c)[m] == (es[k].name@, es[k].url@)
            } by {
                assert(es[q[m]] == p[q[m]]);
            }
            assert forall|k: int|
                0 <= k < es.len() && (#[trigger] es[k]).category is Some && es[k].category->Some_0@
                    == c && categories.contains(c) implies q.contains(k) by {
                if k < n {
                    assert(p[k] == es[k]);
                } else {
                    assert(es[k] == e);
                }
            }
            q
        }
    }
}


proof fn lemma_order_category_occurs(es: Seq<ClassifiedEntry>, categories: Seq<Seq<char>>, j: int)
    requires
        0 <= j < category_order(es, categories).len(),
    ensures
        exists|k: int|
            #![trigger es[k]]
            0 <= k < es.len() && es[k].category is Some && es[k].category->Some_0@
                == category_order(es, categories)[j],
{
    lemma_order_facts(es, categories);
    let c = category_order(es, categories)[j];
    lemma_entries_in_from(es, categories, c, 0);
    let k = choose|k: int|
        0 <= k < es.len() && #[trigger] es[k].category == Some(es[k].category->Some_0)
            && es[k].category->Some_0@ == c && categories.contains(c)
            && entries_in(es, categories, c)[0] == (es[k].name@, es[k].url@);
    assert(es[k].category is Some);
}

proof fn lemma_order_first_occurrence(es: Seq<ClassifiedEntry>, categories: Seq<Seq<char>>)
    ensures
        forall|j1: int, j2: int, k2: int|
            #![trigger category_order(es, categories)[j1], category_order(es, categories)[j2], es[k2]]
            0 <= j1 < j2 < category_order(es, categories).len() && 0 <= k2 < es.len()
                && es[k2].category is Some && es[k2].category->Some_0@ == category_order(
                es,
                categories,
            )[j2] ==> occurs_before(es, category_order(es, categories)[j1], k2),
    decreases es.len(),
{
    if es.len() > 0 {
        let p = es.drop_last();
        let n = es.len() - 1;
        let e = es.last();
        lemma_order_first_occurrence(p, categories);
        lemma_order_facts(p, categories);
        lemma_order_facts(es, categories);
        assert forall|j1: int, j2: int, k2: int|
            #![trigger category_order(es, categories)[j1], category_order(es, categories)[j2], es[k2]]
            0 <= j1 < j2 < category_order(es, categories).len() && 0 <= k2 < es.len()
                && es[k2].category is Some && es[k2].category->Some_0@ == category_order(
                es,
                categories,
            )[j2] implies occurs_before(es, category_order(es, categories)[j1], k2) by {
            let o = category_order(es, categories);
            let op = category_order(p, categories);
            assert(categories.contains(o[j2]));
            assert(o[j1] == op[j1]) by {
                if o != op {
                    assert(o == op.push(category_of(e)));
                }
            }
            if k2 < n {
                assert(es[k2] == p[k2]);
                if j2 < op.len() {
                    assert(o[j2] == op[j2]) by {
                        if o != op {
                            assert(o == op.push(category_of(e)));
                        }
                    }
                    assert(occurs_before(p, op[j1], k2));
                    let k1 = choose|k1: int|
                        #![trigger p[k1]]
                        0 <= k1 < k2 && p[k1].category is Some && p[k1].category->Some_0@ == op[j1];
                    assert(es[k1] == p[k1]);
                } else {
                    assert(o == op.push(category_of(e)));
                    assert(o[j2] == category_of(e));
                    assert(!op.contains(category_of(e)));
                    assert(is_wanted(p[k2], categories));
                    lemma_entries_in_has(p, categories, k2);
                    assert(entries_in(p, categories, category_of(e)).len() == 0);
                    assert(false);
                }
            } else {
                lemma_order_category_occurs(p, categories, j1);
                let k1 = choose|k1: int|
                    #![trigger p[k1]]
                    0 <= k1 < p.len() && p[k1].category is Some && p[k1].category->Some_0@ == op[j1];
                assert(es[k1] == p[k1]);
            }
        }
    }
}

/// Some entry before position `k` has category `c`.
pub open spec fn occurs_before(es: Seq<ClassifiedEntry>, c: Seq<char>, k: int) -> bool {
    exists|k1: int|
        #![trigger es[k1]]
        0 <= k1 < k && es[k1].category is Some && es[k1].category->Some_0@ == c
}

/// Sections come in the order in which their categories first occur among
/// the entries: wherever an entry has the category of a later section, an
/// entry with the category of each earlier section stands before it.
pub proof fn lemma_sections_in_first_occurrence_order(
    es: Seq<ClassifiedEntry>,
    categories: Seq<Seq<char>>,
)
    ensures
        forall|j1: int, j2: int, k2: int|
            #![trigger grouped(es, categories)[j1], grouped(es, categories)[j2], es[k2]]
            0 <= j1 < j2 < grouped(es, categories).len() && 0 <= k2 < es.len()
                && es[k2].category is Some && es[k2].category->Some_0@ == grouped(
                es,
                categories,
            )[j2].0 ==> occurs_before(es, grouped(es, categories)[j1].0, k2),
{
    lemma_order_first_occurrence(es, categories);
    assert forall|j1: int, j2: int, k2: int|
        #![trigger grouped(es, categories)[j1], grouped(es, categories)[j2], es[k2]]
        0 <= j1 < j2 < grouped(es, categories).len() && 0 <= k2 < es.len()
            && es[k2].category is Some && es[k2].category->Some_0@ == grouped(
            es,
            categories,
        )[j2].0 implies occurs_before(es, grouped(es, categories)[j1].0, k2) by {
        assert(grouped(es, categories)[j1].0 == category_order(es, categories)[j1]);
        assert(grouped(es, categories)[j2].0 == category_order(es, categories)[j2]);
    }
}

} // verus!
