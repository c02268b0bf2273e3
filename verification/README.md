# experiment_github_star

Tools that list a GitHub user's starred repositories, have a local language
model sort them into categories, and write a README that lists them by
category.

- `src/` is the verified library:
  - `tools::github`: the account handle, the request for a page of starred
    repositories, header-value validity, and the pager that decides which
    page to fetch next (with its law on the pages it asks for);
  - `tools::csv_repository`: the CSV row, the topic field's writer and
    reader, and their round-trip laws;
  - `tools::agent_classifier`: the classifier instructions and the
    per-repository description handed to the model;
  - `usecases::create_readme`: grouping by category and the README layouts,
    with the laws that every wanted repository is listed once under a single
    heading of its category;
  - `record_search`: the field test of the CSV search tool;
  - `text`: joining, splitting and decimal numerals.
- `app/` holds the programs: `load`, `classify`, `readme`, `search <query>`,
  and, with no argument, the all-in-one run that writes `README.md`.
- `tests/` runs the library on concrete values.
