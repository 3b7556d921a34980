# mer3ly_site

The rules behind the Mer3ly public site, written in Verus and proved.

- `src/` is the library. Each public function states in its contract what it
  returns or changes, and the laws that relate several functions stand there
  as public proof functions:
  - `repositories`: the editorial authority (repositories, relations, the
    migration ledger, showcases, the public GitHub metadata cache) and its
    validation;
  - `devices`, `firmware_catalog`: the device catalog and the retained
    firmware package index;
  - `repository_history`: the repository graph, its Git checkpoints and the
    public timeline;
  - `graph_reading`, `arrangement`: graph readings and the arrangements the
    graph page offers;
  - `matrix`: the two-reading matrix: its axis checks, its generation, the
    table of cells with the relations behind each, and the checks on a matrix
    shelfmark;
  - `site`, `page_text`, `public_text`, `public_pages`, `structured_data`,
    `schema`, `artifact`, `discovery`: the shared document shell, text
    helpers, the structured data records, and the checks a built artifact
    must pass before it is published;
  - `text`: string and sequence helpers shared by all of the above.
- `tests/` runs the library on concrete values.
- `app/` is the command-line program around the library: it reads the
  authority files and Git history, walks a built artifact on disk, and prints
  the results as JSON.

The library calls `sha2`, `regex` and `serde_json` through small trusted
wrappers whose contracts say what those crates promise; `app/` uses `serde`,
`serde_json` and `toml` to read and write files.
