# bvdocs

The BetterVoxel scripting-documentation tool: it checks the hand-authored
content (`content/`) against the engine's API dump (`model/api-dump.json`)
and builds the mdBook source tree and the luau-lsp documentation database
from the two.

## Layout

- `src/` — the library, verified with Verus.
  - `text.rs` — character-level string operations (trimming by Unicode
    whitespace, line splitting, decimals, joining), each stated over the
    characters of its strings.
  - `keyed.rs` — maps held as `(key, value)` sequences: lookups, and
    insertion that keeps keys in the order a `BTreeMap<String, _>` walks.
  - `dump.rs` — the API dump: format check, class ancestry, page sections.
  - `content.rs` — the content layer: validation of every owner file and
    guide against the dump (all problems collected), lookups, coverage.
  - `generate.rs` — the book pages: summary, index, class, datatype and
    service pages, enums, globals, and the list of every page.
  - `docs.rs` — the documentation database; every entry that lists
    returns also lists params, and every symbol an entry refers to has an
    entry.
  - `snippets.rs` — the labelled example snippets and the runnable ones,
    and the Luau fences of guides.
- `app/` — the command-line program: reading the dump and the content
  tree, parsing JSON and YAML, writing the book, serialising the database
  and the runnable-examples manifest, and running `luau-lsp`.
- `tests/` — tests of the library on concrete values.
