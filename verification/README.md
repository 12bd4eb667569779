# depsy_lsp

Dependency-manifest and lockfile parsing for the Depsy language server,
with its rules proved by Verus.

## Layout

- `src/` — the verified library.
  - `parsers/` — one module per manifest or lockfile format (Cargo, npm,
    Python, Go, Composer, pub, NuGet, RubyGems, Maven, pnpm workspaces), the
    lockfile dependency graph (`lockfile_graph`), the lockfile search
    (`lockfile_search`), and the plain document types the parsers read
    (`json_value`, `json_tree`, `toml_value`, `toml_tree`, `xml_events`),
    each with the trusted call into its outside parser (`serde_json`, `toml`,
    `taplo`, `json-spanned-value`, `quick-xml`).
  - `scan.rs` — the decisions of a scan: which parser reads a file, how
    names compare between manifest and lockfile, resolved versions, direct
    roots, and the direct dependency a transitive package is reported under.
  - `cache/advisory.rs` — the advisory cache's in-memory layer, with time
    passed in explicitly, the layout of its tiers, and the two-tier read as a
    step from the persistent layer's answer.
  - `auth/` — token redaction, HTTPS-only provider registration with
    longest-prefix lookup, `.npmrc` and Cargo credentials files.
  - `config.rs` — settings values, their defaults, and package ignore rules.
  - `text.rs` — byte-level string helpers with their specifications.
- `tests/` — the test suites.
- `app/` — a command-line front end: file access and output.

Each parser takes the text of a file and reads it with its outside parser
behind a trusted item, whose result is named (`json_value_of`,
`toml_value_of`, `taplo_tree_of`, `json_tree_of`, `xml_events_of`,
`xml_markup_events_of`). Its contract states the dependencies it returns as
a function of the text and that named document; a companion function
(`parse_document`, `..._doc`) takes the document itself and has the same
contract over it.
