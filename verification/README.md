# notectl

Tools for a vault of markdown notes: file listing and reading, recently changed files,
daily notes, outlines and sections, YAML frontmatter tags, and keyword/semantic search over
an on-disk index.

## Layout

- `src/` is the library, written in Verus. Its functions carry `requires`/`ensures`
  contracts that Verus proves, and the laws the library keeps are stated as `law_*` proof
  functions next to the code they are about (for example `law_date_range`,
  `law_iso_text_round_trip`, `law_current_index_is_up_to_date`,
  `law_hierarchy_keeps_document_order`). The exceptions are the calls into outside crates
  (`glob`, `blake3`, `serde_yaml`, `dirs`) and into the parts of std that vstd does not
  specify (the clock, `to_lowercase`): each sits behind a small trusted wrapper whose
  contract is assumed, not proved, and whose doc comment says what it assumes.
- `app/` is ordinary Rust around the library: walking and reading the vault, loading the
  `.notectl.toml` settings and the environment, storing the search index, the HTTP
  embedding client, the floating-point scoring (BM25, cosine similarity, rank fusion), and
  the CLI/HTTP/MCP operation layer (clap, serde, schemars, rmcp).
- `tests/` exercises the library on concrete values.

| Module | What it decides |
|---|---|
| `date_utils` | `YYYY-MM-DD` dates: validation, parsing, next day, inclusive ranges, today |
| `recent_files` | ISO 8601 timestamps and the `updated:` frontmatter field |
| `files` | file trees, reading requests, recent-file selection |
| `daily_notes` | daily-note patterns, date-range searches |
| `outline` | headings, their hierarchy, sections, heading search |
| `tags` | frontmatter tags, counts and tag search |
| `chunker`, `tokenize`, `bm25` | how notes are cut into chunks and terms |
| `storage`, `index`, `search` | index staleness, building steps, search modes and results |
| `config`, `todo_config` | settings and their environment overrides |
