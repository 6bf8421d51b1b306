# kimi_agent

The decision-making core of a coding agent, written in Verus: each function
states what it returns in its contract, and Verus proves it.

## Layout

- `src/` — the verified library.
  - `text.rs`, `paths.rs` — characters, UTF-8 lengths, white space, decimal
    digits, splitting, and `/`-separated paths.
  - `json.rs`, `json_text.rs` — a JSON document model with its mathematical
    view, reading JSON and TOML text into it (through serde_json and toml),
    and writing it back as compact JSON text (through serde_json).
  - `jsonschema.rs` — explicit `type` keywords on property schemas, and
    expansion of local `$ref` entries.
  - `config.rs` — the configuration: defaults, reading and checking a
    configuration text, the document it is saved as, and the format a path
    calls for.
  - `agent.rs`, `agents_md.rs`, `template.rs`, `labor_market.rs` — finding
    and merging AGENTS.md files, rendering system prompts, the listing of
    skills, tool exclusion, and the registry of subagents.
  - `session.rs`, `export.rs` — session titles, ordering and files, context
    and JSON-lines records, the lines that keep an interrupted turn, and the
    export command's decisions.
- `tests/` — tests on concrete values.
- `app/` — the file-system and command-line glue around the library.
