# llm-cleanup

Strip AI-generated fingerprints (invisible characters, smuggled Unicode tags and variation
selectors, Trojan-Source bidi overrides, exotic spaces, curly quotes, ellipses, em dashes)
from Markdown, plain text and DOCX documents without breaking their formatting, and convert
the cleaned result to another format.

The library is written in Verus: its functions carry `requires`/`ensures` contracts that the
verifier proves.

## Layout

- `src/engine/` — the format-agnostic core: prose spans overlaid on the original bytes
  (`ir`), rules and format adapters (`traits`), levels, the byte splice and its resolution of
  span-relative edits (`splice`), and the cleaning pipeline (`pipeline`), which detects,
  resolves overlaps, renders and self-checks the document's structural fingerprint.
- `src/rules/` — the built-in detection rules (typographic and hidden-Unicode hygiene), the
  term-list rules of template packs, the pack model and the rule registry.
- `src/formats/` — the Markdown, plain-text and DOCX adapters, and the choice of adapter by
  file name. `pulldown-cmark`, `quick-xml` and `zip` are reached through small wrappers whose
  contracts name what those crates return.
- `src/convert/` — the lossy conversions to text, Markdown and DOCX (`docx-rs`).
- `src/cli.rs` — the decisions of the command line: output target, names of written files, pickers.
- `src/testkit.rs` — whole-pipeline helpers over in-memory text.
- `app/` — the `aiclean` command line: argument parsing, file I/O and printing.
- `tests/` — executable tests of the library.

## What is proved

Among others: splicing no edits gives the source back byte for byte; resolved edits never
overlap and never introduce a line break; a successful clean that applied edits renders a
document whose structural fingerprint equals the input's; an unedited Markdown or text
document renders back to its bytes, and an unedited DOCX renders back to the `.docx` it
was parsed from (so the report says nothing changed); an edited DOCX package is the one
the `zip` writer makes by copying every entry of the original as stored, except `word/document.xml`, which
is written anew (or the first zip error met while doing so); the DOCX structural
fingerprint ignores the text inside `<w:t>` runs; sentence ranges partition a span's text;
decoding XML entities undoes escaping; a target's canonical extension names that target
again.

## The built-in template pack

The command line reads the built-in pack from `templates/core.yaml` beside the crate, parses
it with `serde_norway`, and hands it to `rules::registry::load_builtin_pack`, which validates
it; `builtin_rules_with` then adds one flag-only lexical rule per flag rule with terms. When
the pack does not load, the code rules run alone.
