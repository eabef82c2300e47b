# fathers

the rules behind two Codex plugins, the-gitfather and the-graphfather, as a
verified library: a per-conversation project ledger (blueprint, cursor, layer
marks, repair issues, check receipts and guarded plan revisions), the hook
rules that keep an agent inside it, and the texts the hooks and the plan page
show.

```text
blueprint -> build -> proof -> repair -> complete
```

## layout

- `src/ledger/` — the ledger: the data and its view (`model`), blueprint
  validation with dependency-cycle detection (`blueprint`), every transition
  as a spec function (`steps`) and as verified code (`session`), the laws that
  hold across transitions (`laws`), what a plan amendment keeps and clears
  (`amendments`), dependents and per-component input epochs (`scope`), check
  arguments (`checks`) and refusal messages (`errors`).
- `src/gitfather.rs` — the GitFather's test recognition, check parsing and
  hook answers.
- `src/graphfather/` — the GraphFather's shell-token test recognition and hook
  answers (`hooks`), check parsing (`checks`), handoff notes (`handoff`), the
  Markdown plan page (`markdown`) and hook trust edits (`trust`).
- `src/text.rs`, `src/table.rs`, `src/digest.rs`, `src/hook.rs` — text
  helpers, a keyed table, SHA-256 and JSON text, and the hook answer type.
- `app/` — the command-line tool: SQLite storage, JSON documents, stdin and
  stdout of the hooks, the host's app server, running checked commands.

verify with Verus; `tests/` runs the library on concrete cases.
