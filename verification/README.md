# rag_rat_core

A library for the index of a source repository, written in Verus. Every function in `src/` but one
is verified against the contract it carries. The one that is trusted calls SHA-256.

- `source`, `lexer`, `utf8`, `syntax`, `items`, `scripts`, `chunks`, `content`, `search`: reading
  files
- `files`, `schema`, `digest`, `hash`, `ids`, `index`, `soundness`, `scoped`, `lookup`: the file
  table, its digest, the numbers of symbols and chunks, and what a reader sees of base and worktree
- `history`, `fillers`, `coupling`: files that change together
- `memory`, `tree`, `paths`: notes on paths and directories, and the outline that shows them
- `trace`, `dispatch`, `graph`, `imports`, `wiring`: who calls whom, and what type names stand for
- `embedding`: which chunks get an embedding, and when stored policies may be trusted
- `fingerprint`, `candidates`, `frequency`, `groups`, `lcs`, `classes`, `refine`, `clones`,
  `resolution`: functions that are alike
- `order`, `filters`, `text`: sorting, filtering and texts
- `checkouts`, `isolation`, `kinship`, `repositories`: laws that span several of these
- `fixtures`: small checkouts to try the library on

`app/` holds what surrounds the library: checkouts on disk, the database file, floating-point
ratios and JSON. SHA-256 comes from the `sha2` crate, through one trusted function in `hash`.
