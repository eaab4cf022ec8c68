# cvc_core

The core of Cognitive Version Control: it keeps the conversations that led to a
commit beside the Git history, and can publish what a user has chosen to share
under `refs/cvc/main`.

`src/` holds its rules as verified code. A function there takes plain values, the
rows of the database, the entries of a Git tree, the bytes of a file, and says in
its contract what it makes of them. `app/` reads those values, asks for the
decision, and carries it out. Which rows a query selects is said in SQL: the
conditions on the scope of a suppression, on visibility and on what is shared
with a remote stand in `app/store.rs` and are not verified. That a batch is written
whole or not at all rests on the transactions there. Paths are written with slashes;
paths with a drive are not known.

## What stands where

| Concern | Modules of `src/` |
| --- | --- |
| Records and the identifiers derived from them | `models`, `encoding`, `digest` |
| Texts, order, JSON | `text`, `textset`, `lines`, `order`, `bounded`, `json` |
| Scrubbing, ignore rules, consent | `privacy`, `capture`, `consent` |
| The store's decisions | `store`, `ledger` |
| Derivation graphs | `derivation`, `graph` |
| Changesets, rewrites, squashes, links | `changeset`, `rewrite`, `squash`, `linker`, `git` |
| The published tree: layout, checks, import | `tree`, `layout`, `sync`, `import`, `batch` |
| Publishing, pruning, redaction | `projection`, `outbound`, `prune`, `redaction` |
| What a published tree gives back, and what a suppression leaves | `roundtrip`, `suppression` |
| Repository layout and hooks | `repository`, `hooks`, `upgrade` |
| Harness transcripts and settings | `transcript`, `planning`, `ingest`, `rereading`, `links`, `settings` |
| Editor chat sessions | `vscode` |

Laws that span several functions are public proof functions whose names begin
with `law_`; each stands in the module whose functions it is about.

## What is trusted

Calls into other crates are confined to small functions marked
`#[verifier::external_body]`: hashing and hexadecimal (`digest`), JSON (`json`),
identifiers and moments (`models`), regular expressions (`privacy`), object names
(`sync`), and functions of the standard library: two on texts (`text`) and the
quoting of texts and paths (`transcript`, `ingest`). Results that depend
on their arguments alone but cannot be stated in a few lines carry a name.
New identifiers, and so the markers that replace a secret, are random; contracts
speak of every possible outcome, and the functions that take the identifiers as
arguments say what becomes of each.
