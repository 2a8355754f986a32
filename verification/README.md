# psyrag

A temporal property graph with provenance, a journal that is the database, and
a learned salience over its edges. The library in `src/` is verified with Verus;
`app/` is the program around it.

## What the library is

| Part | Modules |
| --- | --- |
| The graph, its history and its queries | `model`, `graph`, `interner`, `names`, `query`, `reach` |
| Getting facts in | `records`, `entity`, `gcp`, `snapshot`, `touch` |
| The journal | `codec`, `crc`, `wal`, `persist`, `compact`, `fnv`, `standby` |
| Salience: what is visited, masked, credited and superseded | `salience`, `credit`, `backend` |
| Recall for an assistant | `recall`, `rpc`, `paths` |
| The server | `access`, `api`, `gate`, `registry`, `store`, `pages`, `prom`, `http`, `log` |
| The command line and exports | `args`, `cli`, `export` |
| Text, bytes, documents, sorting | `text`, `bytes`, `json`, `sort` |

What holds of the library as a whole stands in public proof functions:
`history` (the past is never rewritten), `evidence` (reconciliation),
`impact` (traversals), `lookup` (search), `distill` (rewriting a log, reading
out a neighbourhood),
`durability` (damaged logs), `supersede` (contradictions), and beside the
functions that they are about.

Each type has a mathematical form (`GraphV`, `OpV`, `JsonV`, ...), which is its
view, and contracts are stated over those forms.

## What is trusted

`text` and `bytes` state what some functions of the standard library return, `json` what
`serde_json` reads and writes, and `http` how a text is quoted. Nothing else is
taken without proof.

## What is left to `app/`

Files, sockets and clocks, the `serde` and `tiny_http` crates' traits, and
arithmetic on floating-point numbers: how much a weight decays or grows. Which
edges it concerns is decided by the library.
