# ewm_state_machine

A lattice state machine whose logic is proved with Verus. Token collections become
sets of bits on a plane of 32768; states, their differences, programs over them and
the stores that hold them are all built on these sets.

## Modules

| module | holds |
| ------ | ----- |
| `hashing`, `hllset`, `lut`, `tf` | bit addresses of tokens, sets of bits, indexes from bits to tokens, counts |
| `boolring` | sets as vectors over GF(2): reduced bases, residuals, a sliding window |
| `context_tree` | a Merkle tree over keys, with its lattice |
| `morphisms` | ingestion and restoration of lines, grids and tensors of tokens |
| `search` | the walk and the beam that put tokens back in order |
| `git` | content-addressed objects, commits, views, merging, pruning; loose files |
| `machine` | turns of token ids, the cache between turns, recovery, snapshots |
| `ops` | expressions over sets, operator graphs, their dispatcher, boot scripts |
| `scene`, `flux` | series of frames: shares, transitions, ring keys, restoration |
| `cache` | canonical batches as Arrow files, manifests, validation |
| `explore` | pages and summaries of stores and snapshots |
| `digest`, `json`, `text`, `order`, `sorted`, `table`, `random` | foundations |

Contracts speak of mathematical views: a set of bits is a `Set<u32>`, a store a
`Map` from ids to objects, a text a `Seq<char>`. What holds across functions is
stated by public proof functions beside them.

## What is trusted

Calls into `sha1`, `hex`, `serde_json` and `arrow` stand behind small wrappers in
`digest`, `json`, `cache::ipc` and `cache::reading`; `text` wraps three functions of
the standard library. The comment above each says what it claims.

## Outside the library

`app/` is the command line: files, JSON, and what is computed in floating point
(codebooks, thresholds, the synthetic host). `tests/` runs the library against the
real outside crates.
