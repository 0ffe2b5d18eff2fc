# btt — branch tree testing

A `.tree` file says what a test file is to hold, as a branching given/when/it
tree. `btt` scaffolds the tests of a tree, checks that a test file still has the
tests of its tree, and compares the trees of two revisions.

```text
HashMap
├── when the key is present
│   └── it returns the value
└── when the key is absent
    └── it returns none
```

## Layout

- `src/` is the library. Everything it computes is proved with
  [Verus](https://github.com/verus-lang/verus) against the contract that stands
  above it.
- `app/` is the `btt` program: arguments, files, git and serialization.
- `tests/` runs the library on concrete inputs.

| Modules | What they hold |
| --- | --- |
| `tree`, `mapping`, `check`, `diff` | Specs, what they ask of a test file, and what differs |
| `pack`, `extract`, `aliases`, `treesitter`, `lexical`, `patterns`, `literal`, `versions` | Language packs, and how they find the tests of a source |
| `scaffold`, `merging`, `todo` | Skeletons, and putting missing tests into a file |
| `config`, `runner`, `checking`, `commands` | Severities, routing, the scan for uncovered files, the commands |
| `report`, `machine`, `revisions` | What a run says, for people and for machines |
| `install`, `index`, `pack_add`, `dates` | Installing packs and their provenance |
| `error`, `paths`, `bytes`, `text` | Errors, and paths, offsets and text |

## Aliases

A pack may list functions that sources bind to other names, such as
`const d = describe;`. It says in `extract.aliases` which, finds the bindings with
`extract.alias_query` (or the pattern of `[lexical.alias]`), and writes
`{describe}` in its query or patterns where a call under any of these names
counts. A chain of more than 32 names is not followed.

## What is proved, and what is believed

The functions of `src/` have contracts over models: sequences of characters,
trees and findings. Functions whose names start with `law_` state what holds
between several of them: that a check without findings means agreement, that a
scaffold satisfies the tree it was made from, that merging only inserts, that
only a clean run exits 0.

Calls into `tree-sitter`, `regex`, `minijinja`, `semver` and `sha2`, and into the
Unicode tables of the standard library, are believed: each stands in a function
marked `external_body` whose comment says what it claims. Where a result cannot
be written down in a few lines it has a name, and the contracts speak of that
name.
