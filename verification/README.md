# dupdelta

Duplication detection that only tells you about duplication *you* introduced.

`dupdelta` scans two trees, your branch and its merge-base, and reports only what the
difference between them introduced. Duplication that was already there stays silent, and
there is no baseline file to keep.

```sh
# What would this branch add, compared to main?
dupdelta ci --base main

# Just scan a tree and write a report
dupdelta scan . --out report.json

# Compare two reports you already have
dupdelta diff --head head.json --base base.json
```

It warns and never fails a build.

## What it looks for

- **Function clones.** Identifiers are renamed to one placeholder and literals to type
  tags, so that a renamed copy is still a copy. Similarity is Ratcliff-Obershelp.
- **Module vocabulary.** Files that share their identifiers, ranked first where nothing
  imports one of them.
- **Blocks.** Maximal repeated runs of normalized tokens, wherever they sit.

Every function and block finding carries a content hash of the normalized code, which is
what tells a finding that moved from one that is new. A function pair is new where the
merge-base has no pair of the same two bodies, and a block where the merge-base has no
block of the same fragment, wherever the code stands. A vocabulary pair is known by its
two files, so renaming a file makes its vocabulary pairs look new.

A block is measured against the earliest copy of its fragment. Where three or more copies
overlap only in part, a renamed file can become the earliest, and a shorter or longer
fragment than before is then found.

## Layout

- `src/` is the library, written in Verus: every decision and every computation, with
  its contract and its proof. The laws that hold of the library as a whole are public
  proof functions, most of them at the end of their modules: `delta.rs` says what a
  delta reports and what stays silent, `cli.rs` what two scans agree on, `similarity.rs`
  and `scan.rs` that pruning loses nothing, `run.rs` how a command ends.
- `app/` is the program: the command line, files, `git`, JSON and TOML. The library asks
  it questions one at a time (`src/run.rs`).
- `tests/` runs the library on concrete values.

Scores are exact fractions. They become decimal numbers only where a report is written
or read.

## Configuration

Everything tunable lives in `.dupdelta.toml`, found by walking up from the working
directory:

```toml
excludes = ["/vendor/", "/node_modules/", "/target/"]

[function]
min_similarity = 0.85
min_nodes = 30          # ignore units smaller than this many syntax nodes

[vocab]
min_overlap = 0.30
min_vocabulary = 15
worsened_delta = 0.05   # how much an existing pair must grow to count as worse

[blocks]
min_tokens = 100

[vocab.noise]
python = ["self", "cls", "args", "kwargs"]

[report]
# max_findings = 50     # absent means no cap; 0 means report nothing
```

An unknown key is an error.
