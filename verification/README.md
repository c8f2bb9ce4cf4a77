# nocompile

Assert that code does **not** compile: a compile-fail test harness whose decisions are
verified with Verus.

A compile-fail test asserts that a program does not build, and that it fails for the
intended reason. Every fixture becomes a bin target of one generated cargo project, one
`cargo build` compiles them all, and each fixture's diagnostics are made reproducible and
compared with the `.stderr` golden beside it.

## Layout

- `src/` is the library. Every decision is here, and each function says in its contract
  exactly what it decides.
  - `cases` registers fixtures and judges each one by the evidence.
  - `run` is a run as a conversation: it says what it wants done, is told how that went,
    and moves on, until it has an outcome.
  - `scratch` is the generated project: its names, its places and its manifest.
  - `compile` sorts what cargo said by the target it was said of; `json` reads it.
  - `normalize`, with `rewrite`, `lists` and `gutter`, makes diagnostics read the same on
    any machine; `compare` says how much of them counts.
  - `elsewhere` proves that where another file puts its code does not show in a golden,
    and says of which diagnostics and which paths.
  - `diff` and `outcome` say what went wrong.
  - `classify` sorts a raw stderr stream into the fixture's diagnostics and cargo's own.
  - `path`, `environment` and `text` are what the rest stands on.
- `tests/` runs the library against a world in memory.
- `app/` does what a run asks for: files, the environment, a lock, and cargo.

## What is proved

Contracts are stated over views: text is a `Seq<char>`, a suite is a `Suite`, what cargo
said is `Evidence`, a run is at a `Point`. Beyond the contracts, each module states its
laws as public proof functions named `law_...`; the doc comment above each says the law in
words. Three functions of `std` are taken at their word, each beside the code that calls
it: `String::push`, `char::from_u32` and `char::is_alphanumeric`.

Paths are Unix paths: `/` separates names.
