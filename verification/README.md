# byo_suite

The verified core of a set of small systems programs, written in Verus:

- `src/rlox` — a Lox scanner and expression parser;
- `src/resp` — RESP frames: parsing, encoding, and the GET/SET/DEL command
  layer over an in-memory store;
- `src/btree` — a copy-on-write B+tree over fixed-size pages, and
  `src/storage` — the pager's cache of pages;
- `src/shell` — a shell's parser, word expansion, builtins and pipeline
  wiring;
- `src/tools` — the logic of `wc`, `uniq`, `cat`, `echo`, `head`, `tail`,
  `comm`, `cal` and `fortune` look-alikes;
- `src/editor.rs` — the screen and key handling of a terminal editor;
- `src/laws.rs` — properties that span several functions.

`app/` holds the programs themselves (argument parsing, files, sockets,
processes, the terminal), built on the library and chosen by their first
argument: `byo_suite wcr -l file.txt`, `byo_suite redis`, and so on.
`tests/` runs the library on concrete inputs.

Known limits:

- The Lox scanner adds no end-of-file token, and the parser needs one, so
  `byo_suite rlox FILE` panics on every file, as the original does; the tests
  add the token themselves before parsing.
- The shell's line reader is not part of this crate, so `app/` has no
  shell entry point; `app/shell.rs` holds the process side of running a
  pipeline.
