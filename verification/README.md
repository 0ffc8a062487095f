# artools

Three command line tools that walk directory trees with several threads:

- `ardisk` adds up disk usage and shows the largest directories,
- `arfind` finds files and directories by name, type, size and depth,
- `argrep` searches text, in files or on standard input.

What the tools decide and compute is a library written in Verus: each function
states what it does, and the statement is proved. What touches the machine
(arguments, files, threads, the terminal) is ordinary Rust around it.

## Layout

- `src/` is the library.
  - `ardisk`, `arfind`, `argrep`: one module for each tool, with its command
    line (`cli`), its walk (`scan`) and what is its own: the rollup of sizes and
    the report; the rows reported for a file, the matcher, the display.
  - `ignore_files`, `globs`: `.gitignore` and `.ignore` files, name patterns.
  - `amounts`, `decimal`, `numbers`: numbers as people write them, with the
    rounding of double-precision arithmetic stated in integers.
  - `paths`, `text`, `paint`: paths as text, characters and lines, colours.
  - `pool`: when a worker runs, waits or stops, and why no task is left undone.
  - `runs`: what the workers do together, from the first task to the last. The
    `whole_run` module of each tool says what comes out the same however many
    workers there are.
- `tests/` runs the library on trees held in memory.
- `app/` is the program: `artools <ardisk|arfind|argrep> [arguments]`, or the
  same program under one of the three names.

## What is taken on trust

A few calls leave the library: compiling and running expressions (`regex`),
name patterns (`glob`), ignore files (`ignore`), escape sequences (`colored`),
and some of the standard library. Each stands in a small function whose comment
says what is claimed of it.
