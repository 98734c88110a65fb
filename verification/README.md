# shelltools

Three small command-line tools with their logic verified in Verus:

- `env`, an environment variable manager: lists variables sorted by name
  ignoring case (optionally filtered), loads `.env` files, sets variables for
  the current run, and persists or removes them in the shell's rc file;
- `grep`, a recursive line search with a regular expression, highlighting
  the matches;
- `tr`, a directory tree viewer with sizes, counts, name filters and hiding
  rules.

## Layout

- `src/` is the verified library.
  - `text.rs`: whitespace, trimming, searching, splitting into lines and
    pieces, joining, and the code-point order of strings, each stated over
    `Seq<char>`.
  - `sort.rs`: stable sorting by string keys, with the proof that the stable
    order exists and is unique.
  - `envvars.rs`: `NAME=VALUE` parsing, `.env` lines, rc-file export lines
    (appended on a line of their own) and their removal (the exports of
    exactly that name; the other lines, as `str::lines` reads them, joined
    by newlines), the shell command line, and the variable listing.
  - `search.rs`: file-name filters, the compiled pattern (through the `regex`
    crate) and the pieces of a matching line.
  - `size.rs`: human-readable sizes, computed exactly in integers.
  - `tree.rs`: which entries are shown and read, the order of a listing (by
    the bytes of the file names, which for UTF-8 names is the order of the
    names), sizes and counts, what counts as an
    executable, the tree and the rows it prints (uncolored with `--clean`).
- `app/` holds the programs: argument parsing, the file system, the process
  environment, colors and output. It reads directories as far as the
  library's decisions ask and hands the listings to it.
- `tests/` exercises the library on concrete values.
