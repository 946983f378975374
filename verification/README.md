# bush

A `tree` command substitute that respects repository ignore files, written
as a Verus library with a thin program around it.

## Layout

- `src/` — the verified library:
  - `tree.rs`: building the tree from walk entries, pruning empty
    directories, the stable sort, counting, and the `tree`-style text;
  - `format.rs`: the HTML and XML documents and the JSON objects;
  - `format_meta.rs`: sizes (`1.5K`), modification times (UTC calendar
    dates) and permission strings;
  - `color.rs`: ANSI colouring by kind and extension;
  - `config.rs`: defaults, config layers and their precedence, which config
    files to read, and the upward search for a local config file;
  - `cli.rs`: what the command line changes, the render options, and the
    choice of renderer;
  - `filter.rs`: `--include` / `--exclude` globs;
  - `walker.rs`: walk entries and which of them are reported;
  - `tree_equiv.rs`: preparing and rendering are deterministic;
  - `text.rs`, `exit.rs`: text helpers and exit codes.
- `tests/` — tests of the library.
- `app/` — the program: argument parsing, reading config files, the
  directory walk, and writing the output.
