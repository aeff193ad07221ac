# spec-diff

A branch-level differ for test outlines. Test files of ten frameworks
(RSpec, Minitest, Rust `#[test]`, pytest, Jest, Go `testing`, ExUnit,
PHPUnit, JUnit, Pest) are parsed with tree-sitter into trees of groups and
specs; the trees of two revisions are diffed (added, removed, renamed,
modified, unchanged, with parameterized case counts); and the diff is shown
as a tree, as compact lines, as JSON, or in a live terminal view.

## Layout

- `src/` — the library, written in Verus and verified:
  - `parse/` — framework descriptions (`registry`, `frameworks`), the
    syntax-tree arena built from tree-sitter (`syntax`), the parsing
    engine (`engine`) and the shared-example / inherited-type registry
    (`shared`);
  - `diff/` — the structural diff with rename detection and its filter;
  - `output/` — tree and compact renderings, and the folding of long
    unchanged runs;
  - `tui` — the lines, layout and key handling of the watch view;
  - `pipeline` and `scanning` — from file contents to file diffs, and
    which files a shared-example registry is built from;
  - `vcs` — the version-control interface and an in-memory stub;
  - `text` — character-level string helpers.
- `app/` — the command-line program: argument parsing, file system and
  version-control access, JSON output and the terminal event loop.
- `tests/` — tests of the library.
