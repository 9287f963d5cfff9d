# mathom

The core of a disk space analyzer, written in Verus and proved against its
contracts: the scan data model, the arena tree that aggregates sizes as
batches stream in, search, statistics and views over the tree, and the
parsers for the NTFS on-disk structures that a raw-volume scan reads.

## Layout

- `src/` — the verified library.
  - `entry`, `interner`, `text`: scan entries with byte-offset names, the
    name interner, and the UTF-8 facts they rest on.
  - `tree`: the arena tree, `TreeBuilder`, subtree removal, and the laws of
    the tree (totals are subtree sums, removal is determined, children are
    exactly the live nodes under a parent).
  - `category`, `search`, `stats`, `rank`, `views`, `export`: what the user
    interface reads from a tree.
  - `ntfs`: boot sector, FILE records, data runs, the record pipeline and
    the assembly of a scan from records; `walker` and `scanner` for the
    directory-walk scan and its progress.
  - `protected`, `session`: deletion safety rules and the scan session's
    state steps.
  - `oracle`, `bend`: deterministic generators and Bend text for A/B
    testing against a second implementation.
- `tests/` — tests of the library, run against the compiled crate.
- `app/` — the command-line program around the library: volume and
  directory I/O, threads, the floating-point treemap layout, and argument
  handling.

Verus checks every function in `src/`; the tests are ordinary Rust tests.
