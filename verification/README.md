# internal_checks

Checks and fixes the layout conventions of Rust source files, as the `cargo
internal-checks` command:

- `use` and `mod` runs follow the class order `use`, `pub(crate) use`, `pub use`,
  `mod`, `pub(crate) mod`, `pub mod`, then the private `#[cfg(test)] mod tests`;
  imports of one class are grouped by origin (standard library, external, local) with
  a blank line between groups and none inside one;
- enums that derive a trait named `Error` list their variants alphabetically, one
  empty line apart;
- ordinary comments inside an ordered run or between error variants are reported,
  and block fixing.

The library is written in Verus: its own functions carry contracts and are proved
against them. The calls it makes into `syn`, `toml` and a few std functions sit behind
declared contracts that are trusted, not proved; the parsed model of a file is what
`syn` gives for its text, named by `rust_file` in `syntax/syn_api.rs`.

## Layout

- `src/` — the verified library.
  - `syntax/`: the parsed file as plain values; the call into `syn` and the
    conversion of its nodes sit behind declared contracts in `syn_api.rs`.
  - `rules/item_order/` and `rules/error_variants/`: each rule's model, checker
    (`check.rs`) and fixer (`fix.rs`), each specified by spec functions over the
    file's text and items, with the laws that tie checker and fixer together.
  - `check.rs`, `fix.rs`: both rules over one file; fixing repeats passes until none
    has edits left.
  - `edit.rs`, `order.rs`, `source.rs`, `text.rs`: edits and their application,
    stable sorting, line/column positions, character helpers.
  - `config.rs`, `diagnostic.rs`, `git.rs`, `project.rs`, `cli.rs`: item classes
    and orders, reported violations, Git's output, workspace and file selection, the
    command's options.
- `app/main.rs` — the command: argument parsing, Cargo metadata, the directory walk,
  Git, reading and writing files, printing.
- `tests/` — tests of the library.

## Exit codes

`0` when no violation is found, `1` when some is, `2` for parsing, discovery or I/O
failures.
