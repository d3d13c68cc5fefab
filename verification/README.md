# tablestrip

Compact forms of what database clients print: tables drawn with ASCII borders
become tab-separated rows, and passwords are kept out of the labels under which
commands are logged.

- `src/` is the library, verified with Verus. `ascii_table` strips tables of any
  dialect, `mysql_cmd` filters what `mysql` prints. `text`, `bytes` and
  `patterns` hold what both are built on. The remaining modules prove what holds
  across functions, above all that a drawn table is read back cell by cell.
- `app/` runs `mysql` and prints its output in compact form.
- `tests/` runs the library on examples.

The `regex` crate recognises borders and footers. What is taken on trust about
it stands in `src/patterns.rs`: two declared types, two functions with their
contracts, and a name for the result of each.
