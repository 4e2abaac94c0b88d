# Key Script core

The statement scanner and the standard prelude of the Key Script interpreter,
written in Verus.

- `src/scan`: the scanner. Each scanning function has a spec function
  (`spec_stmt`, `spec_letting`, `spec_expr`, ...) that says what is scanned from
  a source and a position; the executable scanner is proved to compute exactly
  that, and `scan` turns a whole source into its statements. `scan/shift.rs`
  proves that an expression scans alike behind any prefix.
- `src/primitive`: script values (`Litr`) and how they are written out, the
  functions of the top-level scope (`prelude`, `log`, `throw`, `run_ks`,
  `swap`, `take`, ...) and iteration over values.
- `src/report.rs`: the text of an error report and of the place reported
  for code that `run_ks` runs.
- `app/`: the host side: console output, error reporting and the entry points
  that the embedding page calls.
- `tests/`: tests on concrete sources and values.
