# csvdiff

Compare two CSV exports of the same table by key and report what actually
changed: added keys, removed keys, and for changed keys the fields that moved.
Values that only differ in spelling (`1000` / `1,000.00`, `NULL` / empty) are
not reported unless `--strict` is given.

    csvdiff before.csv after.csv --key id
    csvdiff before.csv after.csv --key order_id,line_no --ignore updated_at
    csvdiff before.csv after.csv --key id --out changes.csv [--force]

The exit status is 0 when the files match, 1 when differences were found and
2 when the comparison could not be made (or `--out` exists without `--force`).

## Layout

- `src/` is the library, verified with Verus. Every function states in its
  contract what it returns; the laws of the comparison are proof functions.
  - `text.rs`: whitespace, trimming, ASCII case, characters and strings.
  - `number.rs`: recognising a number written with either decimal
    convention, and its plain decimal literal (`1.234,56` is `1234.56`).
  - `compare.rs`: normalising a cell, hashing a row, the changed fields of a
    row.
  - `rows.rs`: column lists, headers, row keys, comparable values, how keys
    and values are shown.
  - `diff.rs`: the three passes of a comparison as a state machine: pass 1
    keeps, per key of the older file, the hash of its last row, pass 2
    streams the newer file, pass 3 revisits only the last older row of each
    changed key. Only the last row of a repeated key is compared, and rows
    with the wrong number of fields are flagged, never diffed.
  - `sort.rs`: a stable merge sort by the UTF-8 bytes of keys.
  - `moves.rs`: what moved, by column.
  - `report.rs`: the exit status, the example lines and the file of
    differences, whose cells never start like a spreadsheet formula (such a
    cell gets a leading `'`).
  - `laws.rs`: what holds of every comparison (null spellings collapse,
    numbers compare by their number form, only blank and null cells become
    empty, normalising text is idempotent, keys are unambiguous,
    ignored columns never count, row hashes separate values).
- `app/` is the command-line program: argument parsing, reading and writing
  CSV files, printing the summary, and the one step done in floating point:
  a number cell compares as its literal rounded to the nearest binary double
  and written to six decimal places. The library finds the literal and takes
  that number form back as an argument.
- `tests/` runs the library on concrete values.
