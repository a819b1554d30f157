# spreadsheet

Rectangular tables of optional text cells, with an optional header of column
titles, read from and written to xlsx workbooks. The library is written in
Verus: every function in `src/` carries a contract over a mathematical model
of the table, and Verus proves the code against it.

## Layout

- `src/table.rs`: `Table`, `Row`, `Cell`, `Header` and `Col`, their model
  (`TableModel`: the grid of values, the width, the name and the titles) and
  every operation on rows, columns, headers and searches.
- `src/text.rs`: decimal rendering of indices, the error messages, and
  substring search.
- `src/excel.rs`: laying tables out as the sheets of an `umya_spreadsheet`
  workbook, and choosing the sheet to read.
- `src/customers.rs`: the customer list built from the structures and
  services sheets of a directory workbook.
- `src/duplicates.rs`: a key column made of two columns, and the running
  count of each key.
- `src/samples.rs`: the sample tables of the workbook demo.
- `src/laws.rs`: properties of the operations taken together (what one call
  undoes of another, what a write leaves in a sheet, and so on).
- `app/main.rs`: the program: reading sheets with `calamine`, saving
  workbooks, and the demonstrations.
- `tests/`: tests of the library on concrete tables.
