# comma

The library behind Comma, an editor for CSV, TSV and other delimited text
files, written in Verus: each public function states what it does in its
`requires` and `ensures`, and Verus proves the code against them.

## Layout

- `src/document/`: the document model. `parse` reads records field by field,
  `serialize` writes them back, `sniff` guesses the delimiter and whether the
  first record is a header, `history` keeps the changes that undo and redo walk,
  and `reading` proves that what is written reads back as it was written.
- `src/decimal.rs`, `src/value.rs`, `src/grid/order.rs`: how a value is read as
  a number, and the orders that sorting and filtering put values in.
- `src/filter.rs`: the conditions a column can be held to.
- `src/search.rs`: case-folded search and replace.
- `src/export/`: the web page and the OpenDocument spreadsheet an export writes.
- `src/grid/`, `src/window/`: what the window asks of the library: column
  titles and letters, row heights, menu tables, terminal and tool commands.
- `src/text.rs`: the character and string facts the rest is stated over.
- `app/`: the GTK application around the library.
- `tests/`: tests run against the compiled library with its outside crates.

Laws that relate several functions stand as public `proof fn`s named
`lemma_...` beside the functions they speak of.
