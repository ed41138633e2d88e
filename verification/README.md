# rs_sqlite

A small SQLite-like database with one table of rows `(id: u32, username, email)`,
verified with Verus. Lines such as `insert 1 alice alice@example.com`, `select` and
`.exit` are parsed and run against the table; the table is stored in pages of
4096 bytes, 14 rows of 291 bytes to a page, at most 100 pages (1400 rows).

## Layout

- `src/` — the verified library.
  - `lib.rs` — `process_input` / `handle_input`: one line of input to a response and
    the table's new rows, with the laws that relate lines (inserts append, a select
    gives back the rows, a full table refuses inserts).
  - `parser.rs` — whitespace (as `char::is_whitespace`), trimming, splitting into
    words and `u32` parsing, all on the UTF-8 bytes of the line.
  - `render.rs` — the law that the line `insert <id> <username> <email>` parses to
    exactly that row.
  - `util.rs` — leaf-node page layout, `prepare_statement`, `execute_statement`,
    `get_page`, `get_row_slice`, `do_meta_command`.
  - `components/` — `Row` and its byte layout, the `Pager` page cache, the `Table`
    with its file image (`db_open` / `db_close`) and the `Cursor`.
  - `encoding.rs`, `consts.rs`, `errors.rs` — byte encodings, layout constants, errors.
- `tests/` — the tests, run against the compiled library.
- `app/main.rs` — the command-line program: file I/O, the prompt loop, printing.

## Model

A table is viewed as the sequence of its rows (`Seq<RowView>`); every operation is
specified over that view and over the bytes of its pages. The file that stores a table
holds its whole pages of rows followed by the rows of its last page, so that opening
the file written on close gives back the same rows. The pager keeps the file's bytes and
caches no page when it is opened; a page is read from those bytes the first time it is
fetched.
