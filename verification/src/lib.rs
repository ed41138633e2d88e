//! A small SQLite-like database: one table of rows `(id, username, email)`, stored
//! in fixed-size pages, driven by `insert` and `select` statements typed one per line.
pub mod components;
pub mod consts;
pub mod encoding;
pub mod errors;
pub mod parser;
pub mod render;
pub mod util;

use vstd::prelude::*;
use vstd::string::{StringExecFns, StringSliceAdditionalSpecFns};
use vstd::utf8::decode_utf8;

pub use components::row::{Row, RowView};
pub use components::table::Table;
pub use util::get_row_slice;

use components::table::{pages_touched, row_written, same_page_bytes};
use consts::TABLE_MAX_ROWS;
use errors::{ExecuteError, MetaCommandError, ParseError};
use parser::{lemma_trimmed_idempotent, trim, trimmed};
use util::{
    do_meta_command, execute_statement, exit_command, prepare_statement, spec_prepare, MetaCommand,
};

verus! {

#[derive(Copy, Clone, Debug, PartialEq, Eq, Structural)]
pub enum NodeType {
    Internal,
    Leaf,
}

impl NodeType {
    /// The byte that records the node type in a page: 0 for internal, 1 for leaf.
    pub open spec fn spec_to_byte(self) -> u8 {
        match self {
            NodeType::Internal => 0,
            NodeType::Leaf => 1,
        }
    }

    /// The byte that records the node type in a page.
    pub fn to_byte(self) -> (b: u8)
        ensures
            b == self.spec_to_byte(),
    {
        match self {
            NodeType::Internal => 0,
            NodeType::Leaf => 1,
        }
    }
}

pub enum Statement {
    Insert { row_to_insert: Row },
    Select,
}

/// What a statement asks for.
pub enum StatementView {
    Insert(RowView),
    Select,
}

impl View for Statement {
    type V = StatementView;

    open spec fn view(&self) -> StatementView {
        match self {
            Statement::Insert { row_to_insert } => StatementView::Insert(row_to_insert@),
            Statement::Select => StatementView::Select,
        }
    }
}

/// What a line of input leads to.
pub enum Response {
    /// Nothing to do: the line is blank.
    Nothing,
    /// A statement ran; a select gives its rows.
    Executed(Vec<Row>),
    /// A message for the user.
    Message(String),
    /// The `.exit` meta command.
    Exit,
}

pub enum ResponseView {
    Nothing,
    Executed(Seq<RowView>),
    Message(Seq<char>),
    Exit,
}

impl View for Response {
    type V = ResponseView;

    open spec fn view(&self) -> ResponseView {
        match self {
            Response::Nothing => ResponseView::Nothing,
            Response::Executed(rows) => ResponseView::Executed(rows@.map_values(|r: Row| r@)),
            Response::Message(m) => ResponseView::Message(m@),
            Response::Exit => ResponseView::Exit,
        }
    }
}

/// The message for a statement that could not be parsed; `text` is the trimmed line.
pub open spec fn parse_error_message(e: ParseError, text: Seq<char>) -> Seq<char> {
    match e {
        ParseError::NegativeId => "ID must be positive."@,
        ParseError::StringTooLong => "String is too long."@,
        ParseError::SyntaxError => "Syntax error. Could not parse statement."@,
        ParseError::UnrecognizedStatement => "Unrecognized keyword at start of '"@ + text + "'."@,
    }
}

/// What the line with bytes `input` leads to, for a table holding `rows`.
pub open spec fn spec_response(input: Seq<u8>, rows: Seq<RowView>) -> ResponseView {
    let b = trimmed(input);
    let text = decode_utf8(b);
    if b.len() == 0 {
        ResponseView::Nothing
    } else if b[0] == 46 {
        if b == exit_command() {
            ResponseView::Exit
        } else {
            ResponseView::Message("Unrecognized command: '"@ + text + "'"@)
        }
    } else {
        match spec_prepare(b) {
            Err(e) => ResponseView::Message(parse_error_message(e, text)),
            Ok(StatementView::Insert(row)) => if rows.len() >= TABLE_MAX_ROWS {
                ResponseView::Message("Error: Table full."@)
            } else {
                ResponseView::Executed(Seq::empty())
            },
            Ok(StatementView::Select) => ResponseView::Executed(rows),
        }
    }
}

/// The row that the line with bytes `input` inserts into a table holding `rows`, if any.
pub open spec fn spec_inserted_row(input: Seq<u8>, rows: Seq<RowView>) -> Option<RowView> {
    let b = trimmed(input);
    if b.len() > 0 && b[0] != 46 && rows.len() < TABLE_MAX_ROWS {
        match spec_prepare(b) {
            Ok(StatementView::Insert(row)) => Some(row),
            _ => None,
        }
    } else {
        None
    }
}

/// The rows of the table after the line with bytes `input`, for a table holding `rows`.
pub open spec fn spec_rows_after(input: Seq<u8>, rows: Seq<RowView>) -> Seq<RowView> {
    match spec_inserted_row(input, rows) {
        Some(row) => rows.push(row),
        None => rows,
    }
}

/// The pager's page count after the line with bytes `input`, for a table holding `rows`
/// whose pager counts `np` pages: an insert fetches the page of the new row, a select
/// the pages of all rows; other lines fetch none.
pub open spec fn spec_num_pages_after(input: Seq<u8>, rows: Seq<RowView>, np: int) -> int {
    match spec_inserted_row(input, rows) {
        Some(_) => pages_touched(np, rows.len() + 1int),
        None => match spec_response(input, rows) {
            ResponseView::Executed(_) => pages_touched(np, rows.len() as int),
            _ => np,
        },
    }
}

/// Handles one line of input: a meta command, or a statement that is parsed and run.
pub fn process_input(input: &str, table: &mut Table) -> (r: Response)
    requires
        old(table).wf(),
    ensures
        final(table).wf(),
        r@ == spec_response(input.spec_bytes(), old(table)@),
        final(table)@ == spec_rows_after(input.spec_bytes(), old(table)@),
        final(table).pager.file_length == old(table).pager.file_length,
        final(table).pager.num_pages == spec_num_pages_after(
            input.spec_bytes(),
            old(table)@,
            old(table).pager.num_pages as int,
        ),
        match spec_inserted_row(input.spec_bytes(), old(table)@) {
            Some(row) => row_written(*old(table), *final(table), row),
            None => same_page_bytes(*final(table), *old(table)),
        },
        !(spec_response(input.spec_bytes(), old(table)@) is Executed) ==> *final(table)
            == *old(table),
{
    let raw_input = trim(input);
    proof {
        vstd::utf8::encode_utf8_decode_utf8(raw_input@);
    }
    let raw_bytes = raw_input.as_bytes();
    if raw_bytes.len() == 0 {
        return Response::Nothing;
    }
    if raw_bytes[0] == 46 {
        match do_meta_command(raw_input) {
            Ok(MetaCommand::Exit) => return Response::Exit,
            Err(MetaCommandError::Unrecognized) => {
                let m = "Unrecognized command: '".to_string().concat(raw_input).concat("'");
                return Response::Message(m);
            },
        }
    }
    match prepare_statement(raw_input) {
        Ok(statement) => match execute_statement(statement, table) {
            Ok(rows) => {
                proof {
                    assert(rows@.map_values(|r: Row| r@) =~= match spec_response(input.spec_bytes(), old(table)@) {
                        ResponseView::Executed(v) => v,
                        _ => Seq::empty(),
                    });
                }
                Response::Executed(rows)
            },
            Err(ExecuteError::TableFull) => Response::Message("Error: Table full.".to_string()),
            Err(ExecuteError::DuplicateKey) => Response::Message("Error: Duplicate key.".to_string()),
        },
        Err(ParseError::NegativeId) => Response::Message("ID must be positive.".to_string()),
        Err(ParseError::StringTooLong) => Response::Message("String is too long.".to_string()),
        Err(ParseError::SyntaxError) => Response::Message(
            "Syntax error. Could not parse statement.".to_string(),
        ),
        Err(ParseError::UnrecognizedStatement) => Response::Message(
            "Unrecognized keyword at start of '".to_string().concat(raw_input).concat("'."),
        ),
    }
}

/// Handles one line of input and gives back the message to show, if any. A select's
/// rows and the `.exit` command are left to `process_input`'s caller.
pub fn handle_input(input: &str, table: &mut Table) -> (r: Option<String>)
    requires
        old(table).wf(),
    ensures
        final(table).wf(),
        final(table)@ == spec_rows_after(input.spec_bytes(), old(table)@),
        final(table).pager.file_length == old(table).pager.file_length,
        final(table).pager.num_pages == spec_num_pages_after(
            input.spec_bytes(),
            old(table)@,
            old(table).pager.num_pages as int,
        ),
        match spec_inserted_row(input.spec_bytes(), old(table)@) {
            Some(row) => row_written(*old(table), *final(table), row),
            None => same_page_bytes(*final(table), *old(table)),
        },
        !(spec_response(input.spec_bytes(), old(table)@) is Executed) ==> *final(table)
            == *old(table),
        match spec_response(input.spec_bytes(), old(table)@) {
            ResponseView::Message(m) => r matches Some(s) && s@ == m,
            _ => r is None,
        },
{
    match process_input(input, table) {
        Response::Message(m) => Some(m),
        _ => None,
    }
}

/// Leading and trailing whitespace, such as the newline that ends a line read from the
/// terminal, never changes what a line leads to: the line and the line without it get
/// the same response, insert the same row, leave the same rows and the same page count.
pub proof fn lemma_surrounding_whitespace_ignored(input: Seq<u8>, rows: Seq<RowView>, np: int)
    ensures
        spec_response(trimmed(input), rows) == spec_response(input, rows),
        spec_inserted_row(trimmed(input), rows) == spec_inserted_row(input, rows),
        spec_rows_after(trimmed(input), rows) == spec_rows_after(input, rows),
        spec_num_pages_after(trimmed(input), rows, np) == spec_num_pages_after(input, rows, np),
{
    lemma_trimmed_idempotent(input);
}

/// A `select` line, alone or followed by a space and more, is answered with exactly the
/// rows the table holds, in order, for every table, the empty one included; it keeps the
/// rows and fetches the pages of all of them.
pub proof fn lemma_select_line_gives_all_rows(line: Seq<u8>, rows: Seq<RowView>, np: int)
    requires
        ({
            let b = trimmed(line);
            // s, e, l, e, c, t and a space
            ||| b == seq![115u8, 101, 108, 101, 99, 116]
            ||| (b.len() > 6 && b.subrange(0, 7) == seq![115u8, 101, 108, 101, 99, 116, 32])
        }),
    ensures
        spec_response(line, rows) == ResponseView::Executed(rows),
        spec_inserted_row(line, rows) is None,
        spec_rows_after(line, rows) == rows,
        spec_num_pages_after(line, rows, np) == pages_touched(np, rows.len() as int),
{
    let b = trimmed(line);
    assert(b[0] == 115);
    if b.len() > 6 && b.subrange(0, 7) == seq![115u8, 101, 108, 101, 99, 116, 32] {
        assert(b[6] == b.subrange(0, 7)[6]);
        assert(b.subrange(0, 6) =~= util::select_keyword());
    }
    assert(!util::is_command(b, util::insert_keyword())) by {
        if b.len() >= 6 {
            assert(b.subrange(0, 6)[0] == 115);
        }
    }
}

/// The line `.exit` is answered by exiting on every table, whatever it holds; the rows
/// and the page count stay as they were.
pub proof fn lemma_exit_line_exits(line: Seq<u8>, rows: Seq<RowView>, np: int)
    requires
        // ., e, x, i, t
        trimmed(line) == seq![46u8, 101, 120, 105, 116],
    ensures
        spec_response(line, rows) == ResponseView::Exit,
        spec_rows_after(line, rows) == rows,
        spec_num_pages_after(line, rows, np) == np,
{
}

/// The line `insert <id> <username> <email>` whose username or email has more bytes than
/// its field is answered "String is too long." on every table and inserts nothing: no
/// field is ever cut to fit.
pub proof fn lemma_long_field_refused(id: u32, username: Seq<u8>, email: Seq<u8>, rows: Seq<RowView>)
    requires
        render::is_word(username),
        render::is_word(email),
        username.len() > consts::USERNAME_SIZE || email.len() > consts::EMAIL_SIZE,
    ensures
        ({
            let line = render::insert_line(id, username, email);
            &&& spec_response(line, rows) == ResponseView::Message("String is too long."@)
            &&& spec_inserted_row(line, rows) is None
            &&& spec_rows_after(line, rows) == rows
        }),
{
    render::lemma_insert_line_too_long(id, username, email);
    let line = render::insert_line(id, username, email);
    assert(trimmed(line)[0] == 105);
}

/// An insert line whose id word starts with `-` is answered "ID must be positive." on
/// every table and inserts nothing, whatever digits follow the sign.
pub proof fn lemma_negative_id_line_refused(
    id_word: Seq<u8>,
    username: Seq<u8>,
    email: Seq<u8>,
    rows: Seq<RowView>,
)
    requires
        render::is_word(id_word),
        id_word[0] == 45,
        render::is_word(username),
        render::is_word(email),
    ensures
        ({
            let line = render::insert_words_line(id_word, username, email);
            &&& spec_response(line, rows) == ResponseView::Message("ID must be positive."@)
            &&& spec_inserted_row(line, rows) is None
            &&& spec_rows_after(line, rows) == rows
        }),
{
    render::lemma_negative_id_refused(id_word, username, email);
    let line = render::insert_words_line(id_word, username, email);
    assert(trimmed(line)[0] == 105);
}

/// The row appended by `insert <id> <username> <email>`, for words without zero bytes
/// that fit their fields, shows exactly those words as its username and email text.
pub proof fn lemma_inserted_row_shows_its_words(
    id: u32,
    username: Seq<u8>,
    email: Seq<u8>,
    rows: Seq<RowView>,
)
    requires
        render::is_word(username),
        render::is_word(email),
        username.len() <= consts::USERNAME_SIZE,
        email.len() <= consts::EMAIL_SIZE,
        forall|k: int| 0 <= k < username.len() ==> username[k] != 0,
        forall|k: int| 0 <= k < email.len() ==> email[k] != 0,
        rows.len() < TABLE_MAX_ROWS,
    ensures
        ({
            let after = spec_rows_after(render::insert_line(id, username, email), rows);
            &&& after.len() == rows.len() + 1
            &&& after.last().id == id
            &&& components::row::visible_text(after.last().username) == username
            &&& components::row::visible_text(after.last().email) == email
        }),
{
    lemma_insert_line_appends_row(id, username, email, rows);
    components::row::lemma_visible_text_of_padded(username, consts::USERNAME_SIZE as nat);
    components::row::lemma_visible_text_of_padded(email, consts::EMAIL_SIZE as nat);
}

/// A line either leaves the rows as they were or appends one row: no line changes or
/// drops a row that is already in the table.
pub proof fn lemma_rows_only_grow(input: Seq<u8>, rows: Seq<RowView>)
    ensures
        ({
            let after = spec_rows_after(input, rows);
            ||| after == rows
            ||| (rows.len() < TABLE_MAX_ROWS && after.len() == rows.len() + 1
                && after.subrange(0, rows.len() as int) == rows)
        }),
{
    let after = spec_rows_after(input, rows);
    if after != rows {
        assert(after.subrange(0, rows.len() as int) =~= rows);
    }
}

/// An insert into a table that is not full appends its row, and a select then gives
/// back the rows the table held followed by the inserted row, leaving them in place.
pub proof fn lemma_insert_then_select(
    insert_line: Seq<u8>,
    select_line: Seq<u8>,
    rows: Seq<RowView>,
    row: RowView,
)
    requires
        rows.len() < TABLE_MAX_ROWS,
        spec_prepare(trimmed(insert_line)) == Ok::<StatementView, ParseError>(
            StatementView::Insert(row),
        ),
        spec_prepare(trimmed(select_line)) == Ok::<StatementView, ParseError>(
            StatementView::Select,
        ),
    ensures
        spec_response(insert_line, rows) == ResponseView::Executed(Seq::empty()),
        spec_rows_after(insert_line, rows) == rows.push(row),
        spec_response(select_line, rows.push(row)) == ResponseView::Executed(rows.push(row)),
        spec_rows_after(select_line, rows.push(row)) == rows.push(row),
{
    assert(trimmed(insert_line)[0] == 105);
    assert(trimmed(select_line)[0] == 115);
}

/// A full table answers every insert with "Error: Table full." and keeps its rows.
pub proof fn lemma_full_table_refuses_insert(line: Seq<u8>, rows: Seq<RowView>, row: RowView)
    requires
        rows.len() >= TABLE_MAX_ROWS,
        spec_prepare(trimmed(line)) == Ok::<StatementView, ParseError>(StatementView::Insert(row)),
    ensures
        spec_response(line, rows) == ResponseView::Message("Error: Table full."@),
        spec_rows_after(line, rows) == rows,
{
    assert(trimmed(line)[0] == 105);
}

/// A line that is answered with a message, or with nothing, leaves the rows unchanged.
pub proof fn lemma_refused_line_keeps_rows(line: Seq<u8>, rows: Seq<RowView>)
    requires
        !(spec_response(line, rows) is Executed),
    ensures
        spec_rows_after(line, rows) == rows,
{
}

/// The line `insert <id> <username> <email>`, for words without whitespace that fit
/// their fields, appends the row with that id and those zero-padded fields to a table
/// that is not full, with no message; on a full table it is answered "Error: Table full."
/// and the rows stay as they were.
pub proof fn lemma_insert_line_appends_row(id: u32, username: Seq<u8>, email: Seq<u8>, rows: Seq<RowView>)
    requires
        render::is_word(username),
        render::is_word(email),
        username.len() <= consts::USERNAME_SIZE,
        email.len() <= consts::EMAIL_SIZE,
    ensures
        ({
            let line = render::insert_line(id, username, email);
            let row = RowView {
                id,
                username: util::pad(username, consts::USERNAME_SIZE as nat),
                email: util::pad(email, consts::EMAIL_SIZE as nat),
            };
            &&& rows.len() < TABLE_MAX_ROWS ==> spec_response(line, rows) == ResponseView::Executed(
                Seq::empty(),
            ) && spec_rows_after(line, rows) == rows.push(row)
            &&& rows.len() >= TABLE_MAX_ROWS ==> spec_response(line, rows) == ResponseView::Message(
                "Error: Table full."@,
            ) && spec_rows_after(line, rows) == rows
        }),
{
    render::lemma_insert_line_parses(id, username, email);
    let line = render::insert_line(id, username, email);
    assert(trimmed(line)[0] == 105);
}

} // verus!
