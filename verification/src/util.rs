//! Leaf-node page layout, statement preparation and execution, and page access.
use vstd::prelude::*;
use vstd::string::StringSliceAdditionalSpecFns;
use crate::components::cursor::{lemma_cursor_slot, Cursor};
use crate::components::pager::{read_file_page, Pager};
use crate::components::row::{lemma_row_roundtrip, row_bytes, row_from_bytes, Row, RowView};
use crate::components::table::{
    lemma_row_position, lemma_rows_disjoint, lemma_same_rows, pages_touched, row_in_file, row_offset,
    row_page, row_slot, row_written, same_page_bytes, Table,
};
use crate::consts::{
    EMAIL_SIZE, IS_ROOT_OFFSET, LEAF_NODE_CELL_SIZE, LEAF_NODE_HEADER_SIZE, LEAF_NODE_KEY_SIZE,
    LEAF_NODE_MAX_CELLS, LEAF_NODE_NUM_CELLS_OFFSET, LEAF_NODE_VALUE_SIZE, NODE_TYPE_OFFSET,
    PAGE_SIZE, ROWS_PER_PAGE, ROW_SIZE, TABLE_MAX_PAGES, TABLE_MAX_ROWS, USERNAME_SIZE,
};
use crate::encoding::{array_range_mut, copy_into, le_bytes, le_value, splice, u32_from_le, u32_to_le};
use crate::errors::{ExecuteError, MetaCommandError, ParseError};
use crate::parser::{parse_u32, parse_u32_spec, split_whitespace, tokens};
use crate::{NodeType, Statement, StatementView};

verus! {

/// The number of cells recorded in a leaf node's header.
pub open spec fn spec_num_cells(node: Seq<u8>) -> u32 {
    le_value(node.subrange(LEAF_NODE_NUM_CELLS_OFFSET as int, LEAF_NODE_NUM_CELLS_OFFSET + 4))
}

/// Offset of cell `cell_num` in a leaf node.
pub open spec fn cell_offset(cell_num: int) -> int {
    LEAF_NODE_HEADER_SIZE + cell_num * LEAF_NODE_CELL_SIZE
}

/// Cell offsets grow with the cell number.
pub proof fn lemma_cell_offset_mono(a: int, b: int)
    requires
        a <= b,
    ensures
        cell_offset(a) <= cell_offset(b),
        cell_offset(a + 1) == cell_offset(a) + LEAF_NODE_CELL_SIZE,
{
    crate::consts::lemma_layout_values();
    assert(a * 295 <= b * 295) by (nonlinear_arith)
        requires
            a <= b,
    ;
    assert((a + 1) * 295 == a * 295 + 295) by (nonlinear_arith);
}

/// The key stored in cell `cell_num` of a leaf node.
pub open spec fn spec_cell_key(node: Seq<u8>, cell_num: int) -> u32 {
    le_value(node.subrange(cell_offset(cell_num), cell_offset(cell_num) + LEAF_NODE_KEY_SIZE))
}

/// The value bytes of cell `cell_num` of a leaf node.
pub open spec fn spec_cell_value(node: Seq<u8>, cell_num: int) -> Seq<u8> {
    node.subrange(
        cell_offset(cell_num) + LEAF_NODE_KEY_SIZE,
        cell_offset(cell_num) + LEAF_NODE_CELL_SIZE,
    )
}

/// The byte that records whether a node is the root.
pub open spec fn root_flag(is_root: bool) -> u8 {
    if is_root { 1 } else { 0 }
}

/// A fresh leaf node: the node type says leaf, the node is not the root, and it has
/// no cells; all other bytes are as in `node`.
pub open spec fn spec_initialized_leaf(node: Seq<u8>) -> Seq<u8> {
    splice(
        node.update(NODE_TYPE_OFFSET as int, NodeType::Leaf.spec_to_byte()).update(
            IS_ROOT_OFFSET as int,
            root_flag(false),
        ),
        LEAF_NODE_NUM_CELLS_OFFSET as int,
        le_bytes(0),
    )
}

/// Setting a leaf node's cell count and reading it back gives the count set.
pub proof fn lemma_num_cells_roundtrip(node: Seq<u8>, value: u32)
    requires
        node.len() == PAGE_SIZE,
    ensures
        spec_num_cells(splice(node, LEAF_NODE_NUM_CELLS_OFFSET as int, le_bytes(value))) == value,
{
    crate::encoding::lemma_le_roundtrip(value);
    assert(splice(node, LEAF_NODE_NUM_CELLS_OFFSET as int, le_bytes(value)).subrange(
        LEAF_NODE_NUM_CELLS_OFFSET as int,
        LEAF_NODE_NUM_CELLS_OFFSET + 4,
    ) =~= le_bytes(value));
}

/// The number of cells a leaf node records.
pub fn leaf_node_num_cells(node: &[u8; PAGE_SIZE]) -> (n: u32)
    ensures
        n == spec_num_cells(node@),
{
    let s = vstd::slice::slice_subrange(
        node.as_slice(),
        LEAF_NODE_NUM_CELLS_OFFSET,
        LEAF_NODE_NUM_CELLS_OFFSET + 4,
    );
    u32_from_le(s)
}

/// Records `value` as a leaf node's number of cells.
pub fn set_leaf_node_num_cells(node: &mut [u8; PAGE_SIZE], value: u32)
    ensures
        final(node)@ == splice(old(node)@, LEAF_NODE_NUM_CELLS_OFFSET as int, le_bytes(value)),
{
    let bytes = u32_to_le(value);
    let s = array_range_mut(node, LEAF_NODE_NUM_CELLS_OFFSET, LEAF_NODE_NUM_CELLS_OFFSET + 4);
    copy_into(s, 0, &bytes);
    proof {
        assert(final(node)@ =~= splice(old(node)@, LEAF_NODE_NUM_CELLS_OFFSET as int, le_bytes(value)));
    }
}

/// Records whether the node is the root.
pub fn set_node_is_root(node: &mut [u8; PAGE_SIZE], is_root: bool)
    ensures
        final(node)@ == old(node)@.update(IS_ROOT_OFFSET as int, root_flag(is_root)),
{
    node[IS_ROOT_OFFSET] = if is_root { 1 } else { 0 };
}

/// Makes the page an empty leaf node that is not the root.
pub fn initialize_leaf_node(node: &mut [u8; PAGE_SIZE])
    ensures
        final(node)@ == spec_initialized_leaf(old(node)@),
        spec_num_cells(final(node)@) == 0,
        final(node)@[NODE_TYPE_OFFSET as int] == NodeType::Leaf.spec_to_byte(),
        final(node)@[IS_ROOT_OFFSET as int] == root_flag(false),
{
    node[NODE_TYPE_OFFSET] = NodeType::Leaf.to_byte();
    set_node_is_root(node, false);
    set_leaf_node_num_cells(node, 0);
    proof {
        crate::encoding::lemma_le_roundtrip(0);
        assert(final(node)@.subrange(LEAF_NODE_NUM_CELLS_OFFSET as int, LEAF_NODE_NUM_CELLS_OFFSET + 4)
            =~= le_bytes(0));
    }
}

/// The key bytes of cell `cell_num`, lent out for writing.
pub fn leaf_node_key_mut(node: &mut [u8; PAGE_SIZE], cell_num: usize) -> (key: &mut [u8])
    requires
        cell_offset(cell_num as int) + LEAF_NODE_KEY_SIZE <= PAGE_SIZE,
    ensures
        key@ == old(node)@.subrange(
            cell_offset(cell_num as int),
            cell_offset(cell_num as int) + LEAF_NODE_KEY_SIZE,
        ),
        final(key)@.len() == LEAF_NODE_KEY_SIZE,
        final(node)@ == splice(old(node)@, cell_offset(cell_num as int), final(key)@),
{
    let start = LEAF_NODE_HEADER_SIZE + (cell_num * LEAF_NODE_CELL_SIZE);
    array_range_mut(node, start, start + LEAF_NODE_KEY_SIZE)
}

/// The value bytes of cell `cell_num`, lent out for writing.
pub fn leaf_node_value_mut(node: &mut [u8; PAGE_SIZE], cell_num: usize) -> (value: &mut [u8])
    requires
        cell_offset(cell_num as int) + LEAF_NODE_CELL_SIZE <= PAGE_SIZE,
    ensures
        value@ == spec_cell_value(old(node)@, cell_num as int),
        final(value)@.len() == LEAF_NODE_VALUE_SIZE,
        final(node)@ == splice(
            old(node)@,
            cell_offset(cell_num as int) + LEAF_NODE_KEY_SIZE,
            final(value)@,
        ),
{
    let start = LEAF_NODE_HEADER_SIZE + (cell_num * LEAF_NODE_CELL_SIZE) + LEAF_NODE_KEY_SIZE;
    array_range_mut(node, start, start + LEAF_NODE_VALUE_SIZE)
}

/// The key of cell `cell_num`.
pub fn leaf_node_key(node: &[u8; PAGE_SIZE], cell_num: usize) -> (key: u32)
    requires
        cell_offset(cell_num as int) + LEAF_NODE_KEY_SIZE <= PAGE_SIZE,
    ensures
        key == spec_cell_key(node@, cell_num as int),
{
    let start = LEAF_NODE_HEADER_SIZE + (cell_num * LEAF_NODE_CELL_SIZE);
    u32_from_le(vstd::slice::slice_subrange(node.as_slice(), start, start + LEAF_NODE_KEY_SIZE))
}

/// The keys of the cells that a leaf node records, in cell order.
pub fn leaf_node_keys(node: &[u8; PAGE_SIZE]) -> (keys: Vec<u32>)
    requires
        cell_offset(spec_num_cells(node@) - 1) + LEAF_NODE_KEY_SIZE <= PAGE_SIZE,
    ensures
        keys@.len() == spec_num_cells(node@),
        forall|i: int| 0 <= i < keys@.len() ==> keys@[i] == spec_cell_key(node@, i),
{
    let num_cells = leaf_node_num_cells(node);
    let mut keys: Vec<u32> = Vec::new();
    let mut i: u32 = 0;
    while i < num_cells
        invariant
            num_cells == spec_num_cells(node@),
            cell_offset(num_cells - 1) + LEAF_NODE_KEY_SIZE <= PAGE_SIZE,
            i <= num_cells,
            keys@.len() == i,
            forall|j: int| 0 <= j < i ==> keys@[j] == spec_cell_key(node@, j),
        decreases num_cells - i,
    {
        proof {
            lemma_cell_offset_mono(i as int, num_cells - 1);
        }
        keys.push(leaf_node_key(node, i as usize));
        i = i + 1;
    }
    keys
}

/// Moves the bytes `src_start..src_end` of a page to start at `dest_start`, as
/// `copy_within` does, for a move towards the end of the page.
fn copy_within(node: &mut [u8; PAGE_SIZE], src_start: usize, src_end: usize, dest_start: usize)
    requires
        src_start <= src_end,
        src_start <= dest_start,
        dest_start + (src_end - src_start) <= PAGE_SIZE,
    ensures
        final(node)@ == splice(
            old(node)@,
            dest_start as int,
            old(node)@.subrange(src_start as int, src_end as int),
        ),
{
    let len = src_end - src_start;
    let mut k: usize = len;
    while k > 0
        invariant
            len == src_end - src_start,
            dest_start + len <= PAGE_SIZE,
            src_start <= dest_start,
            k <= len,
            node@.len() == PAGE_SIZE,
            forall|i: int| 0 <= i < dest_start + k ==> node@[i] == old(node)@[i],
            forall|i: int|
                dest_start + len <= i < PAGE_SIZE ==> node@[i] == old(node)@[i],
            forall|i: int|
                dest_start + k <= i < dest_start + len ==> node@[i] == old(node)@[i - dest_start
                    + src_start],
        decreases k,
    {
        k = k - 1;
        let b = node[src_start + k];
        node[dest_start + k] = b;
    }
    assert(node@ =~= splice(
        old(node)@,
        dest_start as int,
        old(node)@.subrange(src_start as int, src_end as int),
    ));
}

/// The bytes of cell `cell_num` of a leaf node: its key, then its value.
pub open spec fn spec_cell(node: Seq<u8>, cell_num: int) -> Seq<u8> {
    node.subrange(cell_offset(cell_num), cell_offset(cell_num) + LEAF_NODE_CELL_SIZE)
}

/// The page after inserting `key` and `value` into cell `cell_num`: where the cell lies
/// before the last recorded cell, the bytes from
/// `LEAF_NODE_HEADER_SIZE + cell_num + LEAF_NODE_CELL_SIZE` up to the end of the last
/// cell first move `LEAF_NODE_CELL_SIZE` bytes towards the end of the page; then the cell
/// count goes up by one and the key and the value are written into cell `cell_num`.
pub open spec fn spec_leaf_node_insert(node: Seq<u8>, cell_num: int, key: u32, value: RowView) -> Seq<u8> {
    let n = spec_num_cells(node);
    let shifted = if cell_num < n {
        let src_start = LEAF_NODE_HEADER_SIZE + (cell_num + LEAF_NODE_CELL_SIZE);
        let src_end = cell_offset(n as int);
        splice(node, src_start + LEAF_NODE_CELL_SIZE, node.subrange(src_start, src_end))
    } else {
        node
    };
    let counted = splice(shifted, LEAF_NODE_NUM_CELLS_OFFSET as int, le_bytes((n + 1) as u32));
    let keyed = splice(counted, cell_offset(cell_num), le_bytes(key));
    splice(keyed, cell_offset(cell_num) + LEAF_NODE_KEY_SIZE, row_bytes(value))
}

/// Inserts a cell holding `key` and the serialized `value` at `cell_num`.
pub fn leaf_node_insert(node: &mut [u8; PAGE_SIZE], cell_num: usize, key: u32, value: &Row)
    requires
        spec_num_cells(old(node)@) < LEAF_NODE_MAX_CELLS,
        cell_num < LEAF_NODE_MAX_CELLS,
    ensures
        final(node)@ == spec_leaf_node_insert(old(node)@, cell_num as int, key, value@),
        spec_num_cells(final(node)@) == spec_num_cells(old(node)@) + 1,
        spec_cell_key(final(node)@, cell_num as int) == key,
        row_from_bytes(spec_cell_value(final(node)@, cell_num as int)) == value@,
        cell_num >= spec_num_cells(old(node)@) ==> forall|d: int|
            0 <= d < spec_num_cells(old(node)@) ==> #[trigger] spec_cell(final(node)@, d)
                == spec_cell(old(node)@, d),
{
    let num_cells = leaf_node_num_cells(node);
    let num_cells_idx = num_cells as usize;
    proof {
        crate::consts::lemma_layout_values();
        lemma_cell_offset_mono(cell_num as int, 12);
        lemma_cell_offset_mono(num_cells as int, 12);
    }
    if cell_num < num_cells_idx {
        let src_start = LEAF_NODE_HEADER_SIZE + (cell_num + LEAF_NODE_CELL_SIZE);
        let src_end = LEAF_NODE_HEADER_SIZE + (num_cells_idx * LEAF_NODE_CELL_SIZE);
        let dest_start = src_start + LEAF_NODE_CELL_SIZE;
        copy_within(node, src_start, src_end, dest_start);
    }
    let ghost shifted = node@;
    set_leaf_node_num_cells(node, num_cells + 1);
    let ghost counted = node@;
    let key_bytes = u32_to_le(key);
    let key_slot = leaf_node_key_mut(node, cell_num);
    copy_into(key_slot, 0, &key_bytes);
    let ghost keyed = node@;
    let value_slot = leaf_node_value_mut(node, cell_num);
    value.serialize(value_slot);
    proof {
        let c = cell_offset(cell_num as int);
        assert(keyed =~= splice(counted, c, le_bytes(key)));
        assert(node@ =~= splice(keyed, c + LEAF_NODE_KEY_SIZE, row_bytes(value@)));
        crate::encoding::lemma_le_roundtrip((num_cells + 1) as u32);
        crate::encoding::lemma_le_roundtrip(key);
        lemma_row_roundtrip(value@);
        assert(node@.subrange(LEAF_NODE_NUM_CELLS_OFFSET as int, LEAF_NODE_NUM_CELLS_OFFSET + 4)
            =~= le_bytes((num_cells + 1) as u32));
        assert(node@.subrange(c, c + LEAF_NODE_KEY_SIZE) =~= le_bytes(key));
        assert(spec_cell_value(node@, cell_num as int) =~= row_bytes(value@));
        if cell_num >= num_cells {
            assert forall|d: int| 0 <= d < num_cells implies #[trigger] spec_cell(node@, d)
                == spec_cell(old(node)@, d) by {
                lemma_cell_offset_mono(d + 1, cell_num as int);
                lemma_cell_offset_mono(0, d);
                assert(spec_cell(node@, d) =~= spec_cell(old(node)@, d));
            }
        }
    }
}

/// The bytes of the word `insert`.
pub open spec fn insert_keyword() -> Seq<u8> {
    // i, n, s, e, r, t
    seq![105u8, 110, 115, 101, 114, 116]
}

/// The bytes of the word `select`.
pub open spec fn select_keyword() -> Seq<u8> {
    // s, e, l, e, c, t
    seq![115u8, 101, 108, 101, 99, 116]
}

/// `b` is the word `kw` alone, or `kw` followed by a space and more.
pub open spec fn is_command(b: Seq<u8>, kw: Seq<u8>) -> bool {
    ||| b == kw
    ||| (b.len() > kw.len() && b.subrange(0, kw.len() as int) == kw && b[kw.len() as int] == 32)
}

/// `s` followed by zero bytes up to length `n`.
pub open spec fn pad(s: Seq<u8>, n: nat) -> Seq<u8> {
    s + Seq::new((n - s.len()) as nat, |i: int| 0u8)
}

/// The statement that a line of input asks for, or the reason it is refused (45 is the
/// byte of `-`).
pub open spec fn spec_prepare(b: Seq<u8>) -> Result<StatementView, ParseError> {
    if is_command(b, insert_keyword()) {
        let t = tokens(b);
        if t.len() < 4 {
            Err(ParseError::SyntaxError)
        } else if t[1].len() > 0 && t[1][0] == 45 {
            Err(ParseError::NegativeId)
        } else {
            match parse_u32_spec(t[1]) {
                None => Err(ParseError::SyntaxError),
                Some(id) => if t[2].len() > USERNAME_SIZE || t[3].len() > EMAIL_SIZE {
                    Err(ParseError::StringTooLong)
                } else {
                    Ok(
                        StatementView::Insert(
                            RowView {
                                id,
                                username: pad(t[2], USERNAME_SIZE as nat),
                                email: pad(t[3], EMAIL_SIZE as nat),
                            },
                        ),
                    )
                },
            }
        }
    } else if is_command(b, select_keyword()) {
        Ok(StatementView::Select)
    } else {
        Err(ParseError::UnrecognizedStatement)
    }
}

/// Whether `b` is the word `kw` alone or `kw`, a space and more.
fn is_command_exec(b: &[u8], kw: &[u8]) -> (r: bool)
    ensures
        r == is_command(b@, kw@),
{
    let n = b.len();
    let m = kw.len();
    if n < m {
        return false;
    }
    let mut i: usize = 0;
    while i < m
        invariant
            m == kw@.len(),
            m <= n,
            n == b@.len(),
            i <= m,
            b@.subrange(0, i as int) == kw@.subrange(0, i as int),
        decreases m - i,
    {
        if b[i] != kw[i] {
            assert(b@.subrange(0, m as int)[i as int] != kw@[i as int]);
            return false;
        }
        i = i + 1;
        assert(b@.subrange(0, i as int) =~= kw@.subrange(0, i as int));
    }
    assert(kw@.subrange(0, m as int) =~= kw@);
    if n == m {
        assert(b@ =~= b@.subrange(0, m as int));
        true
    } else {
        b[m] == 32
    }
}

/// Copies a word into a zero-filled field of `N` bytes.
fn padded_field<const N: usize>(word: &[u8]) -> (field: [u8; N])
    requires
        word@.len() <= N,
    ensures
        field@ == pad(word@, N as nat),
{
    let mut field = [0u8; N];
    let mut i: usize = 0;
    while i < word.len()
        invariant
            word@.len() <= N,
            i <= word@.len(),
            forall|j: int| 0 <= j < i ==> field@[j] == word@[j],
            forall|j: int| i <= j < N ==> field@[j] == 0,
        decreases word@.len() - i,
    {
        field[i] = word[i];
        i = i + 1;
    }
    assert(field@ =~= pad(word@, N as nat));
    field
}

/// Parses a line into a statement: `insert <id> <username> <email>` or `select`.
pub fn prepare_statement(input: &str) -> (r: Result<Statement, ParseError>)
    ensures
        match r {
            Ok(statement) => spec_prepare(input.spec_bytes()) == Ok::<StatementView, ParseError>(
                statement@,
            ),
            Err(e) => spec_prepare(input.spec_bytes()) == Err::<StatementView, ParseError>(e),
        },
{
    let b = input.as_bytes();
    let insert_word: [u8; 6] = [105, 110, 115, 101, 114, 116];
    let select_word: [u8; 6] = [115, 101, 108, 101, 99, 116];
    assert(insert_word@ =~= insert_keyword());
    assert(select_word@ =~= select_keyword());
    if is_command_exec(b, &insert_word) {
        let parts = split_whitespace(b);
        if parts.len() < 4 {
            return Err(ParseError::SyntaxError);
        }
        let id_str = vstd::slice::slice_subrange(b, parts[1].0, parts[1].1);
        let username_str = vstd::slice::slice_subrange(b, parts[2].0, parts[2].1);
        let email_str = vstd::slice::slice_subrange(b, parts[3].0, parts[3].1);
        if id_str.len() > 0 && id_str[0] == 45 {
            return Err(ParseError::NegativeId);
        }
        let id: u32 = match parse_u32(id_str) {
            Some(val) => val,
            None => return Err(ParseError::SyntaxError),
        };
        if username_str.len() > USERNAME_SIZE || email_str.len() > EMAIL_SIZE {
            return Err(ParseError::StringTooLong);
        }
        let username: [u8; USERNAME_SIZE] = padded_field(username_str);
        let email: [u8; EMAIL_SIZE] = padded_field(email_str);
        Ok(Statement::Insert { row_to_insert: Row { id, username, email } })
    } else if is_command_exec(b, &select_word) {
        Ok(Statement::Select)
    } else {
        Err(ParseError::UnrecognizedStatement)
    }
}

/// The page `page_num`; where it is not cached yet, it is read from the file first (the
/// file's bytes of that page, then zeros past the end of the file) and cached.
pub fn get_page(pager: &mut Pager, page_num: usize) -> (page: &mut [u8; PAGE_SIZE])
    requires
        old(pager).wf(),
        page_num < TABLE_MAX_PAGES,
    ensures
        page@ == old(pager).page(page_num as int),
        final(pager).wf(),
        final(pager).file@ == old(pager).file@,
        final(pager).file_length == old(pager).file_length,
        final(pager).num_pages == (if page_num < old(pager).num_pages {
            old(pager).num_pages
        } else {
            (page_num + 1) as usize
        }),
        final(pager).pages@.len() == old(pager).pages@.len(),
        final(pager).pages@[page_num as int] is Some,
        final(pager).page(page_num as int) == final(page)@,
        forall|q: int|
            0 <= q < TABLE_MAX_PAGES && q != page_num ==> final(pager).pages@[q] == old(
                pager,
            ).pages@[q],
{
    if pager.pages[page_num].is_none() {
        let page_data = Box::new(read_file_page(&pager.file, page_num));
        pager.pages.set(page_num, Some(page_data));
        if page_num >= pager.num_pages {
            pager.num_pages = page_num + 1;
        }
    }
    pager.pages[page_num].as_mut().unwrap()
}

/// The `ROW_SIZE` bytes that store row `row_num`: in its cached page, or else in the file.
pub fn get_row_slice(table: &Table, row_num: usize) -> (slice: &[u8])
    requires
        table.wf(),
        row_num < table.num_rows,
    ensures
        slice@ == row_slot(table.pager, row_num as int),
        row_from_bytes(slice@) == table@[row_num as int],
{
    proof {
        crate::consts::lemma_layout_values();
        lemma_row_position(row_num as int);
    }
    let page_num = row_num / ROWS_PER_PAGE;
    let start = (row_num % ROWS_PER_PAGE) * ROW_SIZE;
    assert(table.pager.pages@[row_page(row_num as int)] is Some || row_in_file(
        table.pager.file@.len() as int,
        row_num as int,
    ));
    if table.pager.pages[page_num].is_some() {
        let page = table.pager.pages[page_num].as_ref().unwrap();
        vstd::slice::slice_subrange(page.as_slice(), start, start + ROW_SIZE)
    } else {
        let base = page_num * PAGE_SIZE + start;
        let slice = vstd::slice::slice_subrange(table.pager.file.as_slice(), base, base + ROW_SIZE);
        assert(slice@ =~= row_slot(table.pager, row_num as int));
        slice
    }
}

/// Row pages do not decrease with the row number.
proof fn lemma_row_page_mono(a: int, b: int)
    requires
        0 <= a <= b,
    ensures
        row_page(a) <= row_page(b),
{
    crate::consts::lemma_layout_values();
    assert(a / 14 <= b / 14) by (nonlinear_arith)
        requires
            0 <= a <= b,
    ;
}

/// Appends `row` to the table; the table is full at `TABLE_MAX_ROWS` rows.
fn execute_insert(row: &Row, table: &mut Table) -> (r: Result<(), ExecuteError>)
    requires
        old(table).wf(),
    ensures
        final(table).wf(),
        final(table).pager.file_length == old(table).pager.file_length,
        old(table).num_rows >= TABLE_MAX_ROWS ==> r == Err::<(), ExecuteError>(
            ExecuteError::TableFull,
        ) && *final(table) == *old(table),
        old(table).num_rows < TABLE_MAX_ROWS ==> r is Ok && final(table)@ == old(table)@.push(
            row@,
        ) && row_written(*old(table), *final(table), row@) && final(table).pager.num_pages
            == pages_touched(old(table).pager.num_pages as int, old(table).num_rows + 1),
{
    if table.num_rows >= TABLE_MAX_ROWS {
        return Err(ExecuteError::TableFull);
    }
    let ghost old_t = *table;
    let ghost n = table.num_rows as int;
    let cursor = Cursor::table_end(table);
    proof {
        lemma_cursor_slot(cursor);
        lemma_row_position(n);
    }
    let slot = cursor.value(table);
    row.serialize(slot);
    table.num_rows = table.num_rows + 1;
    proof {
        crate::consts::lemma_layout_values();
        lemma_row_position(n);
        lemma_row_roundtrip(row@);
        let p = row_page(n);
        lemma_cursor_slot(cursor);
        assert(row_slot(table.pager, n) =~= row_bytes(row@));
        assert forall|r: int| 0 <= r < n implies row_slot(table.pager, r) == row_slot(old_t.pager, r) by {
            lemma_row_position(r);
            if row_page(r) == p {
                lemma_rows_disjoint(r, n);
                assert(row_slot(table.pager, r) =~= row_slot(old_t.pager, r));
            }
        }
        assert forall|r: int| 0 <= r < table.num_rows implies (#[trigger] table.pager.pages@[row_page(r)]) is Some
            || row_in_file(table.pager.file@.len() as int, r) by {
            if r < n && row_page(r) != p {
                assert(old_t.pager.pages@[row_page(r)] is Some || row_in_file(
                    old_t.pager.file@.len() as int,
                    r,
                ));
            }
        }
        assert(table@ =~= old_t@.push(row@));
        assert forall|q: int| 0 <= q < TABLE_MAX_PAGES implies #[trigger] table.pager.page(q) == if q == row_page(n) {
            splice(old_t.pager.page(q), row_offset(n), row_bytes(row@))
        } else {
            old_t.pager.page(q)
        } by {
            if q == row_page(n) {
                assert(final(slot)@ =~= row_bytes(row@));
            }
        }
    }
    Ok(())
}

/// Runs a statement: an insert appends its row, a select gives back every row in order.
pub fn execute_statement(statement: Statement, table: &mut Table) -> (r: Result<Vec<Row>, ExecuteError>)
    requires
        old(table).wf(),
    ensures
        final(table).wf(),
        final(table).pager.file_length == old(table).pager.file_length,
        match statement@ {
            StatementView::Insert(row) => if old(table).num_rows >= TABLE_MAX_ROWS {
                &&& r == Err::<Vec<Row>, ExecuteError>(ExecuteError::TableFull)
                &&& *final(table) == *old(table)
            } else {
                &&& r matches Ok(rows) && rows@.len() == 0
                &&& final(table)@ == old(table)@.push(row)
                &&& row_written(*old(table), *final(table), row)
                &&& final(table).pager.num_pages == pages_touched(
                    old(table).pager.num_pages as int,
                    old(table).num_rows + 1,
                )
            },
            StatementView::Select => {
                &&& r matches Ok(rows) && rows@.len() == old(table)@.len() && forall|i: int|
                    0 <= i < rows@.len() ==> #[trigger] rows@[i]@ == old(table)@[i]
                &&& final(table)@ == old(table)@
                &&& same_page_bytes(*final(table), *old(table))
                &&& final(table).pager.num_pages == pages_touched(
                    old(table).pager.num_pages as int,
                    old(table).num_rows as int,
                )
            },
        },
{
    match statement {
        Statement::Insert { row_to_insert } => {
            match execute_insert(&row_to_insert, table) {
                Ok(()) => Ok(Vec::new()),
                Err(e) => Err(e),
            }
        },
        Statement::Select => {
            let mut rows: Vec<Row> = Vec::new();
            let mut cursor = Cursor::table_start(table);
            let ghost start_view = table@;
            while !cursor.end_of_table
                invariant
                    table.wf(),
                    table@ == start_view,
                    same_page_bytes(*table, *old(table)),
                    table.pager.file_length == old(table).pager.file_length,
                    table.num_rows == old(table).num_rows,
                    table.pager.num_pages == pages_touched(
                        old(table).pager.num_pages as int,
                        cursor.position(),
                    ),
                    cursor.wf(),
                    cursor.position() <= table.num_rows,
                    cursor.end_of_table == (cursor.position() >= table.num_rows),
                    rows@.len() == cursor.position(),
                    forall|i: int| 0 <= i < rows@.len() ==> #[trigger] rows@[i]@ == start_view[i],
                decreases table.num_rows - cursor.position(),
            {
                let ghost before = *table;
                let ghost k = cursor.position();
                proof {
                    lemma_cursor_slot(cursor);
                    lemma_row_position(k);
                }
                let slot = cursor.value(table);
                let row = Row::deserialize(slot);
                proof {
                    lemma_row_position(k);
                    lemma_cursor_slot(cursor);
                    if k > 0 {
                        lemma_row_page_mono(k - 1, k);
                    }
                    assert(table.pager.page(cursor.page_num as int) =~= before.pager.page(
                        cursor.page_num as int,
                    ));
                    lemma_same_rows(before, *table);
                    assert forall|q: int| 0 <= q < TABLE_MAX_PAGES implies #[trigger] table.pager.page(q)
                        == old(table).pager.page(q) by {
                        assert(table.pager.page(q) == before.pager.page(q));
                    }
                    assert(row@ == start_view[k]);
                }
                rows.push(row);
                cursor.advance(table);
            }
            Ok(rows)
        },
    }
}

/// What a meta command asks for.
#[derive(Debug, PartialEq, Eq, Structural)]
pub enum MetaCommand {
    Exit,
}

/// The bytes of `.exit`.
pub open spec fn exit_command() -> Seq<u8> {
    // ., e, x, i, t
    seq![46u8, 101, 120, 105, 116]
}

/// Whether two byte strings are equal.
fn bytes_eq(a: &[u8], b: &[u8]) -> (r: bool)
    ensures
        r == (a@ == b@),
{
    if a.len() != b.len() {
        return false;
    }
    let mut i: usize = 0;
    while i < a.len()
        invariant
            a@.len() == b@.len(),
            i <= a@.len(),
            a@.subrange(0, i as int) == b@.subrange(0, i as int),
        decreases a@.len() - i,
    {
        if a[i] != b[i] {
            return false;
        }
        i = i + 1;
        assert(a@.subrange(0, i as int) =~= b@.subrange(0, i as int));
    }
    assert(a@ =~= a@.subrange(0, i as int));
    assert(b@ =~= b@.subrange(0, i as int));
    true
}

/// Recognizes a meta command; `.exit` is the only one.
pub fn do_meta_command(input: &str) -> (r: Result<MetaCommand, MetaCommandError>)
    ensures
        input.spec_bytes() == exit_command() ==> r == Ok::<MetaCommand, MetaCommandError>(
            MetaCommand::Exit,
        ),
        input.spec_bytes() != exit_command() ==> r == Err::<MetaCommand, MetaCommandError>(
            MetaCommandError::Unrecognized,
        ),
{
    let exit_word: [u8; 5] = [46, 101, 120, 105, 116];
    assert(exit_word@ =~= exit_command());
    if bytes_eq(input.as_bytes(), &exit_word) {
        Ok(MetaCommand::Exit)
    } else {
        Err(MetaCommandError::Unrecognized)
    }
}

} // verus!
