//! The table: `num_rows` rows stored back to back, `ROWS_PER_PAGE` to a page.
use vstd::prelude::*;
use crate::components::pager::{file_page, file_page_byte, Pager};
use crate::components::row::{row_bytes, row_from_bytes, RowView};
use crate::encoding::splice;
use crate::consts::{PAGE_SIZE, ROWS_PER_PAGE, ROW_SIZE, TABLE_MAX_PAGES, TABLE_MAX_ROWS};

verus! {

pub struct Table {
    pub num_rows: usize,
    pub pager: Pager,
}

/// The page that holds row `r`.
pub open spec fn row_page(r: int) -> int {
    r / ROWS_PER_PAGE as int
}

/// Offset of row `r` within its page.
pub open spec fn row_offset(r: int) -> int {
    (r % ROWS_PER_PAGE as int) * ROW_SIZE
}

/// The bytes of row `r` in the pages of `pager`.
pub open spec fn row_slot(pager: Pager, r: int) -> Seq<u8> {
    pager.page(row_page(r)).subrange(row_offset(r), row_offset(r) + ROW_SIZE)
}

/// Row `r` lies wholly inside a file of `len` bytes.
pub open spec fn row_in_file(len: int, r: int) -> bool {
    row_page(r) * PAGE_SIZE + row_offset(r) + ROW_SIZE <= len
}

/// The pager's page count after rows `0..rows` were fetched through it, starting from
/// a count of `np`: at least one more than the page of the last of those rows.
pub open spec fn pages_touched(np: int, rows: int) -> int {
    if rows > 0 && row_page(rows - 1) + 1 > np {
        row_page(rows - 1) + 1
    } else {
        np
    }
}

/// Where rows fall in pages: a row lies inside its page, and row `r` and the rows
/// before it in the same page do not overlap.
pub proof fn lemma_row_position(r: int)
    requires
        0 <= r,
    ensures
        0 <= row_page(r),
        0 <= row_offset(r),
        row_offset(r) + ROW_SIZE <= PAGE_SIZE,
        r < TABLE_MAX_ROWS ==> row_page(r) < TABLE_MAX_PAGES,
        row_page(r) * ROWS_PER_PAGE + row_offset(r) / (ROW_SIZE as int) == r,
        row_offset(r) % (ROW_SIZE as int) == 0,
{
    crate::consts::lemma_layout_values();
    let q = r / 14;
    let m = r % 14;
    assert(0 <= m < 14);
    assert(m * 291 <= 13 * 291) by (nonlinear_arith)
        requires
            m < 14,
    ;
    assert(m * 291 >= 0) by (nonlinear_arith)
        requires
            m >= 0,
    ;
    assert((m * 291) / 291 == m) by (nonlinear_arith);
    assert((m * 291) % 291 == 0) by (nonlinear_arith);
}

/// Two different rows in the same page occupy disjoint bytes.
pub proof fn lemma_rows_disjoint(r: int, s: int)
    requires
        0 <= r,
        0 <= s,
        r != s,
        row_page(r) == row_page(s),
    ensures
        row_offset(r) + ROW_SIZE <= row_offset(s) || row_offset(s) + ROW_SIZE <= row_offset(r),
{
    crate::consts::lemma_layout_values();
    let a = r % 14;
    let b = s % 14;
    assert(a != b);
    if a < b {
        assert(a * 291 + 291 <= b * 291) by (nonlinear_arith)
            requires
                a < b,
        ;
    } else {
        assert(b * 291 + 291 <= a * 291) by (nonlinear_arith)
            requires
                b < a,
        ;
    }
}

/// Tables over the same file whose pages hold the same bytes, where the new one has
/// every page cached that the old one has, hold the same rows.
pub proof fn lemma_same_rows(old_t: Table, new_t: Table)
    requires
        old_t.wf(),
        new_t.pager.wf(),
        new_t.num_rows == old_t.num_rows,
        new_t.pager.file@ == old_t.pager.file@,
        forall|q: int|
            0 <= q < TABLE_MAX_PAGES ==> #[trigger] new_t.pager.page(q) == old_t.pager.page(q),
        forall|q: int|
            0 <= q < TABLE_MAX_PAGES && (#[trigger] old_t.pager.pages@[q]) is Some
                ==> new_t.pager.pages@[q] is Some,
    ensures
        new_t.wf(),
        new_t@ == old_t@,
{
    assert forall|r: int| 0 <= r < new_t.num_rows implies (#[trigger] new_t.pager.pages@[row_page(
        r,
    )]) is Some || row_in_file(new_t.pager.file@.len() as int, r) by {
        lemma_row_position(r);
        assert(old_t.pager.pages@[row_page(r)] is Some || row_in_file(old_t.pager.file@.len() as int, r));
    }
    assert forall|r: int| 0 <= r < new_t.num_rows implies row_slot(new_t.pager, r) == row_slot(
        old_t.pager,
        r,
    ) by {
        lemma_row_position(r);
        assert(new_t.pager.page(row_page(r)) == old_t.pager.page(row_page(r)));
    }
    assert(new_t@ =~= old_t@);
}

/// The number of rows a file of `len` bytes holds: `ROWS_PER_PAGE` for each whole page,
/// and as many whole rows as fit in the bytes of a last, partial page.
pub open spec fn rows_in_file(len: int) -> int {
    (len / PAGE_SIZE as int) * ROWS_PER_PAGE + (len % PAGE_SIZE as int) / ROW_SIZE as int
}

/// The length of the file that stores `n` rows: the whole pages, then the rows of the
/// last page.
pub open spec fn file_len(n: int) -> int {
    (n / ROWS_PER_PAGE as int) * PAGE_SIZE + (n % ROWS_PER_PAGE as int) * ROW_SIZE
}

/// The bytes of the file that stores the first `n` rows of the pages of `pager`.
pub open spec fn file_image(pager: Pager, n: int) -> Seq<u8> {
    Seq::new(file_len(n) as nat, |i: int| pager.page(i / PAGE_SIZE as int)[i % PAGE_SIZE as int])
}

/// The number of rows of the table stored in a file of `len` bytes: the rows the file
/// holds, up to `TABLE_MAX_ROWS`.
pub open spec fn rows_opened(len: int) -> int {
    if rows_in_file(len) < TABLE_MAX_ROWS {
        rows_in_file(len)
    } else {
        TABLE_MAX_ROWS as int
    }
}

/// Every row that a file of `len` bytes counts lies wholly inside the file.
proof fn lemma_rows_in_file_fit(len: int, r: int)
    requires
        0 <= len,
        0 <= r < rows_in_file(len),
    ensures
        row_in_file(len, r),
{
    crate::consts::lemma_layout_values();
    let p = row_page(r);
    let o = row_offset(r);
    assert(p * 4096 + o + 291 <= len) by (nonlinear_arith)
        requires
            0 <= r < (len / 4096) * 14 + (len % 4096) / 291,
            p == r / 14,
            o == (r % 14) * 291,
            0 <= len,
    ;
}

proof fn lemma_rows_in_file_len(n: int)
    requires
        0 <= n,
    ensures
        rows_in_file(file_len(n)) == n,
{
    crate::consts::lemma_layout_values();
    let len = file_len(n);
    assert(rows_in_file(len) == n) by (nonlinear_arith)
        requires
            len == (n / 14) * 4096 + (n % 14) * 291,
            rows_in_file(len) == (len / 4096) * 14 + (len % 4096) / 291,
            0 <= n,
    ;
}

/// Byte `k` of row `r` lies at file offset `row_page(r) * PAGE_SIZE + row_offset(r) + k`,
/// inside the file of `n > r` rows.
proof fn lemma_row_byte_in_file(n: int, r: int, k: int)
    requires
        0 <= r < n,
        0 <= k < ROW_SIZE,
    ensures
        ({
            let i = row_page(r) * PAGE_SIZE + row_offset(r) + k;
            &&& 0 <= i < file_len(n)
            &&& i / PAGE_SIZE as int == row_page(r)
            &&& i % PAGE_SIZE as int == row_offset(r) + k
        }),
{
    crate::consts::lemma_layout_values();
    lemma_row_position(r);
    let p = row_page(r);
    let o = row_offset(r);
    let i = p * 4096 + o + k;
    let len = file_len(n);
    assert(0 <= i < len && i / 4096 == p && i % 4096 == o + k) by (nonlinear_arith)
        requires
            i == p * 4096 + o + k,
            p == r / 14,
            o == (r % 14) * 291,
            0 <= k < 291,
            0 <= r < n,
            len == (n / 14) * 4096 + (n % 14) * 291,
    ;
}

/// Storing the rows in a file and opening the file gives back the rows.
pub proof fn lemma_file_roundtrip(t: Table, contents: Seq<u8>, reopened: Table)
    requires
        t.wf(),
        contents == file_image(t.pager, t.num_rows as int),
        reopened.num_rows == rows_opened(contents.len() as int),
        reopened.pager.file@ == contents,
        forall|p: int| 0 <= p < TABLE_MAX_PAGES ==> (#[trigger] reopened.pager.pages@[p]) is None,
    ensures
        reopened@ == t@,
{
    let n = t.num_rows as int;
    lemma_rows_in_file_len(n);
    crate::consts::lemma_layout_values();
    assert(file_len(n) >= 0) by (nonlinear_arith)
        requires
            file_len(n) == (n / 14) * 4096 + (n % 14) * 291,
            n >= 0,
    ;
    assert(contents.len() == file_len(n));
    assert(reopened.num_rows == n);
    assert forall|r: int| 0 <= r < n implies row_slot(reopened.pager, r) == row_slot(t.pager, r) by {
        lemma_row_position(r);
        let p = row_page(r);
        let o = row_offset(r);
        assert(reopened.pager.pages@[p] is None);
        assert forall|k: int| 0 <= k < ROW_SIZE implies #[trigger] row_slot(reopened.pager, r)[k]
            == row_slot(t.pager, r)[k] by {
            lemma_row_byte_in_file(n, r, k);
            assert(reopened.pager.page(p)[o + k] == file_page_byte(contents, p, o + k));
        }
        assert(row_slot(reopened.pager, r) =~= row_slot(t.pager, r));
    }
    assert(reopened@ =~= t@);
}

/// The two tables are over the same file and their pages hold the same bytes.
pub open spec fn same_page_bytes(a: Table, b: Table) -> bool {
    &&& a.pager.file@ == b.pager.file@
    &&& forall|q: int| 0 <= q < TABLE_MAX_PAGES ==> #[trigger] a.pager.page(q) == b.pager.page(q)
}

/// `new` is over the same file as `old`, and its pages are those of `old` with `row`
/// written into the slot of row `old.num_rows`.
pub open spec fn row_written(old: Table, new: Table, row: RowView) -> bool {
    let n = old.num_rows as int;
    &&& new.pager.file@ == old.pager.file@
    &&& forall|q: int|
        0 <= q < TABLE_MAX_PAGES ==> #[trigger] new.pager.page(q) == if q == row_page(n) {
            splice(old.pager.page(q), row_offset(n), row_bytes(row))
        } else {
            old.pager.page(q)
        }
}

impl View for Table {
    type V = Seq<RowView>;

    /// The rows of the table, in the order they were inserted.
    open spec fn view(&self) -> Seq<RowView> {
        Seq::new(self.num_rows as nat, |r: int| row_from_bytes(row_slot(self.pager, r)))
    }
}

impl Table {
    /// The row count stays within `TABLE_MAX_ROWS`, and every row lies in a cached page
    /// or wholly inside the file.
    pub open spec fn wf(&self) -> bool {
        &&& self.pager.wf()
        &&& self.num_rows <= TABLE_MAX_ROWS
        &&& forall|r: int|
            0 <= r < self.num_rows ==> (#[trigger] self.pager.pages@[row_page(r)]) is Some
                || row_in_file(self.pager.file@.len() as int, r)
    }

    /// An empty table over an empty file.
    pub fn new() -> (table: Table)
        ensures
            table.wf(),
            table@ == Seq::<RowView>::empty(),
            table.num_rows == 0,
            table.pager.file@ == Seq::<u8>::empty(),
            table.pager.num_pages == 0,
    {
        let table = Table { num_rows: 0, pager: Pager::open(Vec::new()) };
        assert(table@ =~= Seq::<RowView>::empty());
        table
    }

    /// The table stored in a file with bytes `contents`: as many rows as the file
    /// holds, up to `TABLE_MAX_ROWS`, with no page read yet.
    pub fn db_open(contents: Vec<u8>) -> (table: Table)
        ensures
            table.wf(),
            table.num_rows == rows_opened(contents@.len() as int),
            table.pager.file@ == contents@,
            table.pager.file_length == contents@.len(),
            table.pager.num_pages == 0,
            forall|p: int| 0 <= p < TABLE_MAX_PAGES ==> (#[trigger] table.pager.pages@[p]) is None,
    {
        let len = contents.len();
        proof {
            crate::consts::lemma_layout_values();
        }
        let in_file = (len / PAGE_SIZE) * ROWS_PER_PAGE + (len % PAGE_SIZE) / ROW_SIZE;
        let num_rows = if in_file < TABLE_MAX_ROWS { in_file } else { TABLE_MAX_ROWS };
        let pager = Pager::open(contents);
        let table = Table { num_rows, pager };
        proof {
            assert forall|r: int| 0 <= r < num_rows implies (#[trigger] table.pager.pages@[row_page(r)]) is Some
                || row_in_file(table.pager.file@.len() as int, r) by {
                lemma_rows_in_file_fit(len as int, r);
            }
        }
        table
    }

    /// The bytes of the file that stores the table: every whole page of rows, then the
    /// rows of the last page.
    pub fn db_close(&self) -> (contents: Vec<u8>)
        requires
            self.wf(),
        ensures
            contents@ == file_image(self.pager, self.num_rows as int),
    {
        proof {
            crate::consts::lemma_layout_values();
        }
        let n = self.num_rows;
        let len = (n / ROWS_PER_PAGE) * PAGE_SIZE + (n % ROWS_PER_PAGE) * ROW_SIZE;
        assert(len <= TABLE_MAX_PAGES * PAGE_SIZE) by (nonlinear_arith)
            requires
                len == (n / 14) * 4096 + (n % 14) * 291,
                n <= 1400,
        ;
        let mut contents: Vec<u8> = Vec::with_capacity(len);
        let mut i: usize = 0;
        while i < len
            invariant
                self.pager.wf(),
                len <= TABLE_MAX_PAGES * PAGE_SIZE,
                i <= len,
                contents@.len() == i,
                forall|j: int|
                    0 <= j < i ==> #[trigger] contents@[j] == self.pager.page(
                        j / PAGE_SIZE as int,
                    )[j % PAGE_SIZE as int],
            decreases len - i,
        {
            let page_num = i / PAGE_SIZE;
            let k = i % PAGE_SIZE;
            let byte = match &self.pager.pages[page_num] {
                Some(page) => page[k],
                None => if i < self.pager.file.len() {
                    self.pager.file[i]
                } else {
                    0
                },
            };
            proof {
                assert(page_num * PAGE_SIZE + k == i);
            }
            contents.push(byte);
            i = i + 1;
        }
        assert(contents@ =~= file_image(self.pager, self.num_rows as int));
        contents
    }
}

} // verus!
