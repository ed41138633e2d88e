//! A position in the table: a page and a row slot within it.
use vstd::prelude::*;
use crate::components::table::{lemma_row_position, row_offset, row_page, Table};
use crate::consts::{ROWS_PER_PAGE, ROW_SIZE, TABLE_MAX_PAGES, TABLE_MAX_ROWS};
use crate::encoding::{array_range_mut, splice};
use crate::util::get_page;

verus! {

pub struct Cursor {
    pub page_num: usize,
    pub cell_num: usize,
    pub end_of_table: bool,
}

/// The page and the offset of the row a well-formed cursor stands on.
pub proof fn lemma_cursor_slot(c: Cursor)
    requires
        c.wf(),
    ensures
        row_page(c.position()) == c.page_num,
        row_offset(c.position()) == c.cell_num * ROW_SIZE,
{
    crate::consts::lemma_layout_values();
    let pos = c.page_num * 14 + c.cell_num;
    assert(pos / 14 == c.page_num && pos % 14 == c.cell_num) by (nonlinear_arith)
        requires
            pos == c.page_num * 14 + c.cell_num,
            0 <= c.cell_num < 14,
    ;
}

impl Cursor {
    /// The row number the cursor stands on.
    pub open spec fn position(&self) -> int {
        self.page_num * ROWS_PER_PAGE + self.cell_num
    }

    /// The page and slot are those of `position()`.
    pub open spec fn wf(&self) -> bool {
        self.cell_num < ROWS_PER_PAGE
    }

    /// A cursor on the first row; at the end when the table is empty.
    pub fn table_start(table: &Table) -> (cursor: Cursor)
        ensures
            cursor.wf(),
            cursor.position() == 0,
            cursor.end_of_table == (table.num_rows == 0),
    {
        proof {
            crate::consts::lemma_layout_values();
        }
        Cursor { page_num: 0, cell_num: 0, end_of_table: table.num_rows == 0 }
    }

    /// A cursor just past the last row.
    pub fn table_end(table: &Table) -> (cursor: Cursor)
        ensures
            cursor.wf(),
            cursor.position() == table.num_rows,
            cursor.end_of_table,
    {
        proof {
            crate::consts::lemma_layout_values();
        }
        Cursor {
            page_num: table.num_rows / ROWS_PER_PAGE,
            cell_num: table.num_rows % ROWS_PER_PAGE,
            end_of_table: true,
        }
    }

    /// Moves to the next row; the cursor is at the end once it passes the last row.
    pub fn advance(&mut self, table: &Table)
        requires
            old(self).wf(),
            old(self).page_num < usize::MAX,
        ensures
            final(self).wf(),
            final(self).position() == old(self).position() + 1,
            final(self).end_of_table == (old(self).end_of_table || final(self).position()
                >= table.num_rows),
    {
        proof {
            crate::consts::lemma_layout_values();
        }
        self.cell_num = self.cell_num + 1;
        if self.cell_num == ROWS_PER_PAGE {
            self.page_num = self.page_num + 1;
            self.cell_num = 0;
        }
        let last_page = table.num_rows / ROWS_PER_PAGE;
        let last_cell = table.num_rows % ROWS_PER_PAGE;
        proof {
            let n = table.num_rows as int;
            let p = self.page_num as int;
            let c = self.cell_num as int;
            assert((p * 14 + c >= n) == (p > n / 14 || (p == n / 14 && c >= n % 14))) by (nonlinear_arith)
                requires
                    0 <= c < 14,
                    0 <= p,
                    0 <= n,
            ;
        }
        if self.page_num > last_page || (self.page_num == last_page && self.cell_num >= last_cell) {
            self.end_of_table = true;
        }
    }

    /// The `ROW_SIZE` bytes of the row slot the cursor stands on, lent out for writing;
    /// the slot's page is read from the file first where it is not cached yet.
    pub fn value<'a>(&self, table: &'a mut Table) -> (slot: &'a mut [u8])
        requires
            old(table).wf(),
            self.wf(),
            self.page_num < TABLE_MAX_PAGES,
        ensures
            slot@ == old(table).pager.page(self.page_num as int).subrange(
                row_offset(self.position()),
                row_offset(self.position()) + ROW_SIZE,
            ),
            slot@.len() == ROW_SIZE,
            final(slot)@.len() == ROW_SIZE,
            final(table).num_rows == old(table).num_rows,
            final(table).pager.file_length == old(table).pager.file_length,
            final(table).pager.file@ == old(table).pager.file@,
            final(table).pager.num_pages == (if self.page_num < old(table).pager.num_pages {
                old(table).pager.num_pages
            } else {
                (self.page_num + 1) as usize
            }),
            final(table).pager.wf(),
            final(table).pager.pages@.len() == old(table).pager.pages@.len(),
            final(table).pager.pages@[self.page_num as int] is Some,
            final(table).pager.page(self.page_num as int) == splice(
                old(table).pager.page(self.page_num as int),
                row_offset(self.position()),
                final(slot)@,
            ),
            forall|q: int|
                0 <= q < TABLE_MAX_PAGES && q != self.page_num ==> final(table).pager.pages@[q]
                    == old(table).pager.pages@[q],
    {
        proof {
            crate::consts::lemma_layout_values();
            lemma_cursor_slot(*self);
            lemma_row_position(self.position());
        }
        let page = get_page(&mut table.pager, self.page_num);
        let start = self.cell_num * ROW_SIZE;
        array_range_mut(page, start, start + ROW_SIZE)
    }
}

} // verus!
