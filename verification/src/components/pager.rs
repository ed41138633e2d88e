//! The page cache: up to `TABLE_MAX_PAGES` pages of `PAGE_SIZE` bytes over the bytes of
//! the database file. A page is read from the file the first time it is fetched.
use vstd::prelude::*;
use crate::consts::{PAGE_SIZE, TABLE_MAX_PAGES};

verus! {

pub struct Pager {
    /// The bytes of the database file.
    pub file: Vec<u8>,
    /// Length in bytes of the database file.
    pub file_length: u64,
    /// One more than the highest page number that holds a cached page.
    pub num_pages: usize,
    pub pages: Vec<Option<Box<[u8; PAGE_SIZE]>>>,
}

/// Byte `k` of page `p` of a file with bytes `contents`: the file's byte where the file
/// reaches that far, else zero.
pub open spec fn file_page_byte(contents: Seq<u8>, p: int, k: int) -> u8 {
    if p * PAGE_SIZE + k < contents.len() {
        contents[p * PAGE_SIZE + k]
    } else {
        0
    }
}

/// Page `p` as read from a file with bytes `contents`: the file's bytes of that page,
/// then zeros past the end of the file.
pub open spec fn file_page(contents: Seq<u8>, p: int) -> Seq<u8> {
    Seq::new(PAGE_SIZE as nat, |k: int| file_page_byte(contents, p, k))
}

impl Pager {
    /// There is a slot for every page number, no page is cached at or above
    /// `num_pages`, and `file_length` is the length of the file.
    pub open spec fn wf(&self) -> bool {
        &&& self.pages@.len() == TABLE_MAX_PAGES
        &&& self.num_pages <= TABLE_MAX_PAGES
        &&& forall|p: int| self.num_pages <= p < TABLE_MAX_PAGES ==> self.pages@[p] is None
        &&& self.file_length == self.file@.len()
    }

    /// The bytes of page `p`: its cached copy, or else the page as the file holds it.
    pub open spec fn page(&self, p: int) -> Seq<u8> {
        match self.pages@[p] {
            Some(b) => b@,
            None => file_page(self.file@, p),
        }
    }

    /// A page cache over a file with bytes `contents`, with no page cached yet.
    pub fn open(contents: Vec<u8>) -> (pager: Pager)
        ensures
            pager.wf(),
            pager.file@ == contents@,
            pager.file_length == contents@.len(),
            pager.num_pages == 0,
            forall|p: int| 0 <= p < TABLE_MAX_PAGES ==> pager.pages@[p] is None,
    {
        let mut pages: Vec<Option<Box<[u8; PAGE_SIZE]>>> = Vec::with_capacity(TABLE_MAX_PAGES);
        let mut i: usize = 0;
        while i < TABLE_MAX_PAGES
            invariant
                i <= TABLE_MAX_PAGES,
                pages@.len() == i,
                forall|p: int| 0 <= p < i ==> pages@[p] is None,
            decreases TABLE_MAX_PAGES - i,
        {
            pages.push(None);
            i = i + 1;
        }
        let file_length = contents.len() as u64;
        Pager { file: contents, file_length, num_pages: 0, pages }
    }
}

/// Page `page_num` as read from the file: its bytes, then zeros past the end of the file.
pub fn read_file_page(file: &Vec<u8>, page_num: usize) -> (page: [u8; PAGE_SIZE])
    requires
        page_num < TABLE_MAX_PAGES,
    ensures
        page@ == file_page(file@, page_num as int),
{
    let len = file.len();
    let base = page_num * PAGE_SIZE;
    let mut page = [0u8; PAGE_SIZE];
    let mut k: usize = 0;
    while k < PAGE_SIZE
        invariant
            len == file@.len(),
            base == page_num * PAGE_SIZE,
            page_num < TABLE_MAX_PAGES,
            k <= PAGE_SIZE,
            forall|j: int| 0 <= j < k ==> page@[j] == file_page_byte(file@, page_num as int, j),
            forall|j: int| k <= j < PAGE_SIZE ==> page@[j] == 0,
        decreases PAGE_SIZE - k,
    {
        if base + k < len {
            page[k] = file[base + k];
        }
        k = k + 1;
    }
    assert(page@ =~= file_page(file@, page_num as int));
    page
}

} // verus!
