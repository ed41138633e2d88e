//! A table row and its fixed-size byte layout.
use vstd::prelude::*;
use vstd::string::StringSliceAdditionalSpecFns;
use vstd::utf8::valid_utf8;
use crate::consts::{EMAIL_OFFSET, EMAIL_SIZE, ID_OFFSET, ROW_SIZE, USERNAME_OFFSET, USERNAME_SIZE};
use crate::encoding::{
    copy_into, lemma_native_roundtrip, native_bytes, native_value, splice, u32_from_ne_bytes,
    u32_to_ne_bytes,
};

verus! {

#[derive(Debug, Clone)]
pub struct Row {
    pub id: u32,
    pub username: [u8; USERNAME_SIZE],
    pub email: [u8; EMAIL_SIZE],
}

/// What a row holds: its id and the bytes of its two fixed-size text fields.
pub struct RowView {
    pub id: u32,
    pub username: Seq<u8>,
    pub email: Seq<u8>,
}

impl View for Row {
    type V = RowView;

    open spec fn view(&self) -> RowView {
        RowView { id: self.id, username: self.username@, email: self.email@ }
    }
}

impl RowView {
    /// Both text fields have their fixed sizes.
    pub open spec fn wf(self) -> bool {
        self.username.len() == USERNAME_SIZE && self.email.len() == EMAIL_SIZE
    }
}

/// The `ROW_SIZE` bytes that store a row: the id in the machine's byte order, then the
/// username, then the email.
pub open spec fn row_bytes(r: RowView) -> Seq<u8> {
    native_bytes(r.id) + r.username + r.email
}

/// The row stored in the first `ROW_SIZE` bytes of `b`.
pub open spec fn row_from_bytes(b: Seq<u8>) -> RowView {
    RowView {
        id: native_value(b.subrange(ID_OFFSET as int, USERNAME_OFFSET as int)),
        username: b.subrange(USERNAME_OFFSET as int, EMAIL_OFFSET as int),
        email: b.subrange(EMAIL_OFFSET as int, ROW_SIZE as int),
    }
}

/// Index of the first zero byte of `s` at or after `i`, or the length of `s`.
pub open spec fn first_nul_from(s: Seq<u8>, i: int) -> int
    decreases s.len() - i,
{
    if i >= s.len() || i < 0 {
        s.len() as int
    } else if s[i] == 0 {
        i
    } else {
        first_nul_from(s, i + 1)
    }
}

/// The bytes of a text field before its first zero byte.
pub open spec fn visible_text(s: Seq<u8>) -> Seq<u8> {
    s.subrange(0, first_nul_from(s, 0))
}

/// The first zero byte of `w` followed by zero bytes, from `i` on, is where `w` ends,
/// when `w` holds no zero byte.
proof fn lemma_first_nul_of_padded(w: Seq<u8>, n: nat, i: int)
    requires
        w.len() <= n,
        forall|k: int| 0 <= k < w.len() ==> w[k] != 0,
        0 <= i <= w.len(),
    ensures
        first_nul_from(crate::util::pad(w, n), i) == w.len(),
    decreases w.len() - i,
{
    let p = crate::util::pad(w, n);
    if i < w.len() {
        assert(p[i] == w[i]);
        lemma_first_nul_of_padded(w, n, i + 1);
    } else if i < n {
        assert(p[i] == 0);
    }
}

/// A text field that holds a word without zero bytes, padded with zero bytes, shows
/// exactly that word: the shown text ends at the first zero byte and nowhere else.
pub proof fn lemma_visible_text_of_padded(w: Seq<u8>, n: nat)
    requires
        w.len() <= n,
        forall|k: int| 0 <= k < w.len() ==> w[k] != 0,
    ensures
        visible_text(crate::util::pad(w, n)) == w,
{
    lemma_first_nul_of_padded(w, n, 0);
    assert(crate::util::pad(w, n).subrange(0, w.len() as int) =~= w);
}

/// Serializing a well-formed row and reading it back gives the row.
pub proof fn lemma_row_roundtrip(r: RowView)
    requires
        r.wf(),
    ensures
        row_bytes(r).len() == ROW_SIZE,
        row_from_bytes(row_bytes(r)) == r,
{
    lemma_native_roundtrip(r.id);
    let b = row_bytes(r);
    assert(b.subrange(0, 4) =~= native_bytes(r.id));
    assert(b.subrange(4, 36) =~= r.username);
    assert(b.subrange(36, 291) =~= r.email);
}

/// Calls `std::str::from_utf8`, which accepts exactly the valid UTF-8 byte sequences
/// and then returns a `str` with those bytes; the `Utf8Error` is dropped.
#[verifier::external_body]
fn str_from_utf8(b: &[u8]) -> (r: Option<&str>)
    ensures
        r is Some <==> valid_utf8(b@),
        r matches Some(s) ==> s.spec_bytes() == b@,
{
    std::str::from_utf8(b).ok()
}

/// The text of a field up to its first zero byte, or `fallback` where those bytes are
/// not valid UTF-8.
fn field_text<'a>(field: &'a [u8], fallback: &'a str) -> (t: &'a str)
    ensures
        valid_utf8(visible_text(field@)) ==> t.spec_bytes() == visible_text(field@),
        !valid_utf8(visible_text(field@)) ==> t == fallback,
{
    let n = field.len();
    let mut end: usize = 0;
    while end < n && field[end] != 0
        invariant
            n == field@.len(),
            0 <= end <= n,
            first_nul_from(field@, end as int) == first_nul_from(field@, 0),
        decreases n - end,
    {
        end = end + 1;
    }
    let visible = vstd::slice::slice_subrange(field, 0, end);
    match str_from_utf8(visible) {
        Some(s) => s,
        None => fallback,
    }
}

impl Row {
    /// Writes the row into the first `ROW_SIZE` bytes of `destination`.
    pub fn serialize(&self, destination: &mut [u8])
        requires
            old(destination)@.len() >= ROW_SIZE,
        ensures
            final(destination)@ == splice(old(destination)@, 0, row_bytes(self@)),
    {
        let id_bytes = u32_to_ne_bytes(self.id);
        copy_into(destination, ID_OFFSET, &id_bytes);
        copy_into(destination, USERNAME_OFFSET, &self.username);
        copy_into(destination, EMAIL_OFFSET, &self.email);
        assert(final(destination)@ =~= splice(old(destination)@, 0, row_bytes(self@)));
    }

    /// Reads the row stored in the first `ROW_SIZE` bytes of `source`.
    pub fn deserialize(source: &[u8]) -> (r: Self)
        requires
            source@.len() >= ROW_SIZE,
        ensures
            r@ == row_from_bytes(source@),
            r@.wf(),
    {
        let id_bytes = [source[0], source[1], source[2], source[3]];
        assert(id_bytes@ =~= source@.subrange(0, 4));
        let id = u32_from_ne_bytes(id_bytes);
        let mut username = [0u8; USERNAME_SIZE];
        let mut i: usize = 0;
        while i < USERNAME_SIZE
            invariant
                source@.len() >= ROW_SIZE,
                0 <= i <= USERNAME_SIZE,
                forall|j: int| 0 <= j < i ==> username@[j] == source@[USERNAME_OFFSET + j],
            decreases USERNAME_SIZE - i,
        {
            username[i] = source[USERNAME_OFFSET + i];
            i = i + 1;
        }
        let mut email = [0u8; EMAIL_SIZE];
        let mut k: usize = 0;
        while k < EMAIL_SIZE
            invariant
                source@.len() >= ROW_SIZE,
                0 <= k <= EMAIL_SIZE,
                forall|j: int| 0 <= j < k ==> email@[j] == source@[EMAIL_OFFSET + j],
            decreases EMAIL_SIZE - k,
        {
            email[k] = source[EMAIL_OFFSET + k];
            k = k + 1;
        }
        assert(username@ =~= source@.subrange(USERNAME_OFFSET as int, EMAIL_OFFSET as int));
        assert(email@ =~= source@.subrange(EMAIL_OFFSET as int, ROW_SIZE as int));
        Row { id, username, email }
    }

    /// The username as printed: its bytes before the first zero byte, or a fixed
    /// message where they are not valid UTF-8.
    pub fn username_text(&self) -> (t: &str)
        ensures
            valid_utf8(visible_text(self.username@)) ==> t.spec_bytes() == visible_text(self.username@),
            !valid_utf8(visible_text(self.username@)) ==> t@ == "Error parsing username."@,
    {
        field_text(&self.username, "Error parsing username.")
    }

    /// The email as printed: its bytes before the first zero byte, or a fixed message
    /// where they are not valid UTF-8.
    pub fn email_text(&self) -> (t: &str)
        ensures
            valid_utf8(visible_text(self.email@)) ==> t.spec_bytes() == visible_text(self.email@),
            !valid_utf8(visible_text(self.email@)) ==> t@ == "Error parsing Email."@,
    {
        field_text(&self.email, "Error parsing Email.")
    }
}

} // verus!
