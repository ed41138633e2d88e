//! The line `insert <id> <username> <email>` for given fields, and the law that
//! preparing it gives back an insert of exactly those fields.
use vstd::prelude::*;
use crate::components::row::RowView;
use crate::consts::{EMAIL_SIZE, USERNAME_SIZE};
use crate::errors::ParseError;
use crate::parser::{
    all_digits, digits_part, digits_value, is_digit, parse_u32_spec, skip_ws, token_end, tokens,
    tokens_from, trim_back, trimmed, ws_end_len, ws_len,
};
use crate::util::{insert_keyword, is_command, pad, spec_prepare};
use crate::StatementView;

verus! {

/// The decimal digits of `n`, without leading zeros.
pub open spec fn decimal(n: nat) -> Seq<u8>
    decreases n,
{
    if n < 10 {
        seq![(48 + n) as u8]
    } else {
        decimal(n / 10).push((48 + n % 10) as u8)
    }
}

/// A non-empty run of bytes in which no whitespace character starts.
pub open spec fn is_word(w: Seq<u8>) -> bool {
    &&& w.len() > 0
    &&& forall|k: int| 0 <= k < w.len() ==> ws_len(w, k) == 0
}

/// The line `insert <id_word> <username> <email>`, the words separated by single spaces.
pub open spec fn insert_words_line(id_word: Seq<u8>, username: Seq<u8>, email: Seq<u8>) -> Seq<u8> {
    insert_keyword() + seq![32u8] + id_word + seq![32u8] + username + seq![32u8] + email
}

/// The line `insert <id> <username> <email>`, the words separated by single spaces.
pub open spec fn insert_line(id: u32, username: Seq<u8>, email: Seq<u8>) -> Seq<u8> {
    insert_words_line(decimal(id as nat), username, email)
}

proof fn lemma_decimal(n: nat)
    ensures
        decimal(n).len() > 0,
        all_digits(decimal(n)),
        digits_value(decimal(n)) == n,
        decimal(n)[0] != 43,
        decimal(n)[0] != 45,
    decreases n,
{
    let d = decimal(n);
    if n < 10 {
        assert(d.drop_last() =~= Seq::<u8>::empty());
        assert(digits_value(d) == digits_value(d.drop_last()) * 10 + (d.last() - 48) as nat);
    } else {
        lemma_decimal(n / 10);
        assert(d.drop_last() =~= decimal(n / 10));
        assert(d.last() == 48 + n % 10);
        assert(digits_value(d) == digits_value(d.drop_last()) * 10 + (d.last() - 48) as nat);
        assert forall|i: int| 0 <= i < d.len() implies is_digit(#[trigger] d[i]) by {
            if i < d.len() - 1 {
                assert(d[i] == decimal(n / 10)[i]);
            }
        }
    }
}

proof fn lemma_decimal_is_word(n: nat)
    ensures
        is_word(decimal(n)),
{
    lemma_decimal(n);
    let d = decimal(n);
    assert forall|k: int| 0 <= k < d.len() implies ws_len(d, k) == 0 by {
        assert(is_digit(d[k]));
    }
}

/// No whitespace character starts inside a word that is followed by a space or by the
/// end of the line.
proof fn lemma_ws_in_word(b: Seq<u8>, off: int, w: Seq<u8>, k: int)
    requires
        is_word(w),
        0 <= off,
        off + w.len() <= b.len(),
        b.subrange(off, off + w.len()) == w,
        off + w.len() == b.len() || b[off + w.len()] == 32,
        0 <= k < w.len(),
    ensures
        ws_len(b, off + k) == 0,
{
    let i = off + k;
    let e = off + w.len();
    assert(ws_len(w, k) == 0);
    assert(b[i] == w[k]);
    if i + 1 < e {
        assert(b[i + 1] == w[k + 1]);
    }
    if i + 2 < e {
        assert(b[i + 2] == w[k + 2]);
    }
}

/// The word `w` at `off`, followed by a space or the end of the line, is a token that
/// ends where `w` ends.
proof fn lemma_word_token(b: Seq<u8>, off: int, w: Seq<u8>)
    requires
        is_word(w),
        0 <= off,
        off + w.len() <= b.len(),
        b.subrange(off, off + w.len()) == w,
        off + w.len() == b.len() || b[off + w.len()] == 32,
    ensures
        tokens_from(b, off) == seq![w] + tokens_from(b, off + w.len()),
{
    let e = off + w.len();
    lemma_ws_in_word(b, off, w, 0);
    lemma_token_end_at(b, off, w, off + 1);
    assert(token_end(b, off + 1) == e);
}

proof fn lemma_token_end_at(b: Seq<u8>, off: int, w: Seq<u8>, j: int)
    requires
        is_word(w),
        0 <= off,
        off + w.len() <= b.len(),
        b.subrange(off, off + w.len()) == w,
        off + w.len() == b.len() || b[off + w.len()] == 32,
        off < j <= off + w.len(),
    ensures
        token_end(b, j) == off + w.len(),
    decreases off + w.len() - j,
{
    if j < off + w.len() {
        lemma_ws_in_word(b, off, w, j - off);
        lemma_token_end_at(b, off, w, j + 1);
    }
}

/// The line `insert <id_word> <username> <email>` of three words is already trimmed,
/// starts with the `insert` command and splits into exactly its four words.
pub proof fn lemma_insert_words_line_tokens(id_word: Seq<u8>, username: Seq<u8>, email: Seq<u8>)
    requires
        is_word(id_word),
        is_word(username),
        is_word(email),
    ensures
        trimmed(insert_words_line(id_word, username, email)) == insert_words_line(
            id_word,
            username,
            email,
        ),
        is_command(insert_words_line(id_word, username, email), insert_keyword()),
        tokens(insert_words_line(id_word, username, email)) == seq![
            insert_keyword(),
            id_word,
            username,
            email,
        ],
{
    let kw = insert_keyword();
    let d = id_word;
    let b = insert_words_line(id_word, username, email);
    assert(is_word(kw)) by {
        assert forall|k: int| 0 <= k < kw.len() implies ws_len(kw, k) == 0 by {}
    }
    let o1: int = 7;
    let o2: int = o1 + d.len() + 1;
    let o3: int = o2 + username.len() + 1;
    let n: int = b.len() as int;
    assert(n == o3 + email.len());
    assert(b.subrange(0, 6) =~= kw);
    assert(b.subrange(o1, o1 + d.len()) =~= d);
    assert(b.subrange(o2, o2 + username.len()) =~= username);
    assert(b.subrange(o3, n) =~= email);
    assert(b[6] == 32);
    assert(b[o1 + d.len()] == 32);
    assert(b[o2 + username.len()] == 32);
    // The tokens are the four words.
    lemma_word_token(b, 0, kw);
    lemma_word_token(b, o1, d);
    lemma_word_token(b, o2, username);
    lemma_word_token(b, o3, email);
    assert(tokens_from(b, 6) == tokens_from(b, o1));
    assert(tokens_from(b, o1 + d.len()) == tokens_from(b, o2));
    assert(tokens_from(b, o2 + username.len()) == tokens_from(b, o3));
    assert(tokens_from(b, n) =~= Seq::<Seq<u8>>::empty());
    assert(tokens(b) =~= seq![kw, d, username, email]);
    // Nothing to trim: the line starts and ends inside words.
    lemma_ws_in_word(b, 0, kw, 0);
    assert(skip_ws(b, 0) == 0);
    lemma_ws_in_word(b, o3, email, email.len() - 1);
    if email.len() >= 2 {
        lemma_ws_in_word(b, o3, email, email.len() - 2);
    } else {
        assert(ws_len(b, n - 2) != 2);
    }
    if email.len() >= 3 {
        lemma_ws_in_word(b, o3, email, email.len() - 3);
    } else {
        assert(ws_len(b, n - 3) != 3);
    }
    assert(ws_end_len(b, n) == 0);
    assert(trim_back(b, 0, n) == n);
    assert(trimmed(b) =~= b);
    assert(is_command(b, kw));
}

/// Preparing the line `insert <id> <username> <email>` gives an insert of a row with that
/// id and with the two words, zero-padded, as its text fields, where the words hold no
/// whitespace and fit their fields.
pub proof fn lemma_insert_line_parses(id: u32, username: Seq<u8>, email: Seq<u8>)
    requires
        is_word(username),
        is_word(email),
        username.len() <= USERNAME_SIZE,
        email.len() <= EMAIL_SIZE,
    ensures
        trimmed(insert_line(id, username, email)) == insert_line(id, username, email),
        spec_prepare(insert_line(id, username, email)) == Ok::<StatementView, ParseError>(
            StatementView::Insert(
                RowView {
                    id,
                    username: pad(username, USERNAME_SIZE as nat),
                    email: pad(email, EMAIL_SIZE as nat),
                },
            ),
        ),
{
    let d = decimal(id as nat);
    lemma_decimal(id as nat);
    lemma_decimal_is_word(id as nat);
    lemma_insert_words_line_tokens(d, username, email);
    assert(digits_part(d) == d);
    assert(parse_u32_spec(d) == Some(id));
}

/// Preparing the line `insert <id> <username> <email>` refuses it as too long whenever the
/// username has more bytes than its field or the email more than its field, whatever the
/// id and the words.
pub proof fn lemma_insert_line_too_long(id: u32, username: Seq<u8>, email: Seq<u8>)
    requires
        is_word(username),
        is_word(email),
        username.len() > USERNAME_SIZE || email.len() > EMAIL_SIZE,
    ensures
        trimmed(insert_line(id, username, email)) == insert_line(id, username, email),
        spec_prepare(insert_line(id, username, email)) == Err::<StatementView, ParseError>(
            ParseError::StringTooLong,
        ),
{
    let d = decimal(id as nat);
    lemma_decimal(id as nat);
    lemma_decimal_is_word(id as nat);
    lemma_insert_words_line_tokens(d, username, email);
    assert(digits_part(d) == d);
    assert(parse_u32_spec(d) == Some(id));
}

/// An insert line whose id word starts with `-` is refused for a negative id, whatever
/// follows the sign and whatever the other words are.
pub proof fn lemma_negative_id_refused(id_word: Seq<u8>, username: Seq<u8>, email: Seq<u8>)
    requires
        is_word(id_word),
        id_word[0] == 45,
        is_word(username),
        is_word(email),
    ensures
        trimmed(insert_words_line(id_word, username, email)) == insert_words_line(
            id_word,
            username,
            email,
        ),
        spec_prepare(insert_words_line(id_word, username, email)) == Err::<
            StatementView,
            ParseError,
        >(ParseError::NegativeId),
{
    lemma_insert_words_line_tokens(id_word, username, email);
}

} // verus!
