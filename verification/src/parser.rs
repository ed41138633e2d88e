//! Whitespace, trimming, splitting and number parsing on the UTF-8 bytes of a line.
use vstd::prelude::*;
use vstd::string::StringSliceAdditionalSpecFns;
use vstd::utf8::{
    encode_utf8_valid_utf8, is_char_boundary, is_char_boundary_iff_not_is_continuation_byte,
    is_char_boundary_start_end_of_seq, is_continuation_byte, length_of_first_scalar,
    pop_first_scalar, valid_utf8, valid_utf8_split,
};

verus! {

/// Length of the UTF-8 encoding of a whitespace character that starts at byte `i`, or 0
/// where none does. The whitespace characters are those of `char::is_whitespace`:
/// U+0009 to U+000D, U+0020, U+0085, U+00A0, U+1680, U+2000 to U+200A, U+2028, U+2029,
/// U+202F, U+205F and U+3000.
pub open spec fn ws_len(b: Seq<u8>, i: int) -> int {
    if i < 0 || i >= b.len() {
        0
    } else if (9 <= b[i] <= 13) || b[i] == 32 {
        1
    } else if b[i] == 0xc2 && i + 1 < b.len() && (b[i + 1] == 0x85 || b[i + 1] == 0xa0) {
        2
    } else if i + 2 < b.len() && ({
        ||| (b[i] == 0xe1 && b[i + 1] == 0x9a && b[i + 2] == 0x80)
        ||| (b[i] == 0xe2 && b[i + 1] == 0x80 && ((0x80 <= b[i + 2] <= 0x8a) || b[i + 2] == 0xa8
            || b[i + 2] == 0xa9 || b[i + 2] == 0xaf))
        ||| (b[i] == 0xe2 && b[i + 1] == 0x81 && b[i + 2] == 0x9f)
        ||| (b[i] == 0xe3 && b[i + 1] == 0x80 && b[i + 2] == 0x80)
    }) {
        3
    } else {
        0
    }
}

/// Length of the encoding of a whitespace character that ends just before byte `e`, or 0.
pub open spec fn ws_end_len(b: Seq<u8>, e: int) -> int {
    if ws_len(b, e - 1) == 1 {
        1
    } else if ws_len(b, e - 2) == 2 {
        2
    } else if ws_len(b, e - 3) == 3 {
        3
    } else {
        0
    }
}

/// The first index at or after `i` where no whitespace character starts.
pub open spec fn skip_ws(b: Seq<u8>, i: int) -> int
    decreases b.len() - i,
{
    if ws_len(b, i) > 0 {
        skip_ws(b, i + ws_len(b, i))
    } else {
        i
    }
}

/// The end left after removing whitespace characters from the end of `b[lo..e]`.
pub open spec fn trim_back(b: Seq<u8>, lo: int, e: int) -> int
    decreases e,
{
    if e > lo && ws_end_len(b, e) > 0 && e - ws_end_len(b, e) >= lo {
        trim_back(b, lo, e - ws_end_len(b, e))
    } else {
        e
    }
}

/// Start of `b` after leading whitespace is removed, as `str::trim` does.
pub open spec fn trim_start(b: Seq<u8>) -> int {
    skip_ws(b, 0)
}

/// End of `b` after trailing whitespace is removed, as `str::trim` does.
pub open spec fn trim_end(b: Seq<u8>) -> int {
    trim_back(b, trim_start(b), b.len() as int)
}

/// The bytes of `b` without leading and trailing whitespace.
pub open spec fn trimmed(b: Seq<u8>) -> Seq<u8> {
    b.subrange(trim_start(b), trim_end(b))
}

/// The first index at or after `i` where a whitespace character starts, or the end.
pub open spec fn token_end(b: Seq<u8>, i: int) -> int
    decreases b.len() - i,
{
    if i < 0 || i >= b.len() || ws_len(b, i) > 0 {
        i
    } else {
        token_end(b, i + 1)
    }
}

pub proof fn lemma_ws_len_bounds(b: Seq<u8>, i: int)
    ensures
        0 <= ws_len(b, i) <= 3,
        ws_len(b, i) > 0 ==> 0 <= i && i + ws_len(b, i) <= b.len(),
{
}

pub proof fn lemma_token_end_bounds(b: Seq<u8>, i: int)
    requires
        0 <= i <= b.len(),
    ensures
        i <= token_end(b, i) <= b.len(),
    decreases b.len() - i,
{
    if i < b.len() && ws_len(b, i) == 0 {
        lemma_token_end_bounds(b, i + 1);
    }
}

/// The whitespace-separated words of `b` from byte `i` on, as `str::split_whitespace`
/// gives them.
pub open spec fn tokens_from(b: Seq<u8>, i: int) -> Seq<Seq<u8>>
    decreases b.len() - i,
{
    if i < 0 || i >= b.len() {
        Seq::empty()
    } else if ws_len(b, i) > 0 {
        tokens_from(b, i + ws_len(b, i))
    } else {
        let j = token_end(b, i + 1);
        proof {
            lemma_token_end_bounds(b, i + 1);
        }
        seq![b.subrange(i, j)] + tokens_from(b, j)
    }
}

/// The whitespace-separated words of `b`.
pub open spec fn tokens(b: Seq<u8>) -> Seq<Seq<u8>> {
    tokens_from(b, 0)
}

pub open spec fn is_digit(c: u8) -> bool {
    48 <= c <= 57
}

pub open spec fn all_digits(s: Seq<u8>) -> bool {
    forall|i: int| 0 <= i < s.len() ==> is_digit(#[trigger] s[i])
}

/// The value of a string of decimal digits.
pub open spec fn digits_value(s: Seq<u8>) -> nat
    decreases s.len(),
{
    if s.len() == 0 {
        0
    } else {
        digits_value(s.drop_last()) * 10 + (s.last() - 48) as nat
    }
}

/// The digits of a number: `s` without one leading `+`.
pub open spec fn digits_part(s: Seq<u8>) -> Seq<u8> {
    if s.len() > 0 && s[0] == 43 {
        s.drop_first()
    } else {
        s
    }
}

/// What `str::parse::<u32>` gives for `s`: an optional `+`, then one or more decimal
/// digits whose value fits in a `u32`.
pub open spec fn parse_u32_spec(s: Seq<u8>) -> Option<u32> {
    let d = digits_part(s);
    if d.len() == 0 || !all_digits(d) || digits_value(d) > u32::MAX {
        None
    } else {
        Some(digits_value(d) as u32)
    }
}

proof fn lemma_digits_value_prefix(s: Seq<u8>, k: int)
    requires
        all_digits(s),
        0 <= k <= s.len(),
    ensures
        digits_value(s.subrange(0, k)) <= digits_value(s),
    decreases s.len(),
{
    if k < s.len() {
        assert(s.drop_last() =~= s.subrange(0, s.len() - 1));
        assert(s.subrange(0, k) =~= s.drop_last().subrange(0, k));
        lemma_digits_value_prefix(s.drop_last(), k);
    } else {
        assert(s.subrange(0, k) =~= s);
    }
}

/// `ws_len` on a byte slice.
pub fn ws_len_at(b: &[u8], i: usize) -> (w: usize)
    ensures
        w == ws_len(b@, i as int),
{
    let n = b.len();
    if i >= n {
        0
    } else {
        let c = b[i];
        if (9 <= c && c <= 13) || c == 32 {
            1
        } else if c == 0xc2 && i + 1 < n && (b[i + 1] == 0x85 || b[i + 1] == 0xa0) {
            2
        } else if n - i > 2 {
            let c1 = b[i + 1];
            let c2 = b[i + 2];
            if (c == 0xe1 && c1 == 0x9a && c2 == 0x80) || (c == 0xe2 && c1 == 0x80 && ((0x80
                <= c2 && c2 <= 0x8a) || c2 == 0xa8 || c2 == 0xa9 || c2 == 0xaf)) || (c == 0xe2
                && c1 == 0x81 && c2 == 0x9f) || (c == 0xe3 && c1 == 0x80 && c2 == 0x80) {
                3
            } else {
                0
            }
        } else {
            0
        }
    }
}

/// Bounds of `b` without leading and trailing whitespace, as `str::trim` computes them.
pub fn trim_bounds(b: &[u8]) -> (r: (usize, usize))
    ensures
        r.0 == trim_start(b@),
        r.1 == trim_end(b@),
        r.0 <= r.1 <= b@.len(),
{
    let n = b.len();
    let mut s: usize = 0;
    loop
        invariant
            n == b@.len(),
            s <= n,
            skip_ws(b@, s as int) == skip_ws(b@, 0),
        ensures
            s <= n,
            s == skip_ws(b@, 0),
        decreases n - s,
    {
        let w = ws_len_at(b, s);
        proof {
            lemma_ws_len_bounds(b@, s as int);
        }
        if w == 0 {
            break;
        }
        s = s + w;
    }
    let mut e: usize = n;
    loop
        invariant
            n == b@.len(),
            s == trim_start(b@),
            s <= e <= n,
            trim_back(b@, s as int, e as int) == trim_back(b@, s as int, n as int),
        ensures
            s <= e <= n,
            e == trim_back(b@, s as int, n as int),
        decreases e,
    {
        if e <= s {
            break;
        }
        let w = if e >= 1 && ws_len_at(b, e - 1) == 1 {
            1
        } else if e >= 2 && ws_len_at(b, e - 2) == 2 {
            2
        } else if e >= 3 && ws_len_at(b, e - 3) == 3 {
            3
        } else {
            0
        };
        assert(w == ws_end_len(b@, e as int));
        if w == 0 || e - w < s {
            break;
        }
        e = e - w;
    }
    (s, e)
}

/// The end of the word that goes on at byte `i`: `token_end` on a byte slice.
fn scan_word(b: &[u8], i: usize) -> (j: usize)
    requires
        0 < i <= b@.len(),
    ensures
        j == token_end(b@, i as int),
        i <= j <= b@.len(),
{
    let n = b.len();
    let mut j: usize = i;
    while j < n && ws_len_at(b, j) == 0
        invariant
            n == b@.len(),
            i <= j <= n,
            token_end(b@, j as int) == token_end(b@, i as int),
        decreases n - j,
    {
        j = j + 1;
    }
    j
}

/// Byte ranges of the whitespace-separated words of `b`, as `str::split_whitespace`
/// finds them.
pub fn split_whitespace(b: &[u8]) -> (r: Vec<(usize, usize)>)
    ensures
        r@.len() == tokens(b@).len(),
        forall|k: int|
            0 <= k < r@.len() ==> {
                &&& (#[trigger] r@[k]).0 <= r@[k].1 <= b@.len()
                &&& b@.subrange(r@[k].0 as int, r@[k].1 as int) == tokens(b@)[k]
            },
{
    let n = b.len();
    let mut r: Vec<(usize, usize)> = Vec::new();
    let ghost mut found: Seq<Seq<u8>> = Seq::empty();
    let mut i: usize = 0;
    while i < n
        invariant
            n == b@.len(),
            i <= n,
            found + tokens_from(b@, i as int) == tokens(b@),
            r@.len() == found.len(),
            forall|k: int|
                0 <= k < r@.len() ==> {
                    &&& (#[trigger] r@[k]).0 <= r@[k].1 <= b@.len()
                    &&& b@.subrange(r@[k].0 as int, r@[k].1 as int) == found[k]
                },
        decreases n - i,
    {
        let w = ws_len_at(b, i);
        proof {
            lemma_ws_len_bounds(b@, i as int);
        }
        if w > 0 {
            i = i + w;
        } else {
            let ghost old_found = found;
            let j = scan_word(b, i + 1);
            proof {
                let tok = b@.subrange(i as int, j as int);
                assert(tokens_from(b@, i as int) == seq![tok] + tokens_from(b@, j as int));
                assert(found + tokens_from(b@, i as int) == found.push(tok) + tokens_from(
                    b@,
                    j as int,
                ));
                found = found.push(tok);
            }
            let ghost old_r = r@;
            r.push((i, j));
            proof {
                assert forall|k: int| 0 <= k < r@.len() implies {
                    &&& (#[trigger] r@[k]).0 <= r@[k].1 <= b@.len()
                    &&& b@.subrange(r@[k].0 as int, r@[k].1 as int) == found[k]
                } by {
                    if k < r@.len() - 1 {
                        assert(r@[k] == old_r[k]);
                        assert(b@.subrange(old_r[k].0 as int, old_r[k].1 as int) == old_found[k]);
                    }
                }
            }
            i = j;
        }
    }
    assert(tokens_from(b@, i as int) =~= Seq::<Seq<u8>>::empty());
    assert(found =~= tokens(b@));
    r
}

/// What `str::parse::<u32>` gives for the bytes `s`.
pub fn parse_u32(s: &[u8]) -> (r: Option<u32>)
    ensures
        r == parse_u32_spec(s@),
{
    let n = s.len();
    let start: usize = if n > 0 && s[0] == 43 { 1 } else { 0 };
    let ghost d = digits_part(s@);
    assert(d =~= s@.subrange(start as int, n as int));
    if start == n {
        return None;
    }
    let mut acc: u64 = 0;
    let mut k: usize = start;
    while k < n
        invariant
            n == s@.len(),
            start <= k <= n,
            d == s@.subrange(start as int, n as int),
            d == digits_part(s@),
            all_digits(d.subrange(0, k - start)),
            acc == digits_value(d.subrange(0, k - start)),
            acc <= u32::MAX,
        decreases n - k,
    {
        let c = s[k];
        assert(d[k - start] == c);
        if c < 48 || c > 57 {
            assert(!is_digit(d[k - start]));
            assert(!all_digits(d));
            return None;
        }
        let next = acc * 10 + (c - 48) as u64;
        proof {
            let p = d.subrange(0, k + 1 - start);
            assert(p.drop_last() =~= d.subrange(0, k - start));
            assert(p.last() == c);
            assert(digits_value(p) == next);
            assert(all_digits(p));
        }
        if next > 4294967295 {
            proof {
                if all_digits(d) {
                    lemma_digits_value_prefix(d, k + 1 - start);
                    assert(digits_value(d) > u32::MAX);
                }
            }
            return None;
        }
        acc = next;
        k = k + 1;
    }
    assert(d.subrange(0, n - start) =~= d);
    Some(acc as u32)
}

/// In valid UTF-8, the character that starts at a boundary ends at the next boundary.
proof fn lemma_next_boundary(b: Seq<u8>, i: int)
    requires
        valid_utf8(b),
        is_char_boundary(b, i),
        0 <= i < b.len(),
    ensures
        i + length_of_first_scalar(b.subrange(i, b.len() as int)) <= b.len(),
        is_char_boundary(b, i + length_of_first_scalar(b.subrange(i, b.len() as int))),
    decreases b.len(),
{
    let l1 = length_of_first_scalar(b);
    if i == 0 {
        assert(b.subrange(0, b.len() as int) =~= b);
        assert(is_char_boundary(pop_first_scalar(b), 0));
    } else {
        let tail = pop_first_scalar(b);
        assert(is_char_boundary(tail, i - l1));
        assert(tail.subrange(i - l1, tail.len() as int) =~= b.subrange(i, b.len() as int));
        lemma_next_boundary(tail, i - l1);
    }
}

/// A whitespace character starting at a boundary of valid UTF-8 ends at a boundary.
proof fn lemma_ws_boundary(b: Seq<u8>, i: int)
    requires
        valid_utf8(b),
        is_char_boundary(b, i),
        ws_len(b, i) > 0,
    ensures
        is_char_boundary(b, i + ws_len(b, i)),
{
    let c = b.subrange(i, b.len() as int);
    assert(c[0] == b[i]);
    lemma_next_boundary(b, i);
    assert(length_of_first_scalar(c) == ws_len(b, i));
}

proof fn lemma_skip_ws_boundary(b: Seq<u8>, i: int)
    requires
        valid_utf8(b),
        is_char_boundary(b, i),
        0 <= i <= b.len(),
    ensures
        is_char_boundary(b, skip_ws(b, i)),
        i <= skip_ws(b, i) <= b.len(),
    decreases b.len() - i,
{
    if ws_len(b, i) > 0 {
        lemma_ws_boundary(b, i);
        lemma_skip_ws_boundary(b, i + ws_len(b, i));
    }
}

proof fn lemma_trim_back_boundary(b: Seq<u8>, lo: int, e: int)
    requires
        valid_utf8(b),
        is_char_boundary(b, e),
        0 <= lo <= e <= b.len(),
    ensures
        is_char_boundary(b, trim_back(b, lo, e)),
        lo <= trim_back(b, lo, e) <= e,
    decreases e,
{
    let w = ws_end_len(b, e);
    if e > lo && w > 0 && e - w >= lo {
        assert(!is_continuation_byte(b[e - w]));
        is_char_boundary_iff_not_is_continuation_byte(b, e - w);
        lemma_trim_back_boundary(b, lo, e - w);
    }
}

/// `skip_ws` stops where no whitespace character starts, within the bytes.
proof fn lemma_skip_ws_stops(b: Seq<u8>, i: int)
    requires
        0 <= i <= b.len(),
    ensures
        i <= skip_ws(b, i) <= b.len(),
        ws_len(b, skip_ws(b, i)) == 0,
    decreases b.len() - i,
{
    lemma_ws_len_bounds(b, i);
    if ws_len(b, i) > 0 {
        lemma_skip_ws_stops(b, i + ws_len(b, i));
    }
}

/// `trim_back` stops where no whitespace character that fits after `lo` ends.
proof fn lemma_trim_back_stops(b: Seq<u8>, lo: int, e: int)
    requires
        lo <= e,
    ensures
        lo <= trim_back(b, lo, e) <= e,
        ({
            let r = trim_back(b, lo, e);
            !(r > lo && ws_end_len(b, r) > 0 && r - ws_end_len(b, r) >= lo)
        }),
    decreases e,
{
    if e > lo && ws_end_len(b, e) > 0 && e - ws_end_len(b, e) >= lo {
        lemma_trim_back_stops(b, lo, e - ws_end_len(b, e));
    }
}

/// A whitespace character that lies wholly inside `b[s..e]` is seen there as in `b`.
proof fn lemma_ws_len_subrange(b: Seq<u8>, s: int, e: int, j: int, k: int)
    requires
        0 <= s <= e <= b.len(),
        0 <= j,
        1 <= k <= 3,
        j + k <= e - s,
    ensures
        ws_len(b.subrange(s, e), j) == k <==> ws_len(b, s + j) == k,
{
    let t = b.subrange(s, e);
    assert(t[j] == b[s + j]);
    if k >= 2 {
        assert(t[j + 1] == b[s + j + 1]);
    }
    if k >= 3 {
        assert(t[j + 2] == b[s + j + 2]);
    }
}

/// Trimming twice gives what trimming once gives.
pub proof fn lemma_trimmed_idempotent(b: Seq<u8>)
    ensures
        trimmed(trimmed(b)) == trimmed(b),
{
    let s = trim_start(b);
    lemma_skip_ws_stops(b, 0);
    lemma_trim_back_stops(b, s, b.len() as int);
    let e = trim_end(b);
    let t = trimmed(b);
    let n = t.len() as int;
    assert(n == e - s);
    lemma_ws_len_bounds(t, 0);
    if ws_len(t, 0) > 0 {
        lemma_ws_len_subrange(b, s, e, 0, ws_len(t, 0));
        assert(false);
    }
    assert(trim_start(t) == 0);
    if n > 0 && ws_end_len(t, n) > 0 {
        let w = ws_end_len(t, n);
        lemma_ws_len_bounds(t, n - w);
        assert(n - w >= 0);
        if w >= 2 {
            lemma_ws_len_subrange(b, s, e, n - 1, 1);
        }
        if w >= 3 {
            lemma_ws_len_subrange(b, s, e, n - 2, 2);
        }
        lemma_ws_len_subrange(b, s, e, n - w, w);
        assert(ws_end_len(b, e) == w);
        assert(false);
    }
    assert(trim_end(t) == n);
    assert(trimmed(t) =~= t);
}

/// The `str` without leading and trailing whitespace, as `str::trim` gives it.
pub fn trim(input: &str) -> (t: &str)
    ensures
        t.spec_bytes() == trimmed(input.spec_bytes()),
{
    let b = input.as_bytes();
    let (s, e) = trim_bounds(b);
    proof {
        let bs = input.spec_bytes();
        encode_utf8_valid_utf8(input@);
        is_char_boundary_start_end_of_seq(bs);
        lemma_skip_ws_boundary(bs, 0);
        lemma_trim_back_boundary(bs, s as int, bs.len() as int);
        valid_utf8_split(bs, e as int);
        let head = bs.subrange(0, e as int);
        is_char_boundary_start_end_of_seq(head);
        if s < e {
            is_char_boundary_iff_not_is_continuation_byte(bs, s as int);
            is_char_boundary_iff_not_is_continuation_byte(head, s as int);
        }
    }
    let (head, _) = input.split_at(e);
    let (_, t) = head.split_at(s);
    assert(t.spec_bytes() =~= trimmed(input.spec_bytes()));
    t
}

} // verus!
