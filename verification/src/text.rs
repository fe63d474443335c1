//! Questions about text that are answered on its UTF-8 bytes.
use vstd::prelude::*;
use vstd::string::StringSliceAdditionalSpecFns;
use vstd::utf8::{encode_utf8, encode_utf8_decode_utf8};

verus! {

/// The UTF-8 bytes of a text.
pub open spec fn utf8(text: Seq<char>) -> Seq<u8> {
    encode_utf8(text)
}

/// `part` stands in `whole` at `at`.
pub open spec fn stands_at<T>(whole: Seq<T>, part: Seq<T>, at: int) -> bool {
    &&& 0 <= at
    &&& at + part.len() <= whole.len()
    &&& whole.subrange(at, at + part.len()) == part
}

/// `part` stands somewhere in `whole`.
pub open spec fn occurs<T>(whole: Seq<T>, part: Seq<T>) -> bool {
    exists|at: int| #[trigger] stands_at(whole, part, at)
}

/// Texts with the same bytes are the same.
pub proof fn lemma_utf8_injective(a: Seq<char>, b: Seq<char>)
    requires
        utf8(a) == utf8(b),
    ensures
        a == b,
{
    encode_utf8_decode_utf8(a);
    encode_utf8_decode_utf8(b);
}

/// Whether `part` stands in `whole` at `at`.
pub fn bytes_at(whole: &[u8], part: &[u8], at: usize) -> (r: bool)
    ensures
        r == stands_at(whole@, part@, at as int),
{
    let n: usize = whole.len();
    let m: usize = part.len();
    if at > n || m > n - at {
        return false;
    }
    let mut i: usize = 0;
    while i < m
        invariant
            i <= m,
            m == part@.len(),
            n == whole@.len(),
            at + m <= n,
            forall|k: int| 0 <= k < i ==> whole@[at + k] == part@[k],
        decreases m - i,
    {
        if whole[at + i] != part[i] {
            assert(whole@.subrange(at as int, at + m)[i as int] != part@[i as int]);
            return false;
        }
        i += 1;
    }
    assert(whole@.subrange(at as int, at + m) =~= part@);
    true
}

/// Whether two byte strings are the same.
pub fn same_bytes(a: &[u8], b: &[u8]) -> (r: bool)
    ensures
        r == (a@ == b@),
{
    if a.len() != b.len() {
        return false;
    }
    let r = bytes_at(a, b, 0);
    assert(a@.subrange(0, a@.len() as int) =~= a@);
    r
}

/// Whether two texts are the same.
pub fn same(a: &str, b: &str) -> (r: bool)
    ensures
        r == (a@ == b@),
{
    let r = same_bytes(a.as_bytes(), b.as_bytes());
    proof {
        if r {
            lemma_utf8_injective(a@, b@);
        }
    }
    r
}

/// Whether two optional texts are the same.
pub fn same_option(a: &Option<String>, b: &Option<String>) -> (r: bool)
    ensures
        r == (match (*a, *b) {
            (Some(x), Some(y)) => x@ == y@,
            (None, None) => true,
            _ => false,
        }),
{
    match (a, b) {
        (Some(x), Some(y)) => same(x.as_str(), y.as_str()),
        (None, None) => true,
        _ => false,
    }
}

/// How many bytes a text has.
pub fn byte_len(text: &str) -> (r: usize)
    ensures
        r == utf8(text@).len(),
{
    text.as_bytes().len()
}

/// Whether `text` begins with `prefix`.
pub fn starts_with(text: &str, prefix: &str) -> (r: bool)
    ensures
        r == stands_at(utf8(text@), utf8(prefix@), 0),
{
    bytes_at(text.as_bytes(), prefix.as_bytes(), 0)
}

/// Whether `text` ends with `suffix`.
pub fn ends_with(text: &str, suffix: &str) -> (r: bool)
    ensures
        r == stands_at(utf8(text@), utf8(suffix@), utf8(text@).len() - utf8(suffix@).len()),
{
    let n: usize = text.as_bytes().len();
    let m: usize = suffix.as_bytes().len();
    if m > n {
        false
    } else {
        bytes_at(text.as_bytes(), suffix.as_bytes(), n - m)
    }
}

/// Whether `part` stands somewhere in `text`.
pub fn contains(text: &str, part: &str) -> (r: bool)
    ensures
        r == occurs(utf8(text@), utf8(part@)),
{
    let whole = text.as_bytes();
    let piece = part.as_bytes();
    let n: usize = whole.len();
    let m: usize = piece.len();
    let mut at: usize = 0;
    if m > n {
        return false;
    }
    while at < n - m
        invariant
            n == whole@.len(),
            m == piece@.len(),
            m <= n,
            at <= n - m,
            whole@ == utf8(text@),
            piece@ == utf8(part@),
            forall|k: int| 0 <= k < at ==> !#[trigger] stands_at(whole@, piece@, k),
        decreases n - m - at,
    {
        if bytes_at(whole, piece, at) {
            return true;
        }
        at += 1;
    }
    bytes_at(whole, piece, n - m)
}

} // verus!
