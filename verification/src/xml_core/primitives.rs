//! Byte-search and text primitives shared by the scanners.
//!
//! The delimiter searches are delegated to the `memchr` crate (SIMD accelerated);
//! UTF-8 checking is delegated to `std::str::from_utf8`.

use vstd::prelude::*;
use vstd::utf8::*;

verus! {

/// Index of the first occurrence of `b` in `s`, or -1 when `b` does not occur.
pub open spec fn index_of(s: Seq<u8>, b: u8) -> int
    decreases s.len(),
{
    if s.len() == 0 {
        -1
    } else if s[0] == b {
        0
    } else {
        let k = index_of(s.drop_first(), b);
        if k < 0 {
            -1
        } else {
            k + 1
        }
    }
}

/// `index_of` agrees with the direct description of a first occurrence.
pub proof fn lemma_index_of(s: Seq<u8>, b: u8)
    ensures
        -1 <= index_of(s, b) < s.len(),
        index_of(s, b) == -1 <==> (forall|j: int| 0 <= j < s.len() ==> s[j] != b),
        index_of(s, b) >= 0 ==> s[index_of(s, b)] == b,
        forall|j: int| 0 <= j < index_of(s, b) ==> s[j] != b,
    decreases s.len(),
{
    if s.len() > 0 && s[0] != b {
        lemma_index_of(s.drop_first(), b);
        assert forall|j: int| 0 <= j < s.len() && index_of(s, b) == -1 implies s[j] != b by {
            if j > 0 {
                assert(s[j] == s.drop_first()[j - 1]);
            }
        }
        assert forall|j: int| 0 <= j < index_of(s, b) implies s[j] != b by {
            if j > 0 {
                assert(s[j] == s.drop_first()[j - 1]);
            }
        }
        if index_of(s.drop_first(), b) == -1 {
            assert forall|j: int| 0 <= j < s.len() implies s[j] != b by {
                if j > 0 {
                    assert(s[j] == s.drop_first()[j - 1]);
                }
            }
        }
    }
}

/// The first index `i` with `s[i] == b`, stated directly.
pub open spec fn is_first_index(s: Seq<u8>, b: u8, i: int) -> bool {
    &&& 0 <= i < s.len()
    &&& s[i] == b
    &&& forall|j: int| 0 <= j < i ==> s[j] != b
}

/// A byte that is one of the given needles.
pub open spec fn is_one_of2(x: u8, b1: u8, b2: u8) -> bool {
    x == b1 || x == b2
}

pub open spec fn is_one_of3(x: u8, b1: u8, b2: u8, b3: u8) -> bool {
    x == b1 || x == b2 || x == b3
}

/// `memchr::memchr`: position of the first occurrence of `needle` in `haystack`.
/// The contract states that the result is the first matching index, and `None` exactly
/// when no byte matches.
#[verifier::external_body]
pub fn memchr(needle: u8, haystack: &[u8]) -> (r: Option<usize>)
    ensures
        r matches Some(i) ==> is_first_index(haystack@, needle, i as int),
        r is None ==> forall|j: int| 0 <= j < haystack@.len() ==> haystack@[j] != needle,
{
    ::memchr::memchr(needle, haystack)
}

/// `memchr::memchr2`: position of the first byte equal to either needle.
#[verifier::external_body]
pub fn memchr2(needle1: u8, needle2: u8, haystack: &[u8]) -> (r: Option<usize>)
    ensures
        r matches Some(i) ==> {
            &&& i < haystack@.len()
            &&& is_one_of2(haystack@[i as int], needle1, needle2)
            &&& forall|j: int| 0 <= j < i ==> !is_one_of2(haystack@[j], needle1, needle2)
        },
        r is None ==> forall|j: int|
            0 <= j < haystack@.len() ==> !is_one_of2(haystack@[j], needle1, needle2),
{
    ::memchr::memchr2(needle1, needle2, haystack)
}

/// `memchr::memchr3`: position of the first byte equal to one of three needles.
#[verifier::external_body]
pub fn memchr3(needle1: u8, needle2: u8, needle3: u8, haystack: &[u8]) -> (r: Option<usize>)
    ensures
        r matches Some(i) ==> {
            &&& i < haystack@.len()
            &&& is_one_of3(haystack@[i as int], needle1, needle2, needle3)
            &&& forall|j: int|
                0 <= j < i ==> !is_one_of3(haystack@[j], needle1, needle2, needle3)
        },
        r is None ==> forall|j: int|
            0 <= j < haystack@.len() ==> !is_one_of3(haystack@[j], needle1, needle2, needle3),
{
    ::memchr::memchr3(needle1, needle2, needle3, haystack)
}

/// `std::str::from_utf8`: succeeds exactly on valid UTF-8, and the string then holds
/// the given bytes.
#[verifier::external_body]
pub fn utf8_str(bytes: &[u8]) -> (r: Option<&str>)
    ensures
        r is Some <==> valid_utf8(bytes@),
        r matches Some(s) ==> s@ == decode_utf8(bytes@),
{
    std::str::from_utf8(bytes).ok()
}

/// The address of a slice's first byte (`<[u8]>::as_ptr`, as an integer). An address
/// is not a value that a contract can name, so nothing is stated of it.
#[verifier::external_body]
fn slice_address(s: &[u8]) -> (r: usize) {
    s.as_ptr() as usize
}

/// The offset of address `inner` from address `outer` when it lies among the
/// `outer_len` bytes that start there, else `None`.
pub fn offset_from_addresses(inner: usize, outer: usize, outer_len: usize) -> (r: Option<usize>)
    ensures
        r == (if outer <= inner && inner - outer < outer_len {
            Some((inner - outer) as usize)
        } else {
            None
        }),
{
    if outer <= inner && inner - outer < outer_len {
        Some(inner - outer)
    } else {
        None
    }
}

/// Byte offset of `inner` inside `outer`, found from the two slices' addresses
/// (`offset_from_addresses` on them); `None` when `inner` does not start inside `outer`.
/// The addresses are not values a contract can name, so which outcome comes is not
/// stated.
pub fn offset_within(inner: &[u8], outer: &[u8]) -> (r: Option<usize>)
    ensures
        r matches Some(off) ==> off < outer@.len(),
{
    let outer_start = slice_address(outer);
    let inner_start = slice_address(inner);
    offset_from_addresses(inner_start, outer_start, outer.len())
}

/// Equality of two strings, compared byte by byte.
pub fn str_eq(a: &str, b: &str) -> (r: bool)
    ensures
        r == (a@ == b@),
{
    let x = a.as_bytes();
    let y = b.as_bytes();
    proof {
        vstd::utf8::encode_utf8_decode_utf8(a@);
        vstd::utf8::encode_utf8_decode_utf8(b@);
    }
    bytes_eq(x, y)
}

/// Byte-wise equality of two slices.
pub fn bytes_eq(a: &[u8], b: &[u8]) -> (r: bool)
    ensures
        r == (a@ == b@),
{
    if a.len() != b.len() {
        return false;
    }
    let mut i: usize = 0;
    while i < a.len()
        invariant
            a@.len() == b@.len(),
            i <= a@.len(),
            forall|j: int| 0 <= j < i ==> a@[j] == b@[j],
        decreases a.len() - i,
    {
        if a[i] != b[i] {
            return false;
        }
        i += 1;
    }
    assert(a@ =~= b@);
    true
}

/// Whether `s` begins with `prefix`.
pub open spec fn has_prefix(s: Seq<u8>, prefix: Seq<u8>) -> bool {
    prefix.len() <= s.len() && s.subrange(0, prefix.len() as int) == prefix
}

/// Byte-wise prefix test (`<[u8]>::starts_with`).
pub fn starts_with(s: &[u8], prefix: &[u8]) -> (r: bool)
    ensures
        r == has_prefix(s@, prefix@),
{
    if prefix.len() > s.len() {
        return false;
    }
    let mut i: usize = 0;
    while i < prefix.len()
        invariant
            prefix@.len() <= s@.len(),
            i <= prefix@.len(),
            forall|j: int| 0 <= j < i ==> s@[j] == prefix@[j],
        decreases prefix.len() - i,
    {
        if s[i] != prefix[i] {
            assert(s@.subrange(0, prefix@.len() as int)[i as int] != prefix@[i as int]);
            return false;
        }
        i += 1;
    }
    assert(s@.subrange(0, prefix@.len() as int) =~= prefix@);
    true
}

/// ASCII lower-casing of one byte.
pub open spec fn ascii_lower(b: u8) -> u8 {
    if 0x41 <= b <= 0x5A {
        (b + 0x20) as u8
    } else {
        b
    }
}

/// Equality of two byte strings ignoring ASCII case (`<[u8]>::eq_ignore_ascii_case`).
pub open spec fn eq_ignore_case(a: Seq<u8>, b: Seq<u8>) -> bool {
    a.len() == b.len() && forall|j: int| 0 <= j < a.len() ==> ascii_lower(a[j]) == ascii_lower(b[j])
}

pub fn lower_byte(b: u8) -> (r: u8)
    ensures
        r == ascii_lower(b),
{
    if 0x41 <= b && b <= 0x5A {
        b + 0x20
    } else {
        b
    }
}

pub fn eq_ignore_ascii_case(a: &[u8], b: &[u8]) -> (r: bool)
    ensures
        r == eq_ignore_case(a@, b@),
{
    if a.len() != b.len() {
        return false;
    }
    let mut i: usize = 0;
    while i < a.len()
        invariant
            a@.len() == b@.len(),
            i <= a@.len(),
            forall|j: int| 0 <= j < i ==> ascii_lower(a@[j]) == ascii_lower(b@[j]),
        decreases a.len() - i,
    {
        if lower_byte(a[i]) != lower_byte(b[i]) {
            return false;
        }
        i += 1;
    }
    true
}

/// XML whitespace: space, tab, line feed, carriage return.
pub open spec fn is_ws(b: u8) -> bool {
    b == 0x20 || b == 0x09 || b == 0x0A || b == 0x0D
}

pub fn is_ws_byte(b: u8) -> (r: bool)
    ensures
        r == is_ws(b),
{
    b == 0x20 || b == 0x09 || b == 0x0A || b == 0x0D
}

/// Number of leading whitespace bytes of `s`.
pub open spec fn ws_prefix_len(s: Seq<u8>) -> int
    decreases s.len(),
{
    if s.len() > 0 && is_ws(s[0]) {
        1 + ws_prefix_len(s.drop_first())
    } else {
        0
    }
}

pub proof fn lemma_ws_prefix_len(s: Seq<u8>)
    ensures
        0 <= ws_prefix_len(s) <= s.len(),
        forall|j: int| 0 <= j < ws_prefix_len(s) ==> is_ws(#[trigger] s[j]),
        ws_prefix_len(s) < s.len() ==> !is_ws(s[ws_prefix_len(s)]),
    decreases s.len(),
{
    if s.len() > 0 && is_ws(s[0]) {
        lemma_ws_prefix_len(s.drop_first());
        assert forall|j: int| 0 <= j < ws_prefix_len(s) implies is_ws(#[trigger] s[j]) by {
            if j > 0 {
                assert(s[j] == s.drop_first()[j - 1]);
            }
        }
    }
}

/// Position of the first non-whitespace byte of `s` at or after `start`.
pub fn skip_ws_from(s: &[u8], start: usize) -> (r: usize)
    requires
        start <= s@.len(),
    ensures
        r == start + ws_prefix_len(s@.subrange(start as int, s@.len() as int)),
        start <= r <= s@.len(),
{
    let mut pos = start;
    while pos < s.len() && is_ws_byte(s[pos])
        invariant
            start <= pos <= s@.len(),
            ws_prefix_len(s@.subrange(start as int, s@.len() as int)) == (pos - start)
                + ws_prefix_len(s@.subrange(pos as int, s@.len() as int)),
        decreases s.len() - pos,
    {
        assert(s@.subrange(pos as int, s@.len() as int).drop_first() =~= s@.subrange(
            pos + 1,
            s@.len() as int,
        ));
        pos += 1;
    }
    proof {
        lemma_ws_prefix_len(s@.subrange(pos as int, s@.len() as int));
    }
    pos
}

} // verus!
