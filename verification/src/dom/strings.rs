//! String Interning Pool with Sub-Binary Support
//!
//! Efficient string storage with deduplication for element names,
//! attribute names, and namespace URIs.
//!
//! Two storage modes:
//! - Offset-based: (input_offset, len) referencing original input (zero-copy)
//! - Copied: strings that needed entity decoding, stored in pool buffer
//!
//! A string is looked up among the stored ones before it is added, so equal strings
//! share one ID.

use vstd::prelude::*;

use vstd::utf8::{decode_utf8, valid_utf8};

use crate::xml_core::primitives::{bytes_eq, utf8_str};

verus! {

/// Entry type for string storage
#[derive(Debug, Clone, Copy, PartialEq, Eq, Structural)]
pub enum StringEntry {
    /// References original input: (offset_in_input, length)
    /// Zero-copy - can use make_subbinary when building BEAM terms
    InputRef(u32, u16),
    /// Copied string: (offset_in_pool_data, length)
    /// For strings that needed entity decoding
    Copied(u32, u16),
}

/// The bytes `len` bytes long at `off` in `buf`, when they lie within it.
pub open spec fn entry_range(off: u32, len: u16, buf: Seq<u8>) -> Option<Seq<u8>> {
    if off + len <= buf.len() {
        Some(buf.subrange(off as int, off + len))
    } else {
        None
    }
}

/// The string with ID `id`: ID 0 is the empty string; a reference into the input
/// resolves only when the input is given.
pub open spec fn lookup(
    entries: Seq<StringEntry>,
    data: Seq<u8>,
    input: Option<Seq<u8>>,
    id: u32,
) -> Option<Seq<u8>> {
    lookup_at(entries, data, input, id as int)
}

/// The string at position `i` of the entries.
pub open spec fn lookup_at(
    entries: Seq<StringEntry>,
    data: Seq<u8>,
    input: Option<Seq<u8>>,
    i: int,
) -> Option<Seq<u8>> {
    if i == 0 {
        Some(seq![])
    } else if i < 0 || i >= entries.len() {
        None
    } else {
        match entries[i] {
            StringEntry::InputRef(o, l) => match input {
                Some(inp) => entry_range(o, l, inp),
                None => None,
            },
            StringEntry::Copied(o, l) => entry_range(o, l, data),
        }
    }
}

/// The first ID at or after `i` that resolves to `s`, or the number of entries.
pub open spec fn first_with(
    entries: Seq<StringEntry>,
    data: Seq<u8>,
    input: Option<Seq<u8>>,
    s: Seq<u8>,
    i: int,
) -> int
    decreases entries.len() - i,
{
    if i < 0 || i >= entries.len() {
        entries.len() as int
    } else if lookup_at(entries, data, input, i) == Some(s) {
        i
    } else {
        first_with(entries, data, input, s, i + 1)
    }
}

/// The bytes `len` bytes long at `off` in `buf`, when they lie within it.
fn range_of(buf: &[u8], off: u32, len: u16) -> (r: Option<&[u8]>)
    ensures
        match r {
            Some(b) => entry_range(off, len, buf@) == Some(b@),
            None => entry_range(off, len, buf@) is None,
        },
{
    let start = off as usize;
    if start <= buf.len() && (len as usize) <= buf.len() - start {
        let b = &buf[start..start + len as usize];
        assert(b@ =~= buf@.subrange(off as int, off + len));
        Some(b)
    } else {
        None
    }
}

/// A length capped at `u16::MAX`.
pub open spec fn capped_len(n: nat) -> u16 {
    if n <= u16::MAX {
        n as u16
    } else {
        u16::MAX
    }
}

/// Interning `s` by copy into a pool of `entries` and `data`: the ID, entries and data
/// after it.
pub open spec fn intern_copy(entries: Seq<StringEntry>, data: Seq<u8>, s: Seq<u8>) -> (
    u32,
    Seq<StringEntry>,
    Seq<u8>,
) {
    let k = first_with(entries, data, None, s, 1);
    if s.len() == 0 {
        (0, entries, data)
    } else if k < entries.len() {
        (k as u32, entries, data)
    } else {
        (
            entries.len() as u32,
            entries.push(StringEntry::Copied(data.len() as u32, capped_len(s.len()))),
            data + s,
        )
    }
}

/// Interning `s`, found at `offset` in `input`, by reference.
pub open spec fn intern_input(
    entries: Seq<StringEntry>,
    data: Seq<u8>,
    input: Seq<u8>,
    s: Seq<u8>,
    offset: usize,
) -> (u32, Seq<StringEntry>) {
    let k = first_with(entries, data, Some(input), s, 1);
    if s.len() == 0 {
        (0, entries)
    } else if k < entries.len() {
        (k as u32, entries)
    } else {
        (
            entries.len() as u32,
            entries.push(StringEntry::InputRef(offset as u32, capped_len(s.len()))),
        )
    }
}

/// Every copied entry lies within the buffer.
pub open spec fn pool_wf(entries: Seq<StringEntry>, data: Seq<u8>) -> bool {
    forall|i: int|
        0 <= i < entries.len() ==> (#[trigger] entries[i] matches StringEntry::Copied(o, l) ==> o
            + l <= data.len())
}

/// A copied string reads back as itself, in a pool with its reserved entry, when its
/// length fits in 16 bits and the buffer and table stay within 32-bit offsets and IDs.
pub proof fn law_intern_read_back(entries: Seq<StringEntry>, data: Seq<u8>, s: Seq<u8>)
    requires
        1 <= entries.len() < u32::MAX,
        s.len() <= u16::MAX,
        data.len() + s.len() <= u32::MAX,
    ensures
        ({
            let x = intern_copy(entries, data, s);
            lookup(x.1, x.2, None, x.0) == Some(s)
        }),
{
    let k = first_with(entries, data, None, s, 1);
    lemma_first_with(entries, data, None, s, 1);
    let x = intern_copy(entries, data, s);
    if s.len() > 0 {
        if k >= entries.len() {
            assert(x.0 as int == entries.len());
            assert(x.1[entries.len() as int] == StringEntry::Copied(data.len() as u32, s.len() as u16));
            assert(x.2.subrange(data.len() as int, (data.len() + s.len()) as int) =~= s);
            assert(entry_range(data.len() as u32, s.len() as u16, x.2) == Some(s));
            assert(lookup_at(x.1, x.2, None, entries.len() as int) == Some(s));
        } else {
            assert(x.0 as int == k);
            assert(lookup_at(entries, data, None, k) == Some(s));
        }
    }
}

/// Interning a string twice gives the same ID the second time, and the second call
/// changes nothing.
pub proof fn law_intern_idempotent(entries: Seq<StringEntry>, data: Seq<u8>, s: Seq<u8>)
    requires
        pool_wf(entries, data),
        1 <= entries.len() < u32::MAX,
        s.len() <= u16::MAX,
        data.len() + s.len() <= u32::MAX,
    ensures
        ({
            let x = intern_copy(entries, data, s);
            let y = intern_copy(x.1, x.2, s);
            y.0 == x.0 && y.1 == x.1 && y.2 == x.2
        }),
{
    let x = intern_copy(entries, data, s);
    lemma_first_with(entries, data, None, s, 1);
    law_intern_read_back(entries, data, s);
    if s.len() > 0 {
        let k = first_with(entries, data, None, s, 1);
        if k >= entries.len() {
            assert forall|i: int| 1 <= i < entries.len() implies lookup_at(x.1, x.2, None, i)
                != Some(s) by {
                lemma_lookup_extend(entries, data, s, i);
            }
            lemma_first_with_found(x.1, x.2, None, s, 1, entries.len() as int);
        } else {
            lemma_first_with_found(x.1, x.2, None, s, 1, k);
        }
    }
}

/// Two different nonempty strings, interned one after the other, get different IDs,
/// while the IDs and the copied bytes fit in 32 bits.
pub proof fn law_intern_distinct(entries: Seq<StringEntry>, data: Seq<u8>, s: Seq<u8>, t: Seq<u8>)
    requires
        pool_wf(entries, data),
        1 <= entries.len(),
        entries.len() + 1 < u32::MAX,
        0 < s.len() <= u16::MAX,
        0 < t.len() <= u16::MAX,
        data.len() + s.len() + t.len() <= u32::MAX,
        s != t,
    ensures
        ({
            let x = intern_copy(entries, data, s);
            let y = intern_copy(x.1, x.2, t);
            y.0 != x.0
        }),
{
    let x = intern_copy(entries, data, s);
    let y = intern_copy(x.1, x.2, t);
    lemma_first_with(entries, data, None, s, 1);
    law_intern_read_back(entries, data, s);
    lemma_intern_copy_effect(entries, data, None, s);
    assert(x.1.len() <= entries.len() + 1);
    assert(x.2.len() <= data.len() + s.len());
    assert(1 <= x.0 < x.1.len());
    law_intern_read_back(x.1, x.2, t);
    lemma_intern_copy_effect(x.1, x.2, None, t);
    assert(lookup(y.1, y.2, None, x.0) == Some(s));
}

/// `first_with` is a position from `i` on where `s` is found, or the end, with no
/// match before it.
pub proof fn lemma_first_with(
    entries: Seq<StringEntry>,
    data: Seq<u8>,
    input: Option<Seq<u8>>,
    s: Seq<u8>,
    i: int,
)
    requires
        0 <= i,
    ensures
        i <= first_with(entries, data, input, s, i) <= entries.len() || (i > entries.len()
            && first_with(entries, data, input, s, i) == entries.len()),
        first_with(entries, data, input, s, i) < entries.len() ==> lookup_at(
            entries,
            data,
            input,
            first_with(entries, data, input, s, i),
        ) == Some(s),
        forall|j: int|
            i <= j < first_with(entries, data, input, s, i) ==> lookup_at(entries, data, input, j)
                != Some(s),
    decreases entries.len() - i,
{
    if i < entries.len() && lookup_at(entries, data, input, i) != Some(s) {
        lemma_first_with(entries, data, input, s, i + 1);
    }
}

/// When `s` is found at `k` and nowhere from `i` before it, the search from `i` stops
/// at `k`.
pub proof fn lemma_first_with_found(
    entries: Seq<StringEntry>,
    data: Seq<u8>,
    input: Option<Seq<u8>>,
    s: Seq<u8>,
    i: int,
    k: int,
)
    requires
        0 <= i <= k < entries.len(),
        lookup_at(entries, data, input, k) == Some(s),
        forall|j: int| i <= j < k ==> lookup_at(entries, data, input, j) != Some(s),
    ensures
        first_with(entries, data, input, s, i) == k,
    decreases k - i,
{
    if i < k {
        lemma_first_with_found(entries, data, input, s, i + 1, k);
    }
}

proof fn lemma_first_with_skip(
    entries: Seq<StringEntry>,
    data: Seq<u8>,
    input: Option<Seq<u8>>,
    s: Seq<u8>,
    i: int,
    k: int,
)
    requires
        0 <= i <= k <= entries.len(),
        forall|j: int| i <= j < k ==> lookup_at(entries, data, input, j) != Some(s),
    ensures
        first_with(entries, data, input, s, i) == first_with(entries, data, input, s, k),
    decreases k - i,
{
    if i < k {
        lemma_first_with_skip(entries, data, input, s, i + 1, k);
    }
}

/// Adding a copied string keeps what the earlier entries resolve to.
proof fn lemma_lookup_extend(entries: Seq<StringEntry>, data: Seq<u8>, s: Seq<u8>, i: int)
    requires
        pool_wf(entries, data),
        0 <= i < entries.len(),
    ensures
        ({
            let x = intern_copy(entries, data, s);
            lookup_at(x.1, x.2, None, i) == lookup_at(entries, data, None, i)
        }),
{
    let x = intern_copy(entries, data, s);
    if s.len() > 0 && first_with(entries, data, None, s, 1) >= entries.len() && i > 0 {
        match entries[i] {
            StringEntry::Copied(o, l) => {
                if o + l <= data.len() {
                    assert(x.2.subrange(o as int, o + l) =~= data.subrange(o as int, o + l));
                }
            },
            _ => {},
        }
    }
}

/// The bytes that the pool keeps of a string: its first `u16::MAX` bytes.
pub open spec fn kept(s: Seq<u8>) -> Seq<u8> {
    if s.len() <= 0xFFFF {
        s
    } else {
        s.take(0xFFFF)
    }
}

/// The pool's IDs and the offsets of its copied bytes fit in 32 bits.
pub open spec fn pool_fits(entries: Seq<StringEntry>, data: Seq<u8>) -> bool {
    entries.len() < u32::MAX && data.len() <= u32::MAX
}

/// A stored string is at most `u16::MAX` bytes long.
proof fn lemma_lookup_short(
    entries: Seq<StringEntry>,
    data: Seq<u8>,
    input: Option<Seq<u8>>,
    i: int,
)
    ensures
        lookup_at(entries, data, input, i) matches Some(x) ==> x.len() <= 0xFFFF,
{
}

/// A copied string is found the same with or without the input.
proof fn lemma_lookup_copied_any_input(
    entries: Seq<StringEntry>,
    data: Seq<u8>,
    input: Option<Seq<u8>>,
    i: int,
)
    requires
        lookup_at(entries, data, None, i) is Some,
    ensures
        lookup_at(entries, data, input, i) == lookup_at(entries, data, None, i),
{
}

/// Interning by copy keeps what every earlier ID resolves to and the pool well formed;
/// while the pool fits 32 bits, the new ID resolves to the kept bytes of the string.
pub proof fn lemma_intern_copy_effect(
    entries: Seq<StringEntry>,
    data: Seq<u8>,
    input: Option<Seq<u8>>,
    s: Seq<u8>,
)
    requires
        pool_wf(entries, data),
        1 <= entries.len(),
    ensures
        ({
            let x = intern_copy(entries, data, s);
            &&& entries.len() <= x.1.len()
            &&& data.len() <= x.2.len()
            &&& pool_wf(x.1, x.2)
            &&& forall|i: int|
                0 <= i < entries.len() ==> #[trigger] lookup_at(x.1, x.2, input, i) == lookup_at(
                    entries,
                    data,
                    input,
                    i,
                )
            &&& pool_fits(x.1, x.2) ==> lookup(x.1, x.2, input, x.0) == Some(kept(s))
            &&& pool_fits(x.1, x.2) ==> ((x.0 == 0) == (s.len() == 0))
        }),
{
    let x = intern_copy(entries, data, s);
    let k = first_with(entries, data, None, s, 1);
    lemma_first_with(entries, data, None, s, 1);
    assert forall|i: int| 0 <= i < entries.len() implies #[trigger] lookup_at(
        x.1,
        x.2,
        input,
        i,
    ) == lookup_at(entries, data, input, i) by {
        if s.len() > 0 && k >= entries.len() && i > 0 {
            match entries[i] {
                StringEntry::Copied(o, l) => {
                    assert(x.2.subrange(o as int, o + l) =~= data.subrange(o as int, o + l));
                },
                _ => {},
            }
        }
    }
    if s.len() > 0 && k >= entries.len() {
        assert forall|i: int| 0 <= i < x.1.len() implies (#[trigger] x.1[i] matches StringEntry::Copied(
            o,
            l,
        ) ==> o + l <= x.2.len()) by {
            if i < entries.len() {
                assert(entries[i] matches StringEntry::Copied(o, l) ==> o + l <= data.len());
            }
        }
        if pool_fits(x.1, x.2) {
            let l = capped_len(s.len());
            assert(x.1[entries.len() as int] == StringEntry::Copied(data.len() as u32, l));
            assert(x.2.subrange(data.len() as int, data.len() + l) =~= kept(s));
        }
    } else if s.len() > 0 {
        lemma_lookup_copied_any_input(entries, data, input, k);
        lemma_lookup_short(entries, data, None, k);
    }
}

/// Interning by reference into `input`, where the string stands at `offset`, keeps
/// what every earlier ID resolves to; while the pool fits 32 bits, the new ID
/// resolves to the kept bytes of the string.
pub proof fn lemma_intern_input_effect(
    entries: Seq<StringEntry>,
    data: Seq<u8>,
    input: Seq<u8>,
    s: Seq<u8>,
    offset: usize,
)
    requires
        pool_wf(entries, data),
        1 <= entries.len(),
        offset + s.len() <= input.len(),
        offset < u32::MAX,
        input.subrange(offset as int, offset + s.len()) == s,
    ensures
        ({
            let x = intern_input(entries, data, input, s, offset);
            &&& entries.len() <= x.1.len()
            &&& pool_wf(x.1, data)
            &&& forall|i: int|
                0 <= i < entries.len() ==> #[trigger] lookup_at(x.1, data, Some(input), i)
                    == lookup_at(entries, data, Some(input), i)
            &&& pool_fits(x.1, data) ==> lookup(x.1, data, Some(input), x.0) == Some(kept(s))
            &&& pool_fits(x.1, data) ==> ((x.0 == 0) == (s.len() == 0))
        }),
{
    let x = intern_input(entries, data, input, s, offset);
    let k = first_with(entries, data, Some(input), s, 1);
    lemma_first_with(entries, data, Some(input), s, 1);
    if s.len() > 0 && k >= entries.len() {
        assert forall|i: int| 0 <= i < x.1.len() implies (#[trigger] x.1[i] matches StringEntry::Copied(
            o,
            l,
        ) ==> o + l <= data.len()) by {
            if i < entries.len() {
                assert(entries[i] matches StringEntry::Copied(o, l) ==> o + l <= data.len());
            }
        }
        if pool_fits(x.1, data) {
            let l = capped_len(s.len());
            assert(x.1[entries.len() as int] == StringEntry::InputRef(offset as u32, l));
            assert(input.subrange(offset as int, offset + l) =~= kept(s));
        }
    } else if s.len() > 0 {
        lemma_lookup_short(entries, data, Some(input), k);
    }
}

/// Pool `b` extends pool `a`: `b` is well formed, neither table shrinks, and every ID
/// of `a` resolves in `b` (against `input`) as it did in `a`.
pub open spec fn pool_extends(a: StringPool, b: StringPool, input: Seq<u8>) -> bool {
    &&& a.spec_entries().len() <= b.spec_entries().len()
    &&& a.spec_data().len() <= b.spec_data().len()
    &&& pool_wf(b.spec_entries(), b.spec_data())
    &&& forall|i: int|
        0 <= i < a.spec_entries().len() ==> #[trigger] lookup_at(
            b.spec_entries(),
            b.spec_data(),
            Some(input),
            i,
        ) == lookup_at(a.spec_entries(), a.spec_data(), Some(input), i)
}

/// Extension is transitive.
pub proof fn lemma_pool_extends_trans(a: StringPool, b: StringPool, c: StringPool, input: Seq<u8>)
    requires
        pool_extends(a, b, input),
        pool_extends(b, c, input),
    ensures
        pool_extends(a, c, input),
{
    assert forall|i: int| 0 <= i < a.spec_entries().len() implies #[trigger] lookup_at(
        c.spec_entries(),
        c.spec_data(),
        Some(input),
        i,
    ) == lookup_at(a.spec_entries(), a.spec_data(), Some(input), i) by {
        assert(lookup_at(c.spec_entries(), c.spec_data(), Some(input), i) == lookup_at(
            b.spec_entries(),
            b.spec_data(),
            Some(input),
            i,
        ));
    }
}

/// A well-formed pool extends itself.
pub proof fn lemma_pool_extends_refl(a: StringPool, input: Seq<u8>)
    requires
        pool_wf(a.spec_entries(), a.spec_data()),
    ensures
        pool_extends(a, a, input),
{
}

/// String interning pool with zero-copy support
///
/// - `entries`: StringEntry for each interned string ID
/// - `data`: buffer for copied strings only (entity-decoded)
///
/// Strings that don't need entity decoding use InputRef entries
/// which reference the original input - zero additional memory.
#[derive(Debug)]
pub struct StringPool {
    /// Entries indexed by string ID
    entries: Vec<StringEntry>,
    /// Buffer for copied strings only (those needing entity decoding)
    data: Vec<u8>,
}

impl StringPool {
    /// The entries, by ID.
    pub closed spec fn spec_entries(&self) -> Seq<StringEntry> {
        self.entries@
    }

    /// The buffer of copied strings.
    pub closed spec fn spec_data(&self) -> Seq<u8> {
        self.data@
    }

    /// The string with ID `id`, resolved against `input` where given.
    pub open spec fn resolve(&self, input: Option<Seq<u8>>, id: u32) -> Option<Seq<u8>> {
        lookup(self.spec_entries(), self.spec_data(), input, id)
    }

    /// Create a new empty string pool; entry 0 is reserved for "no string"
    pub fn new() -> (r: Self)
        ensures
            r.spec_entries() == seq![StringEntry::InputRef(0, 0)],
            r.spec_data() == Seq::<u8>::empty(),
            pool_wf(r.spec_entries(), r.spec_data()),
    {
        let mut pool = StringPool { entries: Vec::with_capacity(256), data: Vec::with_capacity(4096) };
        pool.entries.push(StringEntry::InputRef(0, 0));
        pool
    }

    /// Intern a string with offset into original input (zero-copy path): an equal
    /// string already stored keeps its ID; otherwise a reference to `len` bytes at the
    /// offset is added (the length capped at `u16::MAX`, the offset truncated to 32 bits)
    pub fn intern_ref(&mut self, s: &[u8], input: &[u8], input_offset: usize) -> (r: u32)
        ensures
            ({
                let x = intern_input(
                    old(self).spec_entries(),
                    old(self).spec_data(),
                    input@,
                    s@,
                    input_offset,
                );
                &&& r == x.0
                &&& final(self).spec_entries() == x.1
                &&& final(self).spec_data() == old(self).spec_data()
            }),
            pool_wf(old(self).spec_entries(), old(self).spec_data()) ==> pool_wf(
                final(self).spec_entries(),
                final(self).spec_data(),
            ),
    {
        if s.len() == 0 {
            return 0;
        }
        let k = self.find(s, Some(input));
        if k < self.entries.len() {
            return #[verifier::truncate] (k as u32);
        }
        let len: u16 = if s.len() <= 0xFFFF {
            s.len() as u16
        } else {
            0xFFFF
        };
        let id: u32 = #[verifier::truncate] (self.entries.len() as u32);
        let offset: u32 = #[verifier::truncate] (input_offset as u32);
        self.entries.push(StringEntry::InputRef(offset, len));
        id
    }

    /// Intern a string by copying (for entity-decoded strings): an equal copied string
    /// keeps its ID; otherwise the bytes are appended to the buffer and a new entry
    /// records them (the length capped at `u16::MAX`, the offset truncated to 32 bits)
    pub fn intern(&mut self, s: &[u8]) -> (r: u32)
        ensures
            ({
                let x = intern_copy(old(self).spec_entries(), old(self).spec_data(), s@);
                &&& r == x.0
                &&& final(self).spec_entries() == x.1
                &&& final(self).spec_data() == x.2
            }),
            pool_wf(old(self).spec_entries(), old(self).spec_data()) ==> pool_wf(
                final(self).spec_entries(),
                final(self).spec_data(),
            ),
    {
        if s.len() == 0 {
            return 0;
        }
        let k = self.find(s, None);
        if k < self.entries.len() {
            return #[verifier::truncate] (k as u32);
        }
        let offset: u32 = #[verifier::truncate] (self.data.len() as u32);
        let len: u16 = if s.len() <= 0xFFFF {
            s.len() as u16
        } else {
            0xFFFF
        };
        let ghost d = self.data@;
        self.data.extend_from_slice(s);
        assert(self.data@ =~= d + s@);
        let id: u32 = #[verifier::truncate] (self.entries.len() as u32);
        self.entries.push(StringEntry::Copied(offset, len));
        id
    }

    /// The string at position `i` (not 0) of the entries.
    fn at<'a>(&'a self, i: usize, input: Option<&'a [u8]>) -> (r: Option<&'a [u8]>)
        requires
            0 < i < self.spec_entries().len(),
        ensures
            match r {
                Some(b) => lookup_at(self.spec_entries(), self.spec_data(), match input {
                    Some(x) => Some(x@),
                    None => None,
                }, i as int) == Some(b@),
                None => lookup_at(self.spec_entries(), self.spec_data(), match input {
                    Some(x) => Some(x@),
                    None => None,
                }, i as int) is None,
            },
    {
        match self.entries[i] {
            StringEntry::InputRef(offset, len) => match input {
                Some(inp) => range_of(inp, offset, len),
                None => None,
            },
            StringEntry::Copied(offset, len) => range_of(self.data.as_slice(), offset, len),
        }
    }

    /// The first ID from 1 on that resolves to `s`, or the number of entries.
    fn find(&self, s: &[u8], input: Option<&[u8]>) -> (r: usize)
        ensures
            r == first_with(
                self.spec_entries(),
                self.spec_data(),
                match input {
                    Some(i) => Some(i@),
                    None => None,
                },
                s@,
                1,
            ),
    {
        let ghost inp = match input {
            Some(i) => Some(i@),
            None => None,
        };
        let mut i: usize = 1;
        if self.entries.len() == 0 {
            return 0;
        }
        while i < self.entries.len()
            invariant
                1 <= i <= self.entries@.len(),
                inp == match input {
                    Some(x) => Some(x@),
                    None => None,
                },
                first_with(self.entries@, self.data@, inp, s@, 1) == first_with(
                    self.entries@,
                    self.data@,
                    inp,
                    s@,
                    i as int,
                ),
            decreases self.entries.len() - i,
        {
            let found = match self.at(i, input) {
                Some(b) => bytes_eq(b, s),
                None => false,
            };
            if found {
                return i;
            }
            i += 1;
        }
        i
    }

    /// Get entry info for a string ID
    pub fn get_entry(&self, id: u32) -> (r: Option<StringEntry>)
        ensures
            r == (if (id as int) < self.spec_entries().len() {
                Some(self.spec_entries()[id as int])
            } else {
                None
            }),
    {
        let i = id as usize;
        if i < self.entries.len() {
            Some(self.entries[i])
        } else {
            None
        }
    }

    /// The string of an ID, resolving input references against `input` where given.
    fn resolve_id<'a>(&'a self, id: u32, input: Option<&'a [u8]>) -> (r: Option<&'a [u8]>)
        ensures
            match r {
                Some(b) => self.resolve(match input {
                    Some(x) => Some(x@),
                    None => None,
                }, id) == Some(b@),
                None => self.resolve(match input {
                    Some(x) => Some(x@),
                    None => None,
                }, id) is None,
            },
    {
        if id == 0 {
            let empty: &[u8] = &[];
            assert(empty@ =~= Seq::<u8>::empty());
            return Some(empty);
        }
        let i = id as usize;
        if i < self.entries.len() {
            self.at(i, input)
        } else {
            None
        }
    }

    /// Get a string by ID, using the original input for InputRef entries
    pub fn get_with_input<'a>(&'a self, id: u32, input: &'a [u8]) -> (r: Option<&'a [u8]>)
        ensures
            match r {
                Some(b) => self.resolve(Some(input@), id) == Some(b@),
                None => self.resolve(Some(input@), id) is None,
            },
    {
        self.resolve_id(id, Some(input))
    }

    /// Get a string by ID (only copied strings resolve; use get_with_input for the
    /// others)
    pub fn get(&self, id: u32) -> (r: Option<&[u8]>)
        ensures
            match r {
                Some(b) => self.resolve(None, id) == Some(b@),
                None => self.resolve(None, id) is None,
            },
    {
        self.resolve_id(id, None)
    }

    /// Get a string by ID as UTF-8 str (only copied strings resolve)
    pub fn get_str(&self, id: u32) -> (r: Option<&str>)
        ensures
            match self.resolve(None, id) {
                Some(b) => match r {
                    Some(t) => valid_utf8(b) && t@ == decode_utf8(b),
                    None => !valid_utf8(b),
                },
                None => r is None,
            },
    {
        match self.get(id) {
            Some(b) => utf8_str(b),
            None => None,
        }
    }

    /// Get a string by ID as UTF-8 str, using original input
    pub fn get_str_with_input<'a>(&'a self, id: u32, input: &'a [u8]) -> (r: Option<&'a str>)
        ensures
            match self.resolve(Some(input@), id) {
                Some(b) => match r {
                    Some(t) => valid_utf8(b) && t@ == decode_utf8(b),
                    None => !valid_utf8(b),
                },
                None => r is None,
            },
    {
        match self.get_with_input(id, input) {
            Some(b) => utf8_str(b),
            None => None,
        }
    }

    /// Get the number of entries, the reserved one included
    pub fn len(&self) -> (r: usize)
        ensures
            r == self.spec_entries().len(),
    {
        self.entries.len()
    }

    /// Check if the pool holds no string but the reserved one
    pub fn is_empty(&self) -> (r: bool)
        ensures
            r == (self.spec_entries().len() <= 1),
    {
        self.entries.len() <= 1
    }

    /// Get total bytes used for copied string storage
    pub fn bytes_used(&self) -> (r: usize)
        ensures
            r == self.spec_data().len(),
    {
        self.data.len()
    }
}

impl Default for StringPool {
    fn default() -> (r: Self)
        ensures
            r.spec_entries() == Seq::<StringEntry>::empty(),
            r.spec_data() == Seq::<u8>::empty(),
    {
        StringPool { entries: Vec::new(), data: Vec::new() }
    }
}

} // verus!
