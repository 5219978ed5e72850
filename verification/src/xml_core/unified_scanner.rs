//! Unified Scanner with ScanHandler Trait
//!
//! Provides a trait-based interface for XML scanning that enables both:
//! - Index building (for DOM/XPath queries)
//! - SAX event collection (for streaming APIs)
//!
//! The scanner reports spans (byte offsets) instead of string copies. What it
//! reports for an input is stated by `scan_from`: the stream of events, step by
//! step, that a whole scan hands to its handler.

use vstd::prelude::*;

use super::primitives::{has_prefix, lemma_ws_prefix_len, ws_prefix_len};
use super::scanner::{
    gt_outside_quotes, is_name_start_char, lemma_name_char_run, name_len_at, spec_name_start,
    Scanner,
};
use crate::index::span::Span;

verus! {

/// One call that the scanner makes on its handler.
pub enum ScanEvent {
    StartElement { name: Span, attrs: Seq<(Span, Span)>, is_empty: bool },
    EndElement { name: Span },
    Text { span: Span, needs_decode: bool },
    CData { span: Span },
    Comment { span: Span },
    ProcessingInstruction { target: Span, data: Option<Span> },
    Doctype { content: Span },
}

/// Trait for handling scan events
///
/// Implement this trait to receive XML parsing events. The scanner calls
/// these methods as it tokenizes the input, passing spans (byte offsets)
/// instead of string copies for zero-copy efficiency.
///
/// `events` is the handler's record of the calls it has received: each method
/// appends its own event to it.
pub trait ScanHandler {
    /// The calls received so far, in order.
    spec fn scan_events(&self) -> Seq<ScanEvent>;

    /// What the handler keeps true of its state across calls.
    spec fn inv(&self) -> bool;

    /// Called when an element starts (`is_empty` for a self-closing element such as `<br/>`)
    fn start_element(&mut self, name: Span, attrs: &[(Span, Span)], is_empty: bool)
        ensures
            old(self).inv() ==> final(self).inv(),
            final(self).scan_events() == old(self).scan_events().push(
                ScanEvent::StartElement { name, attrs: attrs@, is_empty },
            ),
    ;

    /// Called when an element ends
    fn end_element(&mut self, name: Span)
        ensures
            old(self).inv() ==> final(self).inv(),
            final(self).scan_events() == old(self).scan_events().push(ScanEvent::EndElement { name }),
    ;

    /// Called for text content; `needs_entity_decode` when the text holds a `&`
    fn text(&mut self, span: Span, needs_entity_decode: bool)
        ensures
            old(self).inv() ==> final(self).inv(),
            final(self).scan_events() == old(self).scan_events().push(
                ScanEvent::Text { span, needs_decode: needs_entity_decode },
            ),
    ;

    /// Called for CDATA sections (the span excludes `<![CDATA[` and `]]>`)
    fn cdata(&mut self, span: Span)
        ensures
            old(self).inv() ==> final(self).inv(),
            final(self).scan_events() == old(self).scan_events().push(ScanEvent::CData { span }),
    ;

    /// Called for comments (the span excludes `<!--` and `-->`)
    fn comment(&mut self, span: Span)
        ensures
            old(self).inv() ==> final(self).inv(),
            final(self).scan_events() == old(self).scan_events().push(ScanEvent::Comment { span }),
    ;

    /// Called for processing instructions
    fn processing_instruction(&mut self, target: Span, data: Option<Span>)
        ensures
            old(self).inv() ==> final(self).inv(),
            final(self).scan_events() == old(self).scan_events().push(
                ScanEvent::ProcessingInstruction { target, data },
            ),
    ;

    /// Called for an XML declaration; not part of the recorded calls
    fn xml_declaration(
        &mut self,
        version: Option<Span>,
        encoding: Option<Span>,
        standalone: Option<Span>,
    )
        ensures
            old(self).inv() ==> final(self).inv(),
            final(self).scan_events() == old(self).scan_events(),
    ;

    /// Called for DOCTYPE
    fn doctype(&mut self, content: Span)
        ensures
            old(self).inv() ==> final(self).inv(),
            final(self).scan_events() == old(self).scan_events().push(ScanEvent::Doctype { content }),
    ;
}

/// The bytes of `s` from `i` on.
pub open spec fn tail(s: Seq<u8>, i: int) -> Seq<u8> {
    s.subrange(i, s.len() as int)
}

/// The span from `start` to `end`, its length capped at `u16::MAX`.
pub open spec fn span_of(start: int, end: int) -> Span {
    Span {
        offset: start as u32,
        len: if end - start <= 0xFFFF {
            (end - start) as u16
        } else {
            0xFFFFu16
        },
    }
}

/// The position after the whitespace that starts at `i`.
pub open spec fn skip_ws(s: Seq<u8>, i: int) -> int {
    i + ws_prefix_len(tail(s, i))
}

/// The first position at or after `i` where `pat` occurs, or -1.
pub open spec fn find_pat(s: Seq<u8>, i: int, pat: Seq<u8>) -> int
    decreases s.len() - i,
{
    if i < 0 || i >= s.len() {
        -1
    } else if has_prefix(tail(s, i), pat) {
        i
    } else {
        find_pat(s, i + 1, pat)
    }
}

/// A found position, or the end of the input for -1.
pub open spec fn or_end(s: Seq<u8>, f: int) -> int {
    if f < 0 {
        s.len() as int
    } else {
        f
    }
}

/// Whether byte `x` occurs in `s[a..b]`.
pub open spec fn has_byte(s: Seq<u8>, a: int, b: int, x: u8) -> bool {
    exists|j: int| a <= j < b && s[j] == x
}

/// Where the scan resumes after skipping an unrecognised `<!...>`: past the next `>`
/// outside quotes, or at the end.
pub open spec fn after_tag_end(s: Seq<u8>, i: int) -> int {
    match gt_outside_quotes(s, i, false, false) {
        Some(g) => g + 1,
        None => s.len() as int,
    }
}

/// Where the scan resumes after skipping a processing instruction without a target.
pub open spec fn after_pi_end(s: Seq<u8>, i: int) -> int {
    let f = find_pat(s, i, seq![0x3Fu8, 0x3Eu8]);
    if f < 0 {
        s.len() as int
    } else {
        f + 2
    }
}

/// Text from `p` up to the next `<`.
pub open spec fn text_step(s: Seq<u8>, p: int) -> (Seq<ScanEvent>, int) {
    let e = or_end(s, find_pat(s, p, seq![0x3Cu8]));
    if e > p {
        (seq![ScanEvent::Text { span: span_of(p, e), needs_decode: has_byte(s, p, e, 0x26) }], e)
    } else {
        (seq![], e)
    }
}

/// An end tag whose name is looked for at `r` (just after `</`).
pub open spec fn end_tag_step(s: Seq<u8>, r: int) -> (Seq<ScanEvent>, int) {
    let a = skip_ws(s, r);
    match name_len_at(tail(s, a)) {
        None => (seq![], after_tag_end(s, a)),
        Some(n) => {
            let c = skip_ws(s, a + n);
            (
                seq![ScanEvent::EndElement { name: span_of(a, a + n) }],
                if c < s.len() && s[c] == 0x3E {
                    c + 1
                } else {
                    c
                },
            )
        },
    }
}

/// A comment whose content starts at `c` (just after `<!--`).
pub open spec fn comment_step(s: Seq<u8>, c: int) -> (Seq<ScanEvent>, int) {
    let f = find_pat(s, c, seq![0x2Du8, 0x2Du8, 0x3Eu8]);
    if f < 0 {
        (seq![ScanEvent::Comment { span: span_of(c, s.len() as int) }], s.len() as int)
    } else {
        (seq![ScanEvent::Comment { span: span_of(c, f) }], f + 3)
    }
}

/// A CDATA section whose content starts at `c` (just after `<![CDATA[`).
pub open spec fn cdata_step(s: Seq<u8>, c: int) -> (Seq<ScanEvent>, int) {
    let f = find_pat(s, c, seq![0x5Du8, 0x5Du8, 0x3Eu8]);
    if f < 0 {
        (seq![ScanEvent::CData { span: span_of(c, s.len() as int) }], s.len() as int)
    } else {
        (seq![ScanEvent::CData { span: span_of(c, f) }], f + 3)
    }
}

/// A processing instruction whose target is looked for at `t` (just after `<?`).
pub open spec fn pi_step(s: Seq<u8>, t: int) -> (Seq<ScanEvent>, int) {
    match name_len_at(tail(s, t)) {
        None => (seq![], after_pi_end(s, t)),
        Some(n) => {
            let d = skip_ws(s, t + n);
            let f = find_pat(s, d, seq![0x3Fu8, 0x3Eu8]);
            if f < 0 {
                (
                    seq![ScanEvent::ProcessingInstruction { target: span_of(t, t + n), data: None }],
                    s.len() as int,
                )
            } else {
                (
                    seq![
                        ScanEvent::ProcessingInstruction {
                            target: span_of(t, t + n),
                            data: if f > d {
                                Some(span_of(d, f))
                            } else {
                                None
                            },
                        },
                    ],
                    f + 2,
                )
            }
        },
    }
}

/// The position of the `>` that closes a DOCTYPE, looking from `i` with `depth`
/// unclosed `[`, or -1.
pub open spec fn doctype_close(s: Seq<u8>, i: int, depth: int) -> int
    decreases s.len() - i,
{
    if i < 0 || i >= s.len() {
        -1
    } else if s[i] == 0x5B {
        doctype_close(s, i + 1, depth + 1)
    } else if s[i] == 0x5D {
        doctype_close(s, i + 1, depth - 1)
    } else if s[i] == 0x3E && depth == 0 {
        i
    } else {
        doctype_close(s, i + 1, depth)
    }
}

/// `DOCTYPE` in upper case.
pub open spec fn doctype_upper() -> Seq<u8> {
    seq![0x44u8, 0x4Fu8, 0x43u8, 0x54u8, 0x59u8, 0x50u8, 0x45u8]
}

/// `doctype` in lower case.
pub open spec fn doctype_lower() -> Seq<u8> {
    seq![0x64u8, 0x6Fu8, 0x63u8, 0x74u8, 0x79u8, 0x70u8, 0x65u8]
}

/// `[CDATA[`.
pub open spec fn cdata_open() -> Seq<u8> {
    seq![0x5Bu8, 0x43u8, 0x44u8, 0x41u8, 0x54u8, 0x41u8, 0x5Bu8]
}

/// A DOCTYPE that starts at `r` (just after `<!`).
pub open spec fn doctype_step(s: Seq<u8>, r: int) -> (Seq<ScanEvent>, int) {
    let k = if has_prefix(tail(s, r), doctype_upper()) || has_prefix(tail(s, r), doctype_lower()) {
        r + 7
    } else {
        r
    };
    let e = doctype_close(s, k, 0);
    if e < 0 {
        (seq![], s.len() as int)
    } else {
        (seq![ScanEvent::Doctype { content: span_of(r, e) }], e + 1)
    }
}

/// An attribute whose name starts at `a`: its name and value spans when it has a
/// quoted value, and where the scan goes on.
pub open spec fn attr_at(s: Seq<u8>, a: int) -> (Option<(Span, Span)>, int) {
    match name_len_at(tail(s, a)) {
        None => (None, a),
        Some(n) => {
            let b = skip_ws(s, a + n);
            if !(b < s.len() && s[b] == 0x3D) {
                (None, b)
            } else {
                let c = skip_ws(s, b + 1);
                if !(c < s.len() && (s[c] == 0x22 || s[c] == 0x27)) {
                    (None, c)
                } else {
                    let ve = or_end(s, find_pat(s, c + 1, seq![s[c]]));
                    (
                        Some((span_of(a, a + n), span_of(c + 1, ve))),
                        if ve < s.len() {
                            ve + 1
                        } else {
                            ve
                        },
                    )
                }
            }
        },
    }
}

/// The rest of a start tag from `i`, with the attributes `acc` read so far: the
/// attributes, whether the tag closes itself, and where the scan goes on; `None`
/// when the input ends first.
pub open spec fn tag_rest(s: Seq<u8>, i: int, acc: Seq<(Span, Span)>) -> Option<
    (Seq<(Span, Span)>, bool, int),
>
    decreases s.len() - i,
{
    if i < 0 || i >= s.len() {
        None
    } else if s[i] == 0x3E {
        Some((acc, false, i + 1))
    } else if s[i] == 0x2F && i + 1 < s.len() && s[i + 1] == 0x3E {
        Some((acc, true, i + 2))
    } else if s[i] != 0x2F && spec_name_start(s[i]) {
        let (a, np) = attr_at(s, i);
        proof {
            lemma_attr_at_progress(s, i);
            lemma_ws_prefix_len(tail(s, np));
        }
        tag_rest(
            s,
            skip_ws(s, np),
            match a {
                Some(x) => acc.push(x),
                None => acc,
            },
        )
    } else {
        proof {
            lemma_ws_prefix_len(tail(s, i + 1));
        }
        tag_rest(s, skip_ws(s, i + 1), acc)
    }
}

/// A start tag at `p` (where `<` is followed by a name start byte).
pub open spec fn start_tag_step(s: Seq<u8>, p: int) -> (Seq<ScanEvent>, int) {
    match name_len_at(tail(s, p + 1)) {
        None => (seq![], p + 1),
        Some(n) => match tag_rest(s, skip_ws(s, p + 1 + n), seq![]) {
            Some((attrs, is_empty, np)) => (
                seq![ScanEvent::StartElement { name: span_of(p + 1, p + 1 + n), attrs, is_empty }],
                np,
            ),
            None => (seq![], s.len() as int),
        },
    }
}

/// Markup at `p`, where `s[p]` is `<`.
pub open spec fn markup_step(s: Seq<u8>, p: int) -> (Seq<ScanEvent>, int) {
    let q = p + 1;
    let r = q + 1;
    if q < s.len() && s[q] == 0x2F {
        end_tag_step(s, q + 1)
    } else if q < s.len() && s[q] == 0x21 {
        if r + 1 < s.len() && s[r] == 0x2D && s[r + 1] == 0x2D {
            comment_step(s, r + 2)
        } else if r < s.len() && s[r] == 0x5B {
            if has_prefix(tail(s, r), cdata_open()) {
                cdata_step(s, r + 7)
            } else {
                (seq![], after_tag_end(s, r))
            }
        } else if r < s.len() && (s[r] == 0x44 || s[r] == 0x64) {
            doctype_step(s, r)
        } else {
            (seq![], after_tag_end(s, r))
        }
    } else if q < s.len() && s[q] == 0x3F {
        pi_step(s, q + 1)
    } else if q < s.len() && spec_name_start(s[q]) {
        start_tag_step(s, p)
    } else {
        (seq![ScanEvent::Text { span: span_of(p, p + 1), needs_decode: false }], q)
    }
}

/// One step of the scan at `p`: markup when `s[p]` is `<`, text otherwise.
pub open spec fn scan_step(s: Seq<u8>, p: int) -> (Seq<ScanEvent>, int) {
    if s[p] == 0x3C {
        markup_step(s, p)
    } else {
        text_step(s, p)
    }
}

/// Every call that a scan from `p` to the end of `s` makes on its handler, in order.
pub open spec fn scan_from(s: Seq<u8>, p: int) -> Seq<ScanEvent>
    decreases s.len() - p,
{
    if p < 0 || p >= s.len() {
        seq![]
    } else {
        let (evs, np) = scan_step(s, p);
        proof {
            lemma_scan_step_progress(s, p);
        }
        evs + scan_from(s, np)
    }
}

pub proof fn lemma_find_pat_range(s: Seq<u8>, i: int, pat: Seq<u8>)
    ensures
        find_pat(s, i, pat) == -1 || (0 <= i <= find_pat(s, i, pat) < s.len() && has_prefix(
            tail(s, find_pat(s, i, pat)),
            pat,
        ) && find_pat(s, i, pat) + pat.len() <= s.len()),
    decreases s.len() - i,
{
    if i >= 0 && i < s.len() && !has_prefix(tail(s, i), pat) {
        lemma_find_pat_range(s, i + 1, pat);
    }
}

pub proof fn lemma_gt_range(s: Seq<u8>, from: int, sq: bool, dq: bool)
    ensures
        gt_outside_quotes(s, from, sq, dq) matches Some(g) ==> 0 <= from <= g < s.len(),
    decreases s.len() - from,
{
    if 0 <= from < s.len() {
        let b = s[from];
        if b == 0x22 && !sq {
            lemma_gt_range(s, from + 1, sq, !dq);
        } else if b == 0x27 && !dq {
            lemma_gt_range(s, from + 1, !sq, dq);
        } else if !(b == 0x3E && !sq && !dq) {
            lemma_gt_range(s, from + 1, sq, dq);
        }
    }
}

pub proof fn lemma_doctype_close_range(s: Seq<u8>, i: int, depth: int)
    ensures
        doctype_close(s, i, depth) == -1 || 0 <= i <= doctype_close(s, i, depth) < s.len(),
    decreases s.len() - i,
{
    if 0 <= i < s.len() {
        if s[i] == 0x5B {
            lemma_doctype_close_range(s, i + 1, depth + 1);
        } else if s[i] == 0x5D {
            lemma_doctype_close_range(s, i + 1, depth - 1);
        } else if !(s[i] == 0x3E && depth == 0) {
            lemma_doctype_close_range(s, i + 1, depth);
        }
    }
}

pub proof fn lemma_skip_ws(s: Seq<u8>, i: int)
    requires
        0 <= i <= s.len(),
    ensures
        i <= skip_ws(s, i) <= s.len(),
{
    lemma_ws_prefix_len(tail(s, i));
}

pub proof fn lemma_name_len(s: Seq<u8>, a: int)
    requires
        0 <= a <= s.len(),
    ensures
        name_len_at(tail(s, a)) matches Some(n) ==> 1 <= n && a + n <= s.len(),
        a < s.len() && spec_name_start(s[a]) ==> name_len_at(tail(s, a)) is Some,
{
    if a < s.len() {
        lemma_name_char_run(tail(s, a).drop_first());
        assert(tail(s, a)[0] == s[a]);
    }
}

pub proof fn lemma_attr_at_progress(s: Seq<u8>, a: int)
    requires
        0 <= a < s.len(),
        spec_name_start(s[a]),
    ensures
        a < attr_at(s, a).1 <= s.len(),
{
    lemma_name_len(s, a);
    let n = name_len_at(tail(s, a))->0;
    lemma_skip_ws(s, a + n);
    let b = skip_ws(s, a + n);
    if b < s.len() && s[b] == 0x3D {
        lemma_skip_ws(s, b + 1);
        let c = skip_ws(s, b + 1);
        if c < s.len() && (s[c] == 0x22 || s[c] == 0x27) {
            lemma_find_pat_range(s, c + 1, seq![s[c]]);
        }
    }
}

pub proof fn lemma_tag_rest_range(s: Seq<u8>, i: int, acc: Seq<(Span, Span)>)
    ensures
        tag_rest(s, i, acc) matches Some((_, _, np)) ==> 0 <= i < np <= s.len(),
    decreases s.len() - i,
{
    if 0 <= i < s.len() {
        if s[i] == 0x3E {
        } else if s[i] == 0x2F && i + 1 < s.len() && s[i + 1] == 0x3E {
        } else if s[i] != 0x2F && spec_name_start(s[i]) {
            let (a, np) = attr_at(s, i);
            lemma_attr_at_progress(s, i);
            lemma_skip_ws(s, np);
            lemma_tag_rest_range(
                s,
                skip_ws(s, np),
                match a {
                    Some(x) => acc.push(x),
                    None => acc,
                },
            );
        } else {
            lemma_skip_ws(s, i + 1);
            lemma_tag_rest_range(s, skip_ws(s, i + 1), acc);
        }
    }
}

pub proof fn lemma_markup_step_progress(s: Seq<u8>, p: int)
    requires
        0 <= p < s.len(),
    ensures
        p < markup_step(s, p).1 <= s.len(),
{
    let q = p + 1;
    let r = q + 1;
    if q < s.len() && s[q] == 0x2F {
        lemma_skip_ws(s, q + 1);
        let a = skip_ws(s, q + 1);
        lemma_name_len(s, a);
        lemma_gt_range(s, a, false, false);
        if let Some(n) = name_len_at(tail(s, a)) {
            lemma_skip_ws(s, a + n);
        }
    } else if q < s.len() && s[q] == 0x21 {
        lemma_gt_range(s, r, false, false);
        if r + 1 < s.len() && s[r] == 0x2D && s[r + 1] == 0x2D {
            lemma_find_pat_range(s, r + 2, seq![0x2Du8, 0x2Du8, 0x3Eu8]);
        } else if r < s.len() && s[r] == 0x5B {
            if has_prefix(tail(s, r), cdata_open()) {
                lemma_find_pat_range(s, r + 7, seq![0x5Du8, 0x5Du8, 0x3Eu8]);
            }
        } else if r < s.len() && (s[r] == 0x44 || s[r] == 0x64) {
            let k = if has_prefix(tail(s, r), doctype_upper()) || has_prefix(
                tail(s, r),
                doctype_lower(),
            ) {
                r + 7
            } else {
                r
            };
            lemma_doctype_close_range(s, k, 0);
        }
    } else if q < s.len() && s[q] == 0x3F {
        let t = q + 1;
        lemma_name_len(s, t);
        lemma_find_pat_range(s, t, seq![0x3Fu8, 0x3Eu8]);
        if let Some(n) = name_len_at(tail(s, t)) {
            lemma_skip_ws(s, t + n);
            lemma_find_pat_range(s, skip_ws(s, t + n), seq![0x3Fu8, 0x3Eu8]);
        }
    } else if q < s.len() && spec_name_start(s[q]) {
        lemma_name_len(s, q);
        let n = name_len_at(tail(s, q))->0;
        lemma_skip_ws(s, q + n);
        lemma_tag_rest_range(s, skip_ws(s, q + n), seq![]);
    }
}

pub proof fn lemma_scan_step_progress(s: Seq<u8>, p: int)
    requires
        0 <= p < s.len(),
    ensures
        p < scan_step(s, p).1 <= s.len(),
{
    if s[p] == 0x3C {
        lemma_markup_step_progress(s, p);
    } else {
        lemma_find_pat_range(s, p + 1, seq![0x3Cu8]);
        assert(tail(s, p)[0] == s[p]);
        if has_prefix(tail(s, p), seq![0x3Cu8]) {
            assert(tail(s, p).subrange(0, 1)[0] == seq![0x3Cu8][0]);
        }
    }
}

pub proof fn lemma_find_pat_skip(s: Seq<u8>, a: int, b: int, pat: Seq<u8>)
    requires
        0 <= a <= b <= s.len(),
        pat.len() > 0,
        forall|j: int| a <= j < b ==> s[j] != pat[0],
    ensures
        find_pat(s, a, pat) == find_pat(s, b, pat),
    decreases b - a,
{
    if a < b {
        if has_prefix(tail(s, a), pat) {
            assert(tail(s, a).subrange(0, pat.len() as int)[0] == s[a]);
        }
        lemma_find_pat_skip(s, a + 1, b, pat);
    }
}

/// Whether `s[i..]` starts with the single byte `b`.
pub proof fn lemma_prefix_byte(s: Seq<u8>, i: int, b: u8)
    requires
        0 <= i < s.len(),
    ensures
        has_prefix(tail(s, i), seq![b]) == (s[i] == b),
{
    if s[i] == b {
        assert(tail(s, i).subrange(0, 1) =~= seq![b]);
    } else if has_prefix(tail(s, i), seq![b]) {
        assert(tail(s, i).subrange(0, 1)[0] == seq![b][0]);
    }
}

/// Whether a peeked byte is `b`.
fn is_byte(o: Option<u8>, b: u8) -> (r: bool)
    ensures
        r == (o == Some(b)),
{
    match o {
        Some(c) => c == b,
        None => false,
    }
}

/// The span from `start` to `end`, its length capped at `u16::MAX`.
fn span_between(start: usize, end: usize) -> (r: Span)
    requires
        start <= end,
    ensures
        r == span_of(start as int, end as int),
{
    let d = end - start;
    let len: u16 = if d <= 0xFFFF {
        d as u16
    } else {
        0xFFFF
    };
    Span::new(#[verifier::truncate] (start as u32), len)
}

/// Unified scanner that uses ScanHandler for event dispatch
pub struct UnifiedScanner<'a> {
    input: &'a [u8],
    scanner: Scanner<'a>,
    /// Reusable attribute buffer to avoid per-element allocations
    attrs_buf: Vec<(Span, Span)>,
}

impl<'a> UnifiedScanner<'a> {
    /// The input being scanned.
    pub closed spec fn spec_input(&self) -> Seq<u8> {
        self.input@
    }

    /// The position from which the next scan goes on.
    pub closed spec fn spec_pos(&self) -> int {
        self.scanner.spec_pos()
    }

    /// The scanner reads its own input and stands within it.
    pub closed spec fn wf(&self) -> bool {
        &&& self.scanner.spec_input() == self.input@
        &&& 0 <= self.scanner.spec_pos() <= self.input@.len()
        &&& self.input@.len() <= usize::MAX
    }

    /// Create a new unified scanner for the input
    pub fn new(input: &'a [u8]) -> (r: Self)
        ensures
            r.wf(),
            r.spec_input() == input@,
            r.spec_pos() == 0,
    {
        let _n = input.len();
        Self { input, scanner: Scanner::new(input), attrs_buf: Vec::with_capacity(8) }
    }

    /// Scan the entire document, calling handler methods for each token: the calls
    /// made are `scan_from` the current position, and the scan ends at the end of
    /// the input.
    pub fn scan<H: ScanHandler>(&mut self, handler: &mut H)
        requires
            old(self).wf(),
        ensures
            final(self).wf(),
            final(self).spec_input() == old(self).spec_input(),
            final(self).spec_pos() == old(self).spec_input().len(),
            old(handler).inv() ==> final(handler).inv(),
            final(handler).scan_events() == old(handler).scan_events() + scan_from(
                old(self).spec_input(),
                old(self).spec_pos(),
            ),
    {
        let ghost s = self.input@;
        let ghost p0 = self.scanner.spec_pos();
        let ghost h0 = handler.scan_events();
        while !self.scanner.is_eof()
            invariant
                self.wf(),
                self.input@ == s,
                s == old(self).input@,
                p0 <= s.len(),
                p0 == old(self).scanner.spec_pos(),
                h0 == old(handler).scan_events(),
                old(handler).inv() ==> handler.inv(),
                handler.scan_events() + scan_from(s, self.scanner.spec_pos()) == h0 + scan_from(s, p0),
            decreases s.len() - self.scanner.spec_pos(),
        {
            let ghost p = self.scanner.spec_pos();
            let ghost hp = handler.scan_events();
            proof {
                lemma_scan_step_progress(s, p);
            }
            let next = self.scanner.peek();
            match next {
                Some(c) => {
                    if c == 0x3C {
                        self.scan_markup(handler);
                    } else {
                        self.scan_text(handler);
                    }
                },
                None => {},
            }
            assert(scan_from(s, p) == scan_step(s, p).0 + scan_from(s, scan_step(s, p).1));
            assert(hp + scan_from(s, p) =~= handler.scan_events() + scan_from(s, self.scanner.spec_pos()));
        }
    }

    /// Scan markup starting with '<'
    fn scan_markup<H: ScanHandler>(&mut self, handler: &mut H)
        requires
            old(self).wf(),
            old(self).spec_pos() < old(self).spec_input().len(),
            old(self).spec_input()[old(self).spec_pos()] == 0x3C,
        ensures
            final(self).wf(),
            final(self).spec_input() == old(self).spec_input(),
            final(self).spec_pos() == markup_step(old(self).spec_input(), old(self).spec_pos()).1,
            old(handler).inv() ==> final(handler).inv(),
            final(handler).scan_events() == old(handler).scan_events() + markup_step(
                old(self).spec_input(),
                old(self).spec_pos(),
            ).0,
    {
        let ghost s = self.input@;
        let start = self.scanner.position();
        self.scanner.advance(1);
        let next = self.scanner.peek();
        if is_byte(next, 0x2F) {
            self.scanner.advance(1);
            self.scan_end_tag(handler);
        } else if is_byte(next, 0x21) {
            self.scanner.advance(1);
            let a = self.scanner.peek();
            let b = if a.is_some() {
                self.scanner.peek_at(1)
            } else {
                None
            };
            if is_byte(a, 0x2D) && is_byte(b, 0x2D) {
                self.scanner.advance(2);
                self.scan_comment(handler);
            } else if is_byte(a, 0x5B) {
                let open: &[u8] = &[0x5Bu8, 0x43u8, 0x44u8, 0x41u8, 0x54u8, 0x41u8, 0x5Bu8];
                assert(open@ =~= cdata_open());
                if self.scanner.starts_with(open) {
                    self.scanner.advance(7);
                    self.scan_cdata(handler);
                } else {
                    self.skip_to_tag_end();
                }
            } else if is_byte(a, 0x44) || is_byte(a, 0x64) {
                self.scan_doctype(handler);
            } else {
                self.skip_to_tag_end();
            }
        } else if is_byte(next, 0x3F) {
            self.scanner.advance(1);
            self.scan_pi(handler);
        } else if next.is_some() && is_name_start_char(next.unwrap()) {
            self.scanner.set_position(start);
            self.scan_start_tag(handler);
        } else {
            // Invalid markup (e.g., "<1invalid/>"): the '<' is text, and the scan
            // goes on just after it
            let lt_span = Span::new(#[verifier::truncate] (start as u32), 1);
            handler.text(lt_span, false);
        }
    }

    /// Moves to the first occurrence of `pat` at or after the current position and
    /// says whether there is one; without one, the position is the end of the input.
    fn seek(&mut self, pat: &[u8]) -> (found: bool)
        requires
            old(self).wf(),
            pat@.len() > 0,
        ensures
            final(self).wf(),
            final(self).spec_input() == old(self).spec_input(),
            found == (find_pat(old(self).spec_input(), old(self).spec_pos(), pat@) >= 0),
            found ==> final(self).spec_pos() == find_pat(
                old(self).spec_input(),
                old(self).spec_pos(),
                pat@,
            ),
            found ==> final(self).spec_pos() + pat@.len() <= final(self).spec_input().len(),
            found ==> old(self).spec_pos() <= final(self).spec_pos(),
            !found ==> final(self).spec_pos() == old(self).spec_input().len(),
    {
        let ghost s = self.input@;
        let ghost p0 = self.scanner.spec_pos();
        loop
            invariant
                self.wf(),
                self.input@ == s,
                s == old(self).input@,
                pat@.len() > 0,
                p0 <= self.scanner.spec_pos(),
                p0 == old(self).scanner.spec_pos(),
                find_pat(s, p0, pat@) == find_pat(s, self.scanner.spec_pos(), pat@),
            decreases s.len() - self.scanner.spec_pos(),
        {
            let ghost cur = self.scanner.spec_pos();
            match self.scanner.find_byte(pat[0]) {
                Some(pos) => {
                    assert forall|j: int| cur <= j < pos implies s[j] != pat@[0] by {
                        assert(self.scanner.spec_rest()[j - cur] == s[j]);
                    }
                    assert(self.scanner.spec_rest()[pos - cur] == s[pos as int]);
                    proof {
                        lemma_find_pat_skip(s, cur, pos as int, pat@);
                        lemma_find_pat_range(s, pos as int, pat@);
                    }
                    self.scanner.set_position(pos);
                    if self.scanner.starts_with(pat) {
                        assert(p0 <= pos);
                        return true;
                    }
                    self.scanner.advance(1);
                },
                None => {
                    assert forall|j: int| cur <= j < s.len() implies s[j] != pat@[0] by {
                        assert(self.scanner.spec_rest()[j - cur] == s[j]);
                        if s[j] == pat@[0] {
                            crate::xml_core::primitives::lemma_index_of(
                                self.scanner.spec_rest(),
                                pat@[0],
                            );
                        }
                    }
                    proof {
                        lemma_find_pat_skip(s, cur, s.len() as int, pat@);
                    }
                    self.scanner.set_position(self.input.len());
                    return false;
                },
            }
        }
    }

    /// Scan text content
    fn scan_text<H: ScanHandler>(&mut self, handler: &mut H)
        requires
            old(self).wf(),
            old(self).spec_pos() < old(self).spec_input().len(),
            old(self).spec_input()[old(self).spec_pos()] != 0x3C,
        ensures
            final(self).wf(),
            final(self).spec_input() == old(self).spec_input(),
            final(self).spec_pos() == text_step(old(self).spec_input(), old(self).spec_pos()).1,
            old(handler).inv() ==> final(handler).inv(),
            final(handler).scan_events() == old(handler).scan_events() + text_step(
                old(self).spec_input(),
                old(self).spec_pos(),
            ).0,
    {
        let ghost s = self.input@;
        let start = self.scanner.position();
        let mut needs_decode = false;
        loop
            invariant
                self.wf(),
                self.input@ == s,
                s == old(self).input@,
                start <= self.scanner.spec_pos() <= s.len(),
                forall|j: int| start <= j < self.scanner.spec_pos() ==> s[j] != 0x3C,
                needs_decode == has_byte(s, start as int, self.scanner.spec_pos(), 0x26),
            ensures
                self.wf(),
                self.input@ == s,
                s == old(self).input@,
                start <= self.scanner.spec_pos() <= s.len(),
                forall|j: int| start <= j < self.scanner.spec_pos() ==> s[j] != 0x3C,
                needs_decode == has_byte(s, start as int, self.scanner.spec_pos(), 0x26),
                self.scanner.spec_pos() < s.len() ==> s[self.scanner.spec_pos()] == 0x3C,
            decreases s.len() - self.scanner.spec_pos(),
        {
            let ghost cur = self.scanner.spec_pos();
            let next = self.scanner.peek();
            match next {
                Some(c) => {
                    if c == 0x3C {
                        break;
                    }
                    if c == 0x26 {
                        needs_decode = true;
                    }
                    self.scanner.advance(1);
                    assert(needs_decode == has_byte(s, start as int, cur + 1, 0x26)) by {
                        if c != 0x26 && has_byte(s, start as int, cur + 1, 0x26) {
                            let j = choose|j: int| start <= j < cur + 1 && s[j] == 0x26;
                            assert(start <= j < cur && s[j] == 0x26);
                        }
                    }
                },
                None => {
                    break;
                },
            }
        }
        let end = self.scanner.position();
        proof {
            lemma_find_pat_skip(s, start as int, end as int, seq![0x3Cu8]);
            if end < s.len() {
                lemma_prefix_byte(s, end as int, 0x3C);
            }
        }
        if end > start {
            let span = span_between(start, end);
            handler.text(span, needs_decode);
        }
    }

    /// Skip to the end of a tag (past the next '>' outside quotes)
    fn skip_to_tag_end(&mut self)
        requires
            old(self).wf(),
        ensures
            final(self).wf(),
            final(self).spec_input() == old(self).spec_input(),
            final(self).spec_pos() == after_tag_end(old(self).spec_input(), old(self).spec_pos()),
    {
        proof {
            lemma_gt_range(self.input@, self.scanner.spec_pos(), false, false);
        }
        let n = self.input.len();
        if let Some(pos) = self.scanner.find_tag_end_quoted() {
            self.scanner.set_position(pos + 1);
        } else {
            self.scanner.set_position(self.input.len());
        }
    }

    /// Skip to the end of a processing instruction
    fn skip_to_pi_end(&mut self)
        requires
            old(self).wf(),
        ensures
            final(self).wf(),
            final(self).spec_input() == old(self).spec_input(),
            final(self).spec_pos() == after_pi_end(old(self).spec_input(), old(self).spec_pos()),
    {
        let close: &[u8] = &[0x3Fu8, 0x3Eu8];
        assert(close@ =~= seq![0x3Fu8, 0x3Eu8]);
        if self.seek(close) {
            self.scanner.advance(2);
        }
    }

    /// Scan an end tag (after `</`)
    fn scan_end_tag<H: ScanHandler>(&mut self, handler: &mut H)
        requires
            old(self).wf(),
        ensures
            final(self).wf(),
            final(self).spec_input() == old(self).spec_input(),
            final(self).spec_pos() == end_tag_step(old(self).spec_input(), old(self).spec_pos()).1,
            old(handler).inv() ==> final(handler).inv(),
            final(handler).scan_events() == old(handler).scan_events() + end_tag_step(
                old(self).spec_input(),
                old(self).spec_pos(),
            ).0,
    {
        let ghost s = self.input@;
        proof {
            lemma_skip_ws(s, self.scanner.spec_pos());
        }
        self.scanner.skip_whitespace();
        let name_start = self.scanner.position();
        proof {
            lemma_name_len(s, name_start as int);
        }
        let name_found = self.scanner.read_name().is_some();
        if !name_found {
            self.skip_to_tag_end();
            return;
        }
        let name_end = self.scanner.position();
        proof {
            lemma_skip_ws(s, name_end as int);
        }
        self.scanner.skip_whitespace();
        if is_byte(self.scanner.peek(), 0x3E) {
            self.scanner.advance(1);
        }
        let name_span = span_between(name_start, name_end);
        handler.end_element(name_span);
    }

    /// Scan a comment (after `<!--`)
    fn scan_comment<H: ScanHandler>(&mut self, handler: &mut H)
        requires
            old(self).wf(),
        ensures
            final(self).wf(),
            final(self).spec_input() == old(self).spec_input(),
            final(self).spec_pos() == comment_step(old(self).spec_input(), old(self).spec_pos()).1,
            old(handler).inv() ==> final(handler).inv(),
            final(handler).scan_events() == old(handler).scan_events() + comment_step(
                old(self).spec_input(),
                old(self).spec_pos(),
            ).0,
    {
        let content_start = self.scanner.position();
        let close: &[u8] = &[0x2Du8, 0x2Du8, 0x3Eu8];
        assert(close@ =~= seq![0x2Du8, 0x2Du8, 0x3Eu8]);
        if self.seek(close) {
            let content_end = self.scanner.position();
            let span = span_between(content_start, content_end);
            self.scanner.advance(3);
            handler.comment(span);
        } else {
            let span = span_between(content_start, self.input.len());
            handler.comment(span);
        }
    }

    /// Scan a CDATA section (after `<![CDATA[`)
    fn scan_cdata<H: ScanHandler>(&mut self, handler: &mut H)
        requires
            old(self).wf(),
        ensures
            final(self).wf(),
            final(self).spec_input() == old(self).spec_input(),
            final(self).spec_pos() == cdata_step(old(self).spec_input(), old(self).spec_pos()).1,
            old(handler).inv() ==> final(handler).inv(),
            final(handler).scan_events() == old(handler).scan_events() + cdata_step(
                old(self).spec_input(),
                old(self).spec_pos(),
            ).0,
    {
        let content_start = self.scanner.position();
        let close: &[u8] = &[0x5Du8, 0x5Du8, 0x3Eu8];
        assert(close@ =~= seq![0x5Du8, 0x5Du8, 0x3Eu8]);
        if self.seek(close) {
            let content_end = self.scanner.position();
            let span = span_between(content_start, content_end);
            self.scanner.advance(3);
            handler.cdata(span);
        } else {
            let span = span_between(content_start, self.input.len());
            handler.cdata(span);
        }
    }

    /// Scan a processing instruction (after `<?`)
    fn scan_pi<H: ScanHandler>(&mut self, handler: &mut H)
        requires
            old(self).wf(),
        ensures
            final(self).wf(),
            final(self).spec_input() == old(self).spec_input(),
            final(self).spec_pos() == pi_step(old(self).spec_input(), old(self).spec_pos()).1,
            old(handler).inv() ==> final(handler).inv(),
            final(handler).scan_events() == old(handler).scan_events() + pi_step(
                old(self).spec_input(),
                old(self).spec_pos(),
            ).0,
    {
        let ghost s = self.input@;
        let target_start = self.scanner.position();
        proof {
            lemma_name_len(s, target_start as int);
        }
        let name_found = self.scanner.read_name().is_some();
        if !name_found {
            self.skip_to_pi_end();
            return;
        }
        let target_end = self.scanner.position();
        proof {
            lemma_skip_ws(s, target_end as int);
        }
        self.scanner.skip_whitespace();
        let data_start = self.scanner.position();
        let target_span = span_between(target_start, target_end);
        let close: &[u8] = &[0x3Fu8, 0x3Eu8];
        assert(close@ =~= seq![0x3Fu8, 0x3Eu8]);
        if self.seek(close) {
            let data_end = self.scanner.position();
            let data_span = if data_end > data_start {
                Some(span_between(data_start, data_end))
            } else {
                None
            };
            self.scanner.advance(2);
            handler.processing_instruction(target_span, data_span);
        } else {
            handler.processing_instruction(target_span, None);
        }
    }

    /// Scan DOCTYPE (after `<!`)
    fn scan_doctype<H: ScanHandler>(&mut self, handler: &mut H)
        requires
            old(self).wf(),
        ensures
            final(self).wf(),
            final(self).spec_input() == old(self).spec_input(),
            final(self).spec_pos() == doctype_step(old(self).spec_input(), old(self).spec_pos()).1,
            old(handler).inv() ==> final(handler).inv(),
            final(handler).scan_events() == old(handler).scan_events() + doctype_step(
                old(self).spec_input(),
                old(self).spec_pos(),
            ).0,
    {
        let ghost s = self.input@;
        let start = self.scanner.position();
        let upper: &[u8] = &[0x44u8, 0x4Fu8, 0x43u8, 0x54u8, 0x59u8, 0x50u8, 0x45u8];
        let lower: &[u8] = &[0x64u8, 0x6Fu8, 0x63u8, 0x74u8, 0x79u8, 0x70u8, 0x65u8];
        assert(upper@ =~= doctype_upper());
        assert(lower@ =~= doctype_lower());
        if self.scanner.starts_with(upper) || self.scanner.starts_with(lower) {
            self.scanner.advance(7);
        }
        let ghost k = self.scanner.spec_pos();
        // `[` and `]` seen so far: the nesting depth is their difference
        let mut opens: usize = 0;
        let mut closes: usize = 0;
        loop
            invariant
                self.wf(),
                self.input@ == s,
                s == old(self).input@,
                start <= k <= self.scanner.spec_pos() <= s.len(),
                opens + closes <= self.scanner.spec_pos() - k,
                start == old(self).spec_pos(),
                doctype_step(s, start as int) == (if doctype_close(s, k, 0) < 0 {
                    (seq![], s.len() as int)
                } else {
                    (
                        seq![ScanEvent::Doctype { content: span_of(start as int, doctype_close(s, k, 0)) }],
                        doctype_close(s, k, 0) + 1,
                    )
                }),
                doctype_close(s, k, 0) == doctype_close(
                    s,
                    self.scanner.spec_pos(),
                    opens - closes,
                ),
                handler.scan_events() == old(handler).scan_events(),
                old(handler).inv() ==> handler.inv(),
            decreases s.len() - self.scanner.spec_pos(),
        {
            let next = self.scanner.peek();
            match next {
                Some(c) => {
                    if c == 0x5B {
                        opens += 1;
                        self.scanner.advance(1);
                    } else if c == 0x5D {
                        closes += 1;
                        self.scanner.advance(1);
                    } else if c == 0x3E && opens == closes {
                        let end = self.scanner.position();
                        let span = span_between(start, end);
                        self.scanner.advance(1);
                        handler.doctype(span);
                        return;
                    } else {
                        self.scanner.advance(1);
                    }
                },
                None => {
                    return;
                },
            }
        }
    }

    /// Scan an attribute, returning (name_span, value_span)
    fn scan_attribute(&mut self) -> (r: Option<(Span, Span)>)
        requires
            old(self).wf(),
            old(self).spec_pos() < old(self).spec_input().len(),
            spec_name_start(old(self).spec_input()[old(self).spec_pos()]),
        ensures
            final(self).wf(),
            final(self).spec_input() == old(self).spec_input(),
            r == attr_at(old(self).spec_input(), old(self).spec_pos()).0,
            final(self).attrs_buf@ == old(self).attrs_buf@,
            final(self).spec_pos() == attr_at(old(self).spec_input(), old(self).spec_pos()).1,
    {
        let ghost s = self.input@;
        let name_start = self.scanner.position();
        proof {
            lemma_name_len(s, name_start as int);
        }
        let name_found = self.scanner.read_name().is_some();
        if !name_found {
            return None;
        }
        let name_end = self.scanner.position();
        proof {
            lemma_skip_ws(s, name_end as int);
        }
        self.scanner.skip_whitespace();
        if !is_byte(self.scanner.peek(), 0x3D) {
            return None;
        }
        self.scanner.advance(1);
        proof {
            lemma_skip_ws(s, self.scanner.spec_pos());
        }
        self.scanner.skip_whitespace();
        let quote = match self.scanner.peek() {
            Some(q) => q,
            None => {
                return None;
            },
        };
        if quote != 0x22 && quote != 0x27 {
            return None;
        }
        self.scanner.advance(1);
        let value_start = self.scanner.position();
        loop
            invariant
                self.wf(),
                self.input@ == s,
                s == old(self).input@,
                value_start <= self.scanner.spec_pos() <= s.len(),
                forall|j: int| value_start <= j < self.scanner.spec_pos() ==> s[j] != quote,
                self.attrs_buf@ == old(self).attrs_buf@,
            ensures
                self.attrs_buf@ == old(self).attrs_buf@,
                self.wf(),
                self.input@ == s,
                s == old(self).input@,
                value_start <= self.scanner.spec_pos() <= s.len(),
                forall|j: int| value_start <= j < self.scanner.spec_pos() ==> s[j] != quote,
                self.scanner.spec_pos() < s.len() ==> s[self.scanner.spec_pos()] == quote,
            decreases s.len() - self.scanner.spec_pos(),
        {
            let next = self.scanner.peek();
            match next {
                Some(c) => {
                    if c == quote {
                        break;
                    }
                    self.scanner.advance(1);
                },
                None => {
                    break;
                },
            }
        }
        let value_end = self.scanner.position();
        proof {
            lemma_find_pat_skip(s, value_start as int, value_end as int, seq![quote]);
            if value_end < s.len() {
                lemma_prefix_byte(s, value_end as int, quote);
            }
        }
        if value_end < self.input.len() {
            self.scanner.advance(1);
        }
        let name_span = span_between(name_start, name_end);
        let value_span = span_between(value_start, value_end);
        Some((name_span, value_span))
    }

    /// Scan a start tag at `<`
    fn scan_start_tag<H: ScanHandler>(&mut self, handler: &mut H)
        requires
            old(self).wf(),
            old(self).spec_pos() + 1 < old(self).spec_input().len(),
            spec_name_start(old(self).spec_input()[old(self).spec_pos() + 1]),
        ensures
            final(self).wf(),
            final(self).spec_input() == old(self).spec_input(),
            final(self).spec_pos() == start_tag_step(old(self).spec_input(), old(self).spec_pos()).1,
            old(handler).inv() ==> final(handler).inv(),
            final(handler).scan_events() == old(handler).scan_events() + start_tag_step(
                old(self).spec_input(),
                old(self).spec_pos(),
            ).0,
    {
        let ghost s = self.input@;
        let ghost p = self.scanner.spec_pos();
        self.scanner.advance(1);
        let name_start = self.scanner.position();
        proof {
            lemma_name_len(s, name_start as int);
        }
        let name_found = self.scanner.read_name().is_some();
        if !name_found {
            return;
        }
        let name_end = self.scanner.position();
        let name_span = span_between(name_start, name_end);
        self.attrs_buf.clear();
        proof {
            lemma_skip_ws(s, name_end as int);
        }
        self.scanner.skip_whitespace();
        let ghost i0 = self.scanner.spec_pos();
        loop
            invariant
                self.wf(),
                self.input@ == s,
                s == old(self).input@,
                i0 <= self.scanner.spec_pos() <= s.len(),
                tag_rest(s, i0, seq![]) == tag_rest(s, self.scanner.spec_pos(), self.attrs_buf@),
                handler.scan_events() == old(handler).scan_events(),
                old(handler).inv() ==> handler.inv(),
                name_span == span_of(name_start as int, name_end as int),
                p == old(self).spec_pos(),
                start_tag_step(s, p) == (match tag_rest(s, i0, seq![]) {
                    Some((attrs, is_empty, np)) => (
                        seq![ScanEvent::StartElement { name: name_span, attrs, is_empty }],
                        np,
                    ),
                    None => (seq![], s.len() as int),
                }),
            decreases s.len() - self.scanner.spec_pos(),
        {
            let ghost i = self.scanner.spec_pos();
            let next = self.scanner.peek();
            match next {
                None => {
                    return;
                },
                Some(c) => {
                    if c == 0x3E {
                        self.scanner.advance(1);
                        handler.start_element(name_span, self.attrs_buf.as_slice(), false);
                        return;
                    } else if c == 0x2F {
                        self.scanner.advance(1);
                        if is_byte(self.scanner.peek(), 0x3E) {
                            self.scanner.advance(1);
                            handler.start_element(name_span, self.attrs_buf.as_slice(), true);
                            return;
                        }
                    } else if is_name_start_char(c) {
                        proof {
                            lemma_attr_at_progress(s, i);
                        }
                        if let Some((name, value)) = self.scan_attribute() {
                            self.attrs_buf.push((name, value));
                        }
                    } else {
                        self.scanner.advance(1);
                    }
                    proof {
                        lemma_skip_ws(s, self.scanner.spec_pos());
                    }
                    self.scanner.skip_whitespace();
                },
            }
        }
    }
}


/// One call that a `ScanLog` has received, as plain values.
#[derive(Debug, Clone)]
pub enum ScanRecord {
    StartElement { name: Span, attrs: Vec<(Span, Span)>, is_empty: bool },
    EndElement { name: Span },
    Text { span: Span, needs_decode: bool },
    CData { span: Span },
    Comment { span: Span },
    ProcessingInstruction { target: Span, data: Option<Span> },
    Doctype { content: Span },
}

/// The event that a record stands for.
pub open spec fn record_event(r: ScanRecord) -> ScanEvent {
    match r {
        ScanRecord::StartElement { name, attrs, is_empty } => ScanEvent::StartElement {
            name,
            attrs: attrs@,
            is_empty,
        },
        ScanRecord::EndElement { name } => ScanEvent::EndElement { name },
        ScanRecord::Text { span, needs_decode } => ScanEvent::Text { span, needs_decode },
        ScanRecord::CData { span } => ScanEvent::CData { span },
        ScanRecord::Comment { span } => ScanEvent::Comment { span },
        ScanRecord::ProcessingInstruction { target, data } => ScanEvent::ProcessingInstruction {
            target,
            data,
        },
        ScanRecord::Doctype { content } => ScanEvent::Doctype { content },
    }
}

/// A handler that keeps every call it receives: the events in order, and the
/// XML declarations apart from them (as version, encoding and standalone spans)
#[derive(Debug)]
pub struct ScanLog {
    pub records: Vec<ScanRecord>,
    pub declarations: Vec<(Option<Span>, Option<Span>, Option<Span>)>,
}

impl ScanLog {
    /// An empty log
    pub fn new() -> (r: Self)
        ensures
            r.records@ == Seq::<ScanRecord>::empty(),
            r.declarations@ == Seq::<(Option<Span>, Option<Span>, Option<Span>)>::empty(),
    {
        ScanLog { records: Vec::new(), declarations: Vec::new() }
    }

    fn record(&mut self, rec: ScanRecord)
        ensures
            final(self).records@ == old(self).records@.push(rec),
            final(self).declarations == old(self).declarations,
            final(self).scan_events() == old(self).scan_events().push(record_event(rec)),
    {
        let ghost before = self.records@;
        self.records.push(rec);
        assert(self.records@.map_values(|r: ScanRecord| record_event(r)) =~= before.map_values(
            |r: ScanRecord| record_event(r),
        ).push(record_event(rec)));
    }
}

/// A copy of a slice of span pairs.
fn copy_pairs(attrs: &[(Span, Span)]) -> (r: Vec<(Span, Span)>)
    ensures
        r@ == attrs@,
{
    let mut v: Vec<(Span, Span)> = Vec::new();
    let mut i: usize = 0;
    while i < attrs.len()
        invariant
            i <= attrs@.len(),
            v@ == attrs@.take(i as int),
        decreases attrs.len() - i,
    {
        let a = attrs[i];
        v.push(a);
        i += 1;
        assert(v@ =~= attrs@.take(i as int));
    }
    assert(attrs@.take(attrs@.len() as int) =~= attrs@);
    v
}

impl ScanHandler for ScanLog {
    open spec fn scan_events(&self) -> Seq<ScanEvent> {
        self.records@.map_values(|r: ScanRecord| record_event(r))
    }

    open spec fn inv(&self) -> bool {
        true
    }

    fn start_element(&mut self, name: Span, attrs: &[(Span, Span)], is_empty: bool)
        ensures
            final(self).declarations == old(self).declarations,
    {
        let copied = copy_pairs(attrs);
        self.record(ScanRecord::StartElement { name, attrs: copied, is_empty });
    }

    fn end_element(&mut self, name: Span)
        ensures
            final(self).declarations == old(self).declarations,
    {
        self.record(ScanRecord::EndElement { name });
    }

    fn text(&mut self, span: Span, needs_entity_decode: bool)
        ensures
            final(self).declarations == old(self).declarations,
    {
        self.record(ScanRecord::Text { span, needs_decode: needs_entity_decode });
    }

    fn cdata(&mut self, span: Span)
        ensures
            final(self).declarations == old(self).declarations,
    {
        self.record(ScanRecord::CData { span });
    }

    fn comment(&mut self, span: Span)
        ensures
            final(self).declarations == old(self).declarations,
    {
        self.record(ScanRecord::Comment { span });
    }

    fn processing_instruction(&mut self, target: Span, data: Option<Span>)
        ensures
            final(self).declarations == old(self).declarations,
    {
        self.record(ScanRecord::ProcessingInstruction { target, data });
    }

    fn xml_declaration(
        &mut self,
        version: Option<Span>,
        encoding: Option<Span>,
        standalone: Option<Span>,
    )
        ensures
            final(self).declarations@ == old(self).declarations@.push(
                (version, encoding, standalone),
            ),
            final(self).records == old(self).records,
    {
        self.declarations.push((version, encoding, standalone));
    }

    fn doctype(&mut self, content: Span)
        ensures
            final(self).declarations == old(self).declarations,
    {
        self.record(ScanRecord::Doctype { content });
    }
}

} // verus!
