//! What the tokenizer does at each step, stated over the input bytes: the token it
//! returns, where it stands afterwards, its state, and the error it reports in
//! strict mode.

use vstd::prelude::*;

use super::checks::{
    attr_value_check, comment_check, enc_check, has_cdata_end, tag_chars_check, xml_decl_check,
};
use super::dtd_checks::{
    attlist_check, element_content_check, entity_content_check, name_end, ws_end,
};
use crate::xml_core::entities::{content_check, decoded, text_strict};
use crate::xml_core::primitives::{eq_ignore_case, has_prefix, is_ws};
use crate::xml_core::scanner::{gt_outside_quotes, name_len_at};
use crate::xml_core::tokenizer::checks::dtd_keyword_check;
use crate::xml_core::tokenizer::checks::{kw_attlist, kw_element, kw_entity};
use crate::xml_core::unicode::name_check;
use crate::xml_core::unified_scanner::{find_pat, lemma_find_pat_range, or_end, tail};

verus! {

/// Current parsing state
#[derive(Debug, Clone, Copy, PartialEq, Eq, Structural)]
pub enum ParseState {
    /// Initial state before parsing starts
    Init,
    /// Inside text content between tags
    InsideText,
    /// Inside a markup construct (<...>)
    InsideMarkup,
    /// Inside an entity reference (&...;)
    InsideRef,
    /// End of input reached
    Done,
}

/// Type of XML token
#[derive(Debug, Clone, Copy, PartialEq, Eq, Structural)]
pub enum TokenKind {
    /// Element start tag: <element>
    StartTag,
    /// Element end tag: </element>
    EndTag,
    /// Empty element: <element/>
    EmptyTag,
    /// Text content
    Text,
    /// CDATA section: <![CDATA[...]]>
    CData,
    /// Comment: <!--...-->
    Comment,
    /// Processing instruction: <?target ...?>
    ProcessingInstruction,
    /// XML declaration: <?xml ...?>
    XmlDeclaration,
    /// DOCTYPE declaration
    DocType,
    /// End of file
    Eof,
}

/// A token as values: its kind, span, name and content.
pub struct TokView {
    pub kind: TokenKind,
    pub start: int,
    pub end: int,
    pub name: Option<Seq<u8>>,
    pub content: Option<Seq<u8>>,
}

/// One tokenizer step: the token returned (if any), the position and state after
/// it, and the error it reports (message and position), if any.
pub struct TokStep {
    pub token: Option<TokView>,
    pub pos: int,
    pub state: ParseState,
    pub err: Option<(&'static str, int)>,
}

/// A step that returns no token.
pub open spec fn no_token(pos: int, state: ParseState, err: Option<(&'static str, int)>) -> TokStep {
    TokStep { token: None, pos, state, err }
}

/// A step that returns a token and goes on in text.
pub open spec fn token_step(
    kind: TokenKind,
    start: int,
    end: int,
    name: Option<Seq<u8>>,
    content: Option<Seq<u8>>,
) -> TokStep {
    TokStep {
        token: Some(TokView { kind, start, end, name, content }),
        pos: end,
        state: ParseState::InsideText,
        err: None,
    }
}

/// An error reported at `pos`, in strict mode only.
pub open spec fn strict_err(strict: bool, msg: &'static str, pos: int) -> Option<(&'static str, int)> {
    if strict {
        Some((msg, pos))
    } else {
        None
    }
}

/// The position just after the last `b` that a left-to-right search from `i` meets,
/// or `i` when there is none.
pub open spec fn after_last(s: Seq<u8>, i: int, b: u8) -> int
    decreases s.len() - i,
{
    let k = find_pat(s, i, seq![b]);
    if k < 0 || k < i {
        i
    } else {
        proof {
            lemma_find_pat_range(s, i, seq![b]);
        }
        after_last(s, k + 1, b)
    }
}

/// Where a search for `pat` from `i` leaves the position: on the match, or after the
/// last occurrence of its first byte.
pub open spec fn search_end(s: Seq<u8>, i: int, pat: Seq<u8>) -> int {
    let f = find_pat(s, i, pat);
    if f >= 0 {
        f
    } else {
        after_last(s, i, pat[0])
    }
}

pub open spec fn lit_dashes() -> Seq<u8> {
    seq![0x2Du8, 0x2Du8]
}

pub open spec fn lit_comment_end() -> Seq<u8> {
    seq![0x2Du8, 0x2Du8, 0x3Eu8]
}

pub open spec fn lit_cdata_open() -> Seq<u8> {
    seq![0x5Bu8, 0x43u8, 0x44u8, 0x41u8, 0x54u8, 0x41u8, 0x5Bu8]
}

pub open spec fn lit_cdata_end() -> Seq<u8> {
    seq![0x5Du8, 0x5Du8, 0x3Eu8]
}

pub open spec fn lit_doctype() -> Seq<u8> {
    seq![0x44u8, 0x4Fu8, 0x43u8, 0x54u8, 0x59u8, 0x50u8, 0x45u8]
}

pub open spec fn lit_pi_end() -> Seq<u8> {
    seq![0x3Fu8, 0x3Eu8]
}

pub open spec fn lit_xml() -> Seq<u8> {
    seq![0x78u8, 0x6Du8, 0x6Cu8]
}

/// Whether `b` may follow a processing instruction target at `p`: whitespace, `?>`,
/// or the end of the input.
pub open spec fn pi_target_ok(s: Seq<u8>, p: int) -> bool {
    p >= s.len() || is_ws(s[p]) || (s[p] == 0x3F && p + 1 < s.len() && s[p + 1] == 0x3E)
}

/// A start tag at `start` (`<` followed by neither `/`, `!` nor `?`).
pub open spec fn start_tag_tok(s: Seq<u8>, start: int, strict: bool) -> TokStep {
    match name_len_at(tail(s, start + 1)) {
        None => no_token(
            start + 1,
            ParseState::InsideMarkup,
            strict_err(
                strict,
                "Invalid element name: must start with letter, underscore, or colon",
                start + 1,
            ),
        ),
        Some(n) => {
            let ne = start + 1 + n;
            let name = s.subrange(start + 1, ne);
            if strict && name_check(name, true) is Err {
                no_token(ne, ParseState::InsideMarkup, Some((name_check(name, true)->Err_0, ne)))
            } else {
                match gt_outside_quotes(s, ne, false, false) {
                    None => no_token(ne, ParseState::InsideMarkup, None),
                    Some(end) => {
                        let chars = tag_chars_check(s.subrange(start + 1, end), 0, false, 0, 0);
                        if strict && chars is Err {
                            no_token(ne, ParseState::InsideMarkup, Some((chars->Err_0, ne)))
                        } else {
                            token_step(
                                if end > 0 && s[end - 1] == 0x2F {
                                    TokenKind::EmptyTag
                                } else {
                                    TokenKind::StartTag
                                },
                                start,
                                end + 1,
                                Some(name),
                                None,
                            )
                        }
                    },
                }
            }
        },
    }
}

/// An end tag at `start` (`</`).
pub open spec fn end_tag_tok(s: Seq<u8>, start: int, strict: bool) -> TokStep {
    let q = start + 2;
    match name_len_at(tail(s, q)) {
        None => no_token(
            q,
            ParseState::InsideMarkup,
            strict_err(
                strict,
                "Invalid element name in end tag: must start with letter, underscore, or colon",
                q,
            ),
        ),
        Some(n) => {
            let ne = q + n;
            let f = find_pat(s, ne, seq![0x3Eu8]);
            if f < 0 {
                no_token(ne, ParseState::InsideMarkup, None)
            } else {
                let chars = tag_chars_check(s.subrange(start + 2, f), 0, false, 0, 0);
                if strict && chars is Err {
                    no_token(ne, ParseState::InsideMarkup, Some((chars->Err_0, ne)))
                } else {
                    token_step(TokenKind::EndTag, start, f + 1, Some(s.subrange(q, ne)), None)
                }
            }
        },
    }
}

/// A comment at `start`, its content from `cs` (after `<!--`).
pub open spec fn comment_tok(s: Seq<u8>, start: int, cs: int, strict: bool) -> TokStep {
    let f = find_pat(s, cs, lit_comment_end());
    if f < 0 {
        no_token(after_last(s, cs, 0x2D), ParseState::InsideMarkup, None)
    } else {
        let content = s.subrange(cs, f);
        if strict && content_check(content) is Err {
            no_token(f, ParseState::InsideMarkup, Some((content_check(content)->Err_0, f)))
        } else if strict && comment_check(content) is Err {
            no_token(f, ParseState::InsideMarkup, Some((comment_check(content)->Err_0, f)))
        } else {
            token_step(TokenKind::Comment, start, f + 3, None, Some(content))
        }
    }
}

/// A CDATA section at `start`, its content from `cs` (after `<![CDATA[`).
pub open spec fn cdata_tok(s: Seq<u8>, start: int, cs: int, strict: bool) -> TokStep {
    let f = find_pat(s, cs, lit_cdata_end());
    if f < 0 {
        no_token(after_last(s, cs, 0x5D), ParseState::InsideMarkup, None)
    } else {
        let content = s.subrange(cs, f);
        if strict && content_check(content) is Err {
            no_token(f, ParseState::InsideMarkup, Some((content_check(content)->Err_0, f)))
        } else {
            token_step(TokenKind::CData, start, f + 3, None, Some(content))
        }
    }
}

/// A processing instruction at `start` (`<?`).
pub open spec fn pi_tok(s: Seq<u8>, start: int, strict: bool) -> TokStep {
    let q = start + 2;
    if strict && q < s.len() && (is_ws(s[q]) || s[q] == 0x3F) {
        no_token(
            q,
            ParseState::InsideMarkup,
            Some(("Processing instruction target cannot be empty", q)),
        )
    } else {
        match name_len_at(tail(s, q)) {
            None => no_token(
                q,
                ParseState::InsideMarkup,
                strict_err(strict, "Invalid processing instruction target", q),
            ),
            Some(n) => {
                let ne = q + n;
                let name = s.subrange(q, ne);
                let is_xml = eq_ignore_case(name, lit_xml());
                if strict && name_check(name, true) is Err {
                    no_token(ne, ParseState::InsideMarkup, Some((name_check(name, true)->Err_0, ne)))
                } else if strict && !pi_target_ok(s, ne) {
                    no_token(
                        ne,
                        ParseState::InsideMarkup,
                        Some(("Invalid character after PI target name", ne)),
                    )
                } else if strict && is_xml && name != lit_xml() {
                    no_token(
                        ne,
                        ParseState::InsideMarkup,
                        Some(
                            (
                                "Processing instruction target cannot be 'xml' (case-insensitive reserved name)",
                                ne,
                            ),
                        ),
                    )
                } else {
                    let f = find_pat(s, ne, lit_pi_end());
                    if f < 0 {
                        no_token(after_last(s, ne, 0x3F), ParseState::InsideMarkup, None)
                    } else {
                        let content = s.subrange(ne, f);
                        if strict && content_check(content) is Err {
                            no_token(f, ParseState::InsideMarkup, Some((content_check(content)->Err_0, f)))
                        } else if strict && is_xml && xml_decl_check(content) is Err {
                            no_token(f, ParseState::InsideMarkup, Some((xml_decl_check(content)->Err_0, f)))
                        } else {
                            token_step(
                                if is_xml {
                                    TokenKind::XmlDeclaration
                                } else {
                                    TokenKind::ProcessingInstruction
                                },
                                start,
                                f + 2,
                                Some(name),
                                None,
                            )
                        }
                    }
                }
            },
        }
    }
}

/// Text from `start` up to the next `<`.
pub open spec fn text_tok(s: Seq<u8>, start: int, strict: bool) -> TokStep {
    let end = or_end(s, find_pat(s, start, seq![0x3Cu8]));
    let content = s.subrange(start, end);
    if end == start {
        no_token(start, ParseState::InsideText, None)
    } else if strict && content_check(content) is Err {
        no_token(start, ParseState::InsideText, Some((content_check(content)->Err_0, start)))
    } else if strict && has_cdata_end(content) {
        no_token(start, ParseState::InsideText, Some(("Text content cannot contain ']]>'", start)))
    } else if strict && text_strict(content) is Err {
        no_token(end, ParseState::InsideText, Some((text_strict(content)->Err_0, end)))
    } else {
        token_step(
            TokenKind::Text,
            start,
            end,
            None,
            Some(
                if strict {
                    text_strict(content)->Ok_0
                } else {
                    decoded(content)
                },
            ),
        )
    }
}

/// The position of the first whitespace byte at or after `i`, or the end.
pub open spec fn ws_pos(s: Seq<u8>, i: int) -> int
    decreases s.len() - i,
{
    if i < 0 || i >= s.len() || is_ws(s[i]) {
        i
    } else {
        ws_pos(s, i + 1)
    }
}

/// Where the scan of a declaration's body from `pos` stops: after the `>` that
/// closes it (with `depth` unclosed `<`), or at the end.
pub open spec fn decl_end(s: Seq<u8>, pos: int, depth: int, in_str: bool, sc: u8) -> int
    decreases s.len() - pos,
{
    if pos < 0 || pos >= s.len() || depth <= 0 {
        pos
    } else {
        let b = s[pos];
        if in_str {
            decl_end(s, pos + 1, depth, b != sc, sc)
        } else if b == 0x22 || b == 0x27 {
            decl_end(s, pos + 1, depth, true, b)
        } else if b == 0x3C {
            decl_end(s, pos + 1, depth + 1, false, sc)
        } else if b == 0x3E {
            decl_end(s, pos + 1, depth - 1, false, sc)
        } else {
            decl_end(s, pos + 1, depth, false, sc)
        }
    }
}

/// The body of a declaration from `cs` to just before the position `e` where its
/// scan stopped (nothing when that would end before it starts).
pub open spec fn decl_body(s: Seq<u8>, cs: int, e: int) -> Seq<u8> {
    if e - 1 >= cs {
        s.subrange(cs, e - 1)
    } else {
        seq![]
    }
}

/// A declaration of the internal subset whose keyword starts at `b` (after `<!`):
/// where the DOCTYPE scan goes on, or the error reported and its position.
pub open spec fn dt_decl(s: Seq<u8>, b: int) -> Result<int, (&'static str, int)> {
    let ke = ws_pos(s, b);
    let kw = s.subrange(b, ke);
    if dtd_keyword_check(kw) is Err {
        Err((dtd_keyword_check(kw)->Err_0, ke))
    } else {
        let w = ws_end(s, ke);
        let is_en = kw == kw_entity();
        let pct = is_en && w < s.len() && s[w] == 0x25;
        if pct && !(w + 1 < s.len() && is_ws(s[w + 1])) {
            Err(("Missing whitespace after '%' in entity declaration", w + 1))
        } else {
            let w2 = if pct {
                ws_end(s, w + 1)
            } else {
                w
            };
            match name_len_at(tail(s, w2)) {
                None => Err(("Missing name in DTD declaration", w2)),
                Some(n) => {
                    let name = s.subrange(w2, w2 + n);
                    if name_check(name, true) is Err {
                        Err((name_check(name, true)->Err_0, w2 + n))
                    } else {
                        let cs = w2 + n;
                        let e = decl_end(s, cs, 1, false, 0);
                        let body = decl_body(s, cs, e);
                        if kw == kw_element() && element_content_check(body) is Err {
                            Err((element_content_check(body)->Err_0, e))
                        } else if kw == kw_attlist() && attlist_check(body, 0) is Err {
                            Err((attlist_check(body, 0)->Err_0, e))
                        } else if is_en && entity_content_check(body) is Err {
                            Err((entity_content_check(body)->Err_0, e))
                        } else {
                            Ok(e)
                        }
                    }
                },
            }
        }
    }
}

/// A processing instruction of the internal subset whose target starts at `t`.
pub open spec fn dt_pi(s: Seq<u8>, t: int) -> Result<int, (&'static str, int)> {
    match name_len_at(tail(s, t)) {
        None => Ok(t),
        Some(n) => {
            let ne = t + n;
            let name = s.subrange(t, ne);
            if eq_ignore_case(name, lit_xml()) {
                Err(("XML declaration not allowed in DTD internal subset", ne))
            } else if name_check(name, true) is Err {
                Err((name_check(name, true)->Err_0, ne))
            } else if !pi_target_ok(s, ne) {
                Err(("Invalid character after PI target name", ne))
            } else {
                let f = find_pat(s, ne, lit_pi_end());
                Ok(
                    if f >= 0 {
                        f + 2
                    } else {
                        after_last(s, ne, 0x3F)
                    },
                )
            }
        },
    }
}

/// Markup of the internal subset after `<!` at `b`: a comment or a declaration.
pub open spec fn dt_bang(s: Seq<u8>, b: int) -> Result<int, (&'static str, int)> {
    if has_prefix(tail(s, b), lit_dashes()) {
        let cs = b + 2;
        let f = find_pat(s, cs, lit_comment_end());
        if f >= 0 {
            if comment_check(s.subrange(cs, f)) is Err {
                Err((comment_check(s.subrange(cs, f))->Err_0, f))
            } else {
                Ok(f + 3)
            }
        } else {
            Ok(after_last(s, cs, 0x2D))
        }
    } else {
        dt_decl(s, b)
    }
}

/// Markup of the internal subset after its `<` (at `q`), checked in strict mode.
pub open spec fn dt_markup(s: Seq<u8>, q: int) -> Result<int, (&'static str, int)> {
    if q < 0 || q >= s.len() {
        Ok(q)
    } else if s[q] == 0x3F {
        dt_pi(s, q + 1)
    } else if s[q] == 0x21 {
        dt_bang(s, q + 1)
    } else {
        Ok(q)
    }
}

/// The DOCTYPE scan from `pos`, inside the internal subset or not, inside a quoted
/// string (opened by `sc`) or not, for a DOCTYPE that starts at `start`.
pub open spec fn dt_loop(
    s: Seq<u8>,
    pos: int,
    in_sub: bool,
    in_str: bool,
    sc: u8,
    strict: bool,
    start: int,
) -> TokStep
    decreases s.len() - pos,
{
    if pos < 0 || pos >= s.len() {
        no_token(pos, ParseState::InsideMarkup, None)
    } else {
        let b = s[pos];
        if in_str {
            dt_loop(s, pos + 1, in_sub, b != sc, sc, strict, start)
        } else if b == 0x22 || b == 0x27 {
            dt_loop(s, pos + 1, in_sub, true, b, strict, start)
        } else if b == 0x5B {
            dt_loop(s, pos + 1, true, false, sc, strict, start)
        } else if b == 0x5D {
            dt_loop(s, pos + 1, false, false, sc, strict, start)
        } else if b == 0x3E && !in_sub {
            token_step(TokenKind::DocType, start, pos + 1, None, None)
        } else if b == 0x3C && in_sub && strict {
            match dt_markup(s, pos + 1) {
                Err((m, p)) => no_token(p, ParseState::InsideMarkup, Some((m, p))),
                Ok(np) => {
                    proof {
                        lemma_dt_markup_progress(s, pos + 1);
                    }
                    dt_loop(s, np, in_sub, false, sc, strict, start)
                },
            }
        } else {
            dt_loop(s, pos + 1, in_sub, false, sc, strict, start)
        }
    }
}

pub proof fn lemma_after_last(s: Seq<u8>, i: int, b: u8)
    requires
        0 <= i <= s.len(),
    ensures
        i <= after_last(s, i, b) <= s.len(),
    decreases s.len() - i,
{
    let k = find_pat(s, i, seq![b]);
    lemma_find_pat_range(s, i, seq![b]);
    if k >= i {
        lemma_after_last(s, k + 1, b);
    }
}

pub proof fn lemma_ws_pos(s: Seq<u8>, i: int)
    requires
        0 <= i <= s.len(),
    ensures
        i <= ws_pos(s, i) <= s.len(),
    decreases s.len() - i,
{
    if i < s.len() && !is_ws(s[i]) {
        lemma_ws_pos(s, i + 1);
    }
}

pub proof fn lemma_decl_end(s: Seq<u8>, pos: int, depth: int, in_str: bool, sc: u8)
    requires
        0 <= pos <= s.len(),
    ensures
        pos <= decl_end(s, pos, depth, in_str, sc) <= s.len(),
    decreases s.len() - pos,
{
    if pos < s.len() && depth > 0 {
        let b = s[pos];
        if in_str {
            lemma_decl_end(s, pos + 1, depth, b != sc, sc);
        } else if b == 0x22 || b == 0x27 {
            lemma_decl_end(s, pos + 1, depth, true, b);
        } else if b == 0x3C {
            lemma_decl_end(s, pos + 1, depth + 1, false, sc);
        } else if b == 0x3E {
            lemma_decl_end(s, pos + 1, depth - 1, false, sc);
        } else {
            lemma_decl_end(s, pos + 1, depth, false, sc);
        }
    }
}

pub proof fn lemma_dt_markup_progress(s: Seq<u8>, q: int)
    requires
        0 <= q <= s.len(),
    ensures
        dt_markup(s, q) matches Ok(np) ==> q <= np <= s.len(),
{
    if q < s.len() {
        if s[q] == 0x3F {
            let t = q + 1;
            crate::xml_core::unified_scanner::lemma_name_len(s, t);
            if let Some(n) = name_len_at(tail(s, t)) {
                lemma_find_pat_range(s, t + n, lit_pi_end());
                lemma_after_last(s, t + n, 0x3F);
            }
        } else if s[q] == 0x21 {
            let b = q + 1;
            lemma_find_pat_range(s, b + 2, lit_comment_end());
            if has_prefix(tail(s, b), lit_dashes()) {
                lemma_after_last(s, b + 2, 0x2D);
            }
            lemma_ws_pos(s, b);
            let ke = ws_pos(s, b);
            super::dtd_checks::lemma_ws_end(s, ke);
            let w = ws_end(s, ke);
            if w + 1 <= s.len() {
                super::dtd_checks::lemma_ws_end(s, w + 1);
            }
            let kw = s.subrange(b, ke);
            let pct = kw == kw_entity() && w < s.len() && s[w] == 0x25;
            let w2 = if pct {
                ws_end(s, w + 1)
            } else {
                w
            };
            crate::xml_core::unified_scanner::lemma_name_len(s, w2);
            if let Some(n) = name_len_at(tail(s, w2)) {
                lemma_decl_end(s, w2 + n, 1, false, 0);
            }
        }
    }
}

/// A DOCTYPE at `start`.
pub open spec fn doctype_tok(s: Seq<u8>, start: int, strict: bool) -> TokStep {
    dt_loop(s, start + 2, false, false, 0, strict, start)
}

/// Markup after `<!` at `start`.
pub open spec fn bang_tok(s: Seq<u8>, start: int, strict: bool) -> TokStep {
    let q = start + 2;
    if has_prefix(tail(s, q), lit_dashes()) {
        comment_tok(s, start, q + 2, strict)
    } else if has_prefix(tail(s, q), lit_cdata_open()) {
        cdata_tok(s, start, q + 7, strict)
    } else if has_prefix(tail(s, q), lit_doctype()) {
        doctype_tok(s, start, strict)
    } else {
        no_token(q, ParseState::InsideMarkup, None)
    }
}

/// Markup at `start` (`<`).
pub open spec fn markup_tok(s: Seq<u8>, start: int, strict: bool) -> TokStep {
    let q = start + 1;
    if q >= s.len() {
        no_token(q, ParseState::InsideMarkup, None)
    } else if s[q] == 0x2F {
        end_tag_tok(s, start, strict)
    } else if s[q] == 0x21 {
        bang_tok(s, start, strict)
    } else if s[q] == 0x3F {
        pi_tok(s, start, strict)
    } else {
        start_tag_tok(s, start, strict)
    }
}

/// One call of `next_token` at `pos` in state `st`.
pub open spec fn next_tok(s: Seq<u8>, pos: int, st: ParseState, strict: bool) -> TokStep {
    if st == ParseState::Done {
        no_token(pos, ParseState::Done, None)
    } else {
        let p = if st == ParseState::Init {
            ws_end(s, pos)
        } else {
            pos
        };
        if p >= s.len() {
            TokStep {
                token: Some(TokView { kind: TokenKind::Eof, start: p, end: p, name: None, content: None }),
                pos: p,
                state: ParseState::Done,
                err: None,
            }
        } else if s[p] == 0x3C {
            markup_tok(s, p, strict)
        } else {
            text_tok(s, p, strict)
        }
    }
}

/// What every token of a step carries: a span within the input, a name for tags
/// and processing instructions, content for text, CDATA and comments.
pub open spec fn tok_shape(s: Seq<u8>, t: TokView) -> bool {
    &&& 0 <= t.start <= t.end <= s.len()
    &&& (t.kind == TokenKind::StartTag || t.kind == TokenKind::EmptyTag || t.kind
        == TokenKind::EndTag || t.kind == TokenKind::ProcessingInstruction || t.kind
        == TokenKind::XmlDeclaration) ==> t.name is Some
    &&& (t.kind == TokenKind::Text || t.kind == TokenKind::CData || t.kind == TokenKind::Comment)
        ==> t.content is Some
}

pub proof fn lemma_dt_loop_shape(
    s: Seq<u8>,
    pos: int,
    in_sub: bool,
    in_str: bool,
    sc: u8,
    strict: bool,
    start: int,
)
    requires
        0 <= start <= pos <= s.len(),
    ensures
        dt_loop(s, pos, in_sub, in_str, sc, strict, start).pos <= s.len(),
        dt_loop(s, pos, in_sub, in_str, sc, strict, start).token matches Some(t) ==> t.kind
            == TokenKind::DocType && tok_shape(s, t) && start < dt_loop(
            s,
            pos,
            in_sub,
            in_str,
            sc,
            strict,
            start,
        ).pos && t.end == dt_loop(s, pos, in_sub, in_str, sc, strict, start).pos,
    decreases s.len() - pos,
{
    if pos < s.len() {
        let b = s[pos];
        if in_str {
            lemma_dt_loop_shape(s, pos + 1, in_sub, b != sc, sc, strict, start);
        } else if b == 0x22 || b == 0x27 {
            lemma_dt_loop_shape(s, pos + 1, in_sub, true, b, strict, start);
        } else if b == 0x5B {
            lemma_dt_loop_shape(s, pos + 1, true, false, sc, strict, start);
        } else if b == 0x5D {
            lemma_dt_loop_shape(s, pos + 1, false, false, sc, strict, start);
        } else if b == 0x3E && !in_sub {
        } else if b == 0x3C && in_sub && strict {
            lemma_dt_markup_progress(s, pos + 1);
            lemma_dt_markup_err_pos(s, pos + 1);
            if let Ok(np) = dt_markup(s, pos + 1) {
                lemma_dt_loop_shape(s, np, in_sub, false, sc, strict, start);
            }
        } else {
            lemma_dt_loop_shape(s, pos + 1, in_sub, false, sc, strict, start);
        }
    }
}

pub proof fn lemma_dt_markup_err_pos(s: Seq<u8>, q: int)
    requires
        0 <= q <= s.len(),
    ensures
        dt_markup(s, q) matches Err((_, p)) ==> p <= s.len(),
{
    if q < s.len() {
        if s[q] == 0x3F {
            crate::xml_core::unified_scanner::lemma_name_len(s, q + 1);
        } else if s[q] == 0x21 {
            let b = q + 1;
            lemma_find_pat_range(s, b + 2, lit_comment_end());
            lemma_ws_pos(s, b);
            let ke = ws_pos(s, b);
            super::dtd_checks::lemma_ws_end(s, ke);
            let w = ws_end(s, ke);
            if w + 1 <= s.len() {
                super::dtd_checks::lemma_ws_end(s, w + 1);
            }
            let kw = s.subrange(b, ke);
            let pct = kw == kw_entity() && w < s.len() && s[w] == 0x25;
            let w2 = if pct {
                ws_end(s, w + 1)
            } else {
                w
            };
            crate::xml_core::unified_scanner::lemma_name_len(s, w2);
            if let Some(n) = name_len_at(tail(s, w2)) {
                lemma_decl_end(s, w2 + n, 1, false, 0);
            }
        }
    }
}

/// A step result stays within the input, its token has the shape of `tok_shape`,
/// a token other than `Eof` moves the position forward, and `Eof` ends the input.
pub open spec fn step_shape(s: Seq<u8>, pos: int, st: TokStep) -> bool {
    &&& st.pos <= s.len()
    &&& st.token matches Some(t) ==> tok_shape(s, t)
    &&& st.token matches Some(t) ==> (t.kind != TokenKind::Eof ==> pos < st.pos && st.pos == t.end)
    &&& st.token matches Some(t) ==> (t.kind == TokenKind::Eof ==> st.state == ParseState::Done
        && pos <= st.pos)
}

pub proof fn lemma_start_tag_shape(s: Seq<u8>, start: int, strict: bool)
    requires
        0 <= start && start + 1 < s.len(),
    ensures
        step_shape(s, start, start_tag_tok(s, start, strict)),
{
    crate::xml_core::unified_scanner::lemma_name_len(s, start + 1);
    if let Some(n) = name_len_at(tail(s, start + 1)) {
        crate::xml_core::unified_scanner::lemma_gt_range(s, start + 1 + n, false, false);
    }
}

pub proof fn lemma_end_tag_shape(s: Seq<u8>, start: int, strict: bool)
    requires
        0 <= start && start + 2 <= s.len(),
    ensures
        step_shape(s, start, end_tag_tok(s, start, strict)),
{
    crate::xml_core::unified_scanner::lemma_name_len(s, start + 2);
    if let Some(n) = name_len_at(tail(s, start + 2)) {
        lemma_find_pat_range(s, start + 2 + n, seq![0x3Eu8]);
    }
}

pub proof fn lemma_pi_shape(s: Seq<u8>, start: int, strict: bool)
    requires
        0 <= start && start + 2 <= s.len(),
    ensures
        step_shape(s, start, pi_tok(s, start, strict)),
{
    crate::xml_core::unified_scanner::lemma_name_len(s, start + 2);
    if let Some(n) = name_len_at(tail(s, start + 2)) {
        lemma_find_pat_range(s, start + 2 + n, lit_pi_end());
        lemma_after_last(s, start + 2 + n, 0x3F);
    }
}

pub proof fn lemma_bang_shape(s: Seq<u8>, start: int, strict: bool)
    requires
        0 <= start && start + 2 <= s.len(),
    ensures
        step_shape(s, start, bang_tok(s, start, strict)),
{
    let q = start + 2;
    if has_prefix(tail(s, q), lit_dashes()) {
        lemma_find_pat_range(s, q + 2, lit_comment_end());
        lemma_after_last(s, q + 2, 0x2D);
    } else if has_prefix(tail(s, q), lit_cdata_open()) {
        lemma_find_pat_range(s, q + 7, lit_cdata_end());
        lemma_after_last(s, q + 7, 0x5D);
    } else if has_prefix(tail(s, q), lit_doctype()) {
        lemma_dt_loop_shape(s, q, false, false, 0, strict, start);
    }
}

pub proof fn lemma_text_shape(s: Seq<u8>, start: int, strict: bool)
    requires
        0 <= start < s.len(),
    ensures
        step_shape(s, start, text_tok(s, start, strict)),
{
    lemma_find_pat_range(s, start, seq![0x3Cu8]);
}

/// A step from a position within the input stays within it, and what it returns has
/// the shape that `step_shape` states.
pub proof fn lemma_next_tok_shape(s: Seq<u8>, pos: int, st: ParseState, strict: bool)
    requires
        0 <= pos <= s.len(),
    ensures
        step_shape(s, pos, next_tok(s, pos, st, strict)),
{
    if st != ParseState::Done {
        super::dtd_checks::lemma_ws_end(s, pos);
        let p = if st == ParseState::Init {
            ws_end(s, pos)
        } else {
            pos
        };
        if p < s.len() {
            if s[p] == 0x3C {
                let q = p + 1;
                if q < s.len() {
                    if s[q] == 0x2F {
                        lemma_end_tag_shape(s, p, strict);
                    } else if s[q] == 0x21 {
                        lemma_bang_shape(s, p, strict);
                    } else if s[q] == 0x3F {
                        lemma_pi_shape(s, p, strict);
                    } else {
                        lemma_start_tag_shape(s, p, strict);
                    }
                }
            } else {
                lemma_text_shape(s, p, strict);
            }
        }
    }
}

} // verus!
