//! XML Tokenizer - State machine for XML token extraction
//!
//! Implements a pull-parser style tokenizer that extracts XML tokens:
//! element start/end tags, text content, CDATA sections, comments, processing
//! instructions and DOCTYPE declarations; in strict mode it also checks them.

pub mod checks;
pub mod dtd_checks;
pub mod model;

pub use checks::{
    is_name_char, is_name_start_char, validate_char_ref, validate_comment, validate_name,
    validate_text_content, validate_xml_chars,
};

use std::borrow::Cow;
use vstd::prelude::*;

use self::checks::{
    kw_attlist, kw_element, kw_entity, validate_dtd_keyword, validate_tag_chars,
    validate_xml_decl,
};
use self::dtd_checks::{
    lemma_name_end, lemma_ws_end, validate_attlist_content, validate_element_content,
    validate_entity_content, ws_end,
};
pub use self::model::{ParseState, TokenKind};
use self::model::{
    after_last, bang_tok, cdata_tok, comment_tok, decl_body, decl_end, doctype_tok, dt_bang,
    dt_decl, dt_loop, dt_markup, dt_pi, end_tag_tok, lemma_after_last, lemma_decl_end,
    lemma_dt_markup_progress, lemma_ws_pos, lit_cdata_end, lit_cdata_open, lit_comment_end,
    lit_dashes, lit_doctype, lit_pi_end, lit_xml, markup_tok, next_tok, no_token, pi_target_ok,
    pi_tok, search_end, start_tag_tok, text_tok, token_step, ws_pos, TokStep, TokView,
};
use super::entities::{decode_text, decode_text_strict, no_amp};
use super::primitives::{eq_ignore_ascii_case, has_prefix, is_ws_byte};
use super::scanner::{gt_outside_quotes, name_len_at, opt_int, Scanner};
use super::unified_scanner::{
    find_pat, lemma_find_pat_range, lemma_find_pat_skip, lemma_gt_range, lemma_name_len,
    lemma_prefix_byte, or_end, tail,
};

verus! {

/// A parsed XML token
#[derive(Debug)]
pub struct Token<'a> {
    pub kind: TokenKind,
    /// Raw span in input (start, end)
    pub span: (usize, usize),
    /// For tags: the element name
    pub name: Option<Cow<'a, [u8]>>,
    /// For text/cdata: the content (may be borrowed or owned if entities decoded)
    pub content: Option<Cow<'a, [u8]>>,
}

/// The bytes of an optional `Cow`.
pub open spec fn opt_bytes(c: Option<Cow<'_, [u8]>>) -> Option<Seq<u8>> {
    match c {
        Some(v) => Some(v@),
        None => None,
    }
}

/// A token as values.
pub open spec fn tok_view(t: Token<'_>) -> TokView {
    TokView {
        kind: t.kind,
        start: t.span.0 as int,
        end: t.span.1 as int,
        name: opt_bytes(t.name),
        content: opt_bytes(t.content),
    }
}

/// The content of a text token is an owned copy exactly when its raw text holds a
/// reference (`&`) that was decoded.
pub open spec fn text_owned_ok(s: Seq<u8>, t: Token<'_>) -> bool {
    t.kind == TokenKind::Text ==> (t.content matches Some(c) && (c is Owned <==> !no_amp(
        s.subrange(t.span.0 as int, t.span.1 as int),
    )))
}

impl<'a> Token<'a> {
    fn new(kind: TokenKind, span: (usize, usize)) -> (r: Self)
        ensures
            r.kind == kind,
            r.span == span,
            r.name is None,
            r.content is None,
    {
        Token { kind, span, name: None, content: None }
    }

    fn with_name(self, name: &'a [u8]) -> (r: Self)
        ensures
            r.kind == self.kind,
            r.span == self.span,
            r.name matches Some(n) && n@ == name@,
            r.content == self.content,
    {
        Token { name: Some(Cow::Borrowed(name)), ..self }
    }

    fn with_content(self, content: Cow<'a, [u8]>) -> (r: Self)
        ensures
            r.kind == self.kind,
            r.span == self.span,
            r.name == self.name,
            r.content == Some(content),
    {
        Token { content: Some(content), ..self }
    }
}

/// Error type for strict mode validation failures
#[derive(Debug, Clone)]
pub struct ParseError {
    pub message: String,
    pub position: usize,
}

impl ParseError {
    pub fn new(message: &str, position: usize) -> (r: Self)
        ensures
            r.message@ == message@,
            r.position == position,
    {
        ParseError { message: message.to_owned(), position }
    }
}

/// Whether `new` is the error after reporting `e` when the error was `old`: only the
/// first error is kept.
pub open spec fn error_after(
    old: Option<ParseError>,
    e: Option<(&'static str, int)>,
    new: Option<ParseError>,
) -> bool {
    match (old, e) {
        (None, Some((m, p))) => new matches Some(pe) && pe.message@ == m@ && pe.position == p,
        _ => new == old,
    }
}

/// XML tokenizer implementing a pull-parser pattern
pub struct Tokenizer<'a> {
    scanner: Scanner<'a>,
    state: ParseState,
    strict: bool,
    error: Option<ParseError>,
}

impl<'a> Tokenizer<'a> {
    /// The input.
    pub closed spec fn spec_input(&self) -> Seq<u8> {
        self.scanner.spec_input()
    }

    /// The current position.
    pub closed spec fn spec_pos(&self) -> int {
        self.scanner.spec_pos()
    }

    /// The current state.
    pub closed spec fn spec_state(&self) -> ParseState {
        self.state
    }

    /// Whether the tokenizer checks in strict mode.
    pub closed spec fn spec_strict(&self) -> bool {
        self.strict
    }

    /// The first error reported, if any.
    pub closed spec fn spec_error(&self) -> Option<ParseError> {
        self.error
    }

    /// The position lies within the input.
    pub closed spec fn wf(&self) -> bool {
        &&& 0 <= self.scanner.spec_pos() <= self.scanner.spec_input().len()
        &&& self.scanner.spec_input().len() <= usize::MAX
    }

    /// A well-formed tokenizer stands within its input.
    pub proof fn lemma_pos_in_input(&self)
        requires
            self.wf(),
        ensures
            0 <= self.spec_pos() <= self.spec_input().len(),
            self.spec_input().len() <= usize::MAX,
    {
    }

    /// `new` is this tokenizer after a step that returned `r` as `st` states.
    pub open spec fn stepped(&self, new: &Self, r: Option<Token<'a>>, st: TokStep) -> bool {
        &&& new.wf()
        &&& new.spec_input() == self.spec_input()
        &&& new.spec_strict() == self.spec_strict()
        &&& new.spec_pos() == st.pos
        &&& new.spec_state() == st.state
        &&& match r {
            None => st.token is None,
            Some(t) => st.token == Some(tok_view(t)),
        }
        &&& error_after(self.spec_error(), st.err, new.spec_error())
    }

    /// Create a new tokenizer for the given input (lenient mode)
    pub fn new(input: &'a [u8]) -> (r: Self)
        ensures
            r.wf(),
            r.spec_input() == input@,
            r.spec_pos() == 0,
            r.spec_state() == ParseState::Init,
            !r.spec_strict(),
            r.spec_error() is None,
    {
        let _n = input.len();
        Tokenizer { scanner: Scanner::new(input), state: ParseState::Init, strict: false, error: None }
    }

    /// Create a new tokenizer in strict mode
    pub fn new_strict(input: &'a [u8]) -> (r: Self)
        ensures
            r.wf(),
            r.spec_input() == input@,
            r.spec_pos() == 0,
            r.spec_state() == ParseState::Init,
            r.spec_strict(),
            r.spec_error() is None,
    {
        let _n = input.len();
        Tokenizer { scanner: Scanner::new(input), state: ParseState::Init, strict: true, error: None }
    }

    /// Get any parse error (strict mode only)
    pub fn error(&self) -> (r: Option<&ParseError>)
        ensures
            r is Some <==> self.spec_error() is Some,
            r matches Some(e) ==> *e == self.spec_error()->0,
    {
        match &self.error {
            Some(e) => Some(e),
            None => None,
        }
    }

    /// Set an error if in strict mode (only the first is kept)
    fn set_error(&mut self, message: &'static str)
        ensures
            final(self).scanner == old(self).scanner,
            final(self).state == old(self).state,
            final(self).strict == old(self).strict,
            error_after(
                old(self).error,
                if old(self).strict {
                    Some((message, old(self).scanner.spec_pos()))
                } else {
                    None
                },
                final(self).error,
            ),
    {
        if self.strict && self.error.is_none() {
            self.error = Some(ParseError::new(message, self.scanner.position()));
        }
    }


    /// The first position at or after the current one that holds `b`.
    fn find_from_here(&self, b: u8) -> (r: Option<usize>)
        requires
            self.wf(),
        ensures
            r matches Some(i) ==> i == find_pat(self.spec_input(), self.spec_pos(), seq![b]) && i
                < self.spec_input().len(),
            r is None ==> find_pat(self.spec_input(), self.spec_pos(), seq![b]) < 0,
    {
        let ghost s = self.scanner.spec_input();
        let ghost cur = self.scanner.spec_pos();
        let r = self.scanner.find_byte(b);
        proof {
            match r {
                Some(pos) => {
                    assert forall|j: int| cur <= j < pos implies s[j] != seq![b][0] by {
                        assert(self.scanner.spec_rest()[j - cur] == s[j]);
                    }
                    assert(self.scanner.spec_rest()[pos - cur] == s[pos as int]);
                    lemma_find_pat_skip(s, cur, pos as int, seq![b]);
                    lemma_prefix_byte(s, pos as int, b);
                },
                None => {
                    assert forall|j: int| cur <= j < s.len() implies s[j] != seq![b][0] by {
                        assert(self.scanner.spec_rest()[j - cur] == s[j]);
                        if s[j] == b {
                            crate::xml_core::primitives::lemma_index_of(self.scanner.spec_rest(), b);
                        }
                    }
                    lemma_find_pat_skip(s, cur, s.len() as int, seq![b]);
                },
            }
        }
        r
    }

    /// Moves to the first occurrence of `pat` at or after the current position and
    /// says whether there is one; without one, the position is just after the last
    /// occurrence of its first byte (or unchanged).
    fn seek(&mut self, pat: &[u8]) -> (found: bool)
        requires
            old(self).wf(),
            pat@.len() > 0,
        ensures
            final(self).wf(),
            final(self).spec_input() == old(self).spec_input(),
            final(self).state == old(self).state,
            final(self).strict == old(self).strict,
            final(self).error == old(self).error,
            found == (find_pat(old(self).spec_input(), old(self).spec_pos(), pat@) >= 0),
            final(self).spec_pos() == search_end(old(self).spec_input(), old(self).spec_pos(), pat@),
            found ==> final(self).spec_pos() + pat@.len() <= final(self).spec_input().len(),
            found ==> old(self).spec_pos() <= final(self).spec_pos(),
    {
        let ghost s = self.scanner.spec_input();
        let ghost p0 = self.scanner.spec_pos();
        loop
            invariant
                self.wf(),
                self.scanner.spec_input() == s,
                s == old(self).spec_input(),
                p0 == old(self).spec_pos(),
                self.state == old(self).state,
                self.strict == old(self).strict,
                self.error == old(self).error,
                pat@.len() > 0,
                p0 <= self.scanner.spec_pos(),
                find_pat(s, p0, pat@) == find_pat(s, self.scanner.spec_pos(), pat@),
                find_pat(s, p0, pat@) < 0 ==> after_last(s, p0, pat@[0]) == after_last(
                    s,
                    self.scanner.spec_pos(),
                    pat@[0],
                ),
            decreases s.len() - self.scanner.spec_pos(),
        {
            let ghost cur = self.scanner.spec_pos();
            match self.find_from_here(pat[0]) {
                Some(pos) => {
                    proof {
                        lemma_find_pat_range(s, cur, seq![pat@[0]]);
                        assert forall|j: int| cur <= j < pos implies s[j] != pat@[0] by {
                            if s[j] == pat@[0] {
                                lemma_first_pat_before(s, cur, j, pat@[0]);
                            }
                        }
                        lemma_find_pat_skip(s, cur, pos as int, pat@);
                        lemma_find_pat_range(s, pos as int, pat@);
                    }
                    self.scanner.set_position(pos);
                    if self.scanner.starts_with(pat) {
                        return true;
                    }
                    self.scanner.advance(1);
                },
                None => {
                    proof {
                        lemma_find_pat_range(s, cur, seq![pat@[0]]);
                        assert forall|j: int| cur <= j < s.len() implies s[j] != pat@[0] by {
                            if s[j] == pat@[0] {
                                lemma_prefix_byte(s, j, pat@[0]);
                                crate::xml_core::unified_scanner::lemma_find_pat_skip(
                                    s,
                                    cur,
                                    cur,
                                    seq![pat@[0]],
                                );
                                lemma_first_pat_before(s, cur, j, pat@[0]);
                            }
                        }
                        lemma_find_pat_skip(s, cur, s.len() as int, pat@);
                    }
                    return false;
                },
            }
        }
    }

    /// Validate a name in strict mode
    fn validate_name_strict(&mut self, name: &[u8]) -> (r: bool)
        ensures
            final(self).scanner == old(self).scanner,
            final(self).state == old(self).state,
            final(self).strict == old(self).strict,
            r == !(old(self).strict && crate::xml_core::unicode::name_check(name@, true) is Err),
            error_after(
                old(self).error,
                if old(self).strict && crate::xml_core::unicode::name_check(name@, true) is Err {
                    Some(
                        (
                            crate::xml_core::unicode::name_check(name@, true)->Err_0,
                            old(self).scanner.spec_pos(),
                        ),
                    )
                } else {
                    None
                },
                final(self).error,
            ),
    {
        if self.strict {
            if let Err(msg) = validate_name(name) {
                self.set_error(msg);
                return false;
            }
        }
        true
    }

    /// Parse text content
    fn parse_text(&mut self) -> (r: Option<Token<'a>>)
        requires
            old(self).wf(),
            old(self).spec_pos() < old(self).spec_input().len(),
            old(self).spec_input()[old(self).spec_pos()] != 0x3C,
        ensures
            r matches Some(t) ==> text_owned_ok(old(self).spec_input(), t),
            old(self).stepped(final(self), r, text_tok(old(self).spec_input(), old(self).spec_pos(), old(self).spec_strict())),
    {
        let ghost s = self.scanner.spec_input();
        let start = self.scanner.position();
        self.state = ParseState::InsideText;
        let n = self.scanner.input().len();
        let end = match self.find_from_here(0x3C) {
            Some(i) => i,
            None => n,
        };
        if end == start {
            return None;
        }
        proof {
            lemma_find_pat_range(s, start as int, seq![0x3Cu8]);
        }
        let content = self.scanner.slice(start, end);
        if self.strict {
            if let Err(msg) = validate_xml_chars(content) {
                self.set_error(msg);
                return None;
            }
            if let Err(msg) = validate_text_content(content) {
                self.set_error(msg);
                return None;
            }
        }
        self.scanner.set_position(end);
        let decoded = if self.strict {
            match decode_text_strict(content) {
                Ok(v) => v,
                Err(msg) => {
                    self.set_error(msg);
                    return None;
                },
            }
        } else {
            decode_text(content)
        };
        Some(Token::new(TokenKind::Text, (start, end)).with_content(decoded))
    }

    /// Parse a comment <!--...--> (at `<!` with `--` next)
    fn parse_comment(&mut self, start: usize) -> (r: Option<Token<'a>>)
        requires
            old(self).wf(),
            old(self).spec_state() == ParseState::InsideMarkup,
            old(self).spec_pos() == start + 2,
            has_prefix(tail(old(self).spec_input(), start + 2), lit_dashes()),
        ensures
            r matches Some(t) ==> t.kind != TokenKind::Text,
            old(self).stepped(final(self), r, comment_tok(old(self).spec_input(), start as int, start + 4, old(self).spec_strict())),
    {
        self.scanner.advance(2);
        let content_start = self.scanner.position();
        let close: &[u8] = &[0x2Du8, 0x2Du8, 0x3Eu8];
        assert(close@ =~= lit_comment_end());
        if !self.seek(close) {
            return None;
        }
        let pos = self.scanner.position();
        let content = self.scanner.slice(content_start, pos);
        if self.strict {
            if let Err(msg) = validate_xml_chars(content) {
                self.set_error(msg);
                return None;
            }
            if let Err(msg) = validate_comment(content) {
                self.set_error(msg);
                return None;
            }
        }
        self.scanner.advance(3);
        self.state = ParseState::InsideText;
        Some(Token::new(TokenKind::Comment, (start, self.scanner.position())).with_content(Cow::Borrowed(content)))
    }

    /// Parse a CDATA section <![CDATA[...]]> (at `<!` with `[CDATA[` next)
    fn parse_cdata(&mut self, start: usize) -> (r: Option<Token<'a>>)
        requires
            old(self).wf(),
            old(self).spec_state() == ParseState::InsideMarkup,
            old(self).spec_pos() == start + 2,
            has_prefix(tail(old(self).spec_input(), start + 2), lit_cdata_open()),
        ensures
            r matches Some(t) ==> t.kind != TokenKind::Text,
            old(self).stepped(final(self), r, cdata_tok(old(self).spec_input(), start as int, start + 9, old(self).spec_strict())),
    {
        self.scanner.advance(7);
        let content_start = self.scanner.position();
        let close: &[u8] = &[0x5Du8, 0x5Du8, 0x3Eu8];
        assert(close@ =~= lit_cdata_end());
        if !self.seek(close) {
            return None;
        }
        let pos = self.scanner.position();
        let content = self.scanner.slice(content_start, pos);
        if self.strict {
            if let Err(msg) = validate_xml_chars(content) {
                self.set_error(msg);
                return None;
            }
        }
        self.scanner.advance(3);
        self.state = ParseState::InsideText;
        Some(Token::new(TokenKind::CData, (start, self.scanner.position())).with_content(Cow::Borrowed(content)))
    }


    /// Parse a start tag or empty element tag (at `<` followed by a name)
    fn parse_start_tag(&mut self, start: usize) -> (r: Option<Token<'a>>)
        requires
            old(self).wf(),
            old(self).spec_state() == ParseState::InsideMarkup,
            old(self).spec_pos() == start + 1,
        ensures
            r matches Some(t) ==> t.kind != TokenKind::Text,
            old(self).stepped(final(self), r, start_tag_tok(old(self).spec_input(), start as int, old(self).spec_strict())),
    {
        let ghost s = self.scanner.spec_input();
        proof {
            lemma_name_len(s, start + 1);
        }
        let name = match self.scanner.read_name() {
            Some(name) => name,
            None => {
                if self.strict {
                    self.set_error("Invalid element name: must start with letter, underscore, or colon");
                }
                return None;
            },
        };
        let ghost ne = self.scanner.spec_pos();
        assert(name@ =~= s.subrange(start + 1, ne));
        if !self.validate_name_strict(name) {
            return None;
        }
        proof {
            lemma_gt_range(s, ne, false, false);
        }
        let end = match self.scanner.find_tag_end_quoted() {
            Some(e) => e,
            None => {
                return None;
            },
        };
        if self.strict {
            let tag_content = self.scanner.slice(start + 1, end);
            if let Err(msg) = validate_tag_chars(tag_content) {
                self.set_error(msg);
                return None;
            }
        }
        let inp = self.scanner.input();
        let is_empty = end > 0 && inp[end - 1] == 0x2F;
        self.scanner.set_position(end + 1);
        self.state = ParseState::InsideText;
        let kind = if is_empty {
            TokenKind::EmptyTag
        } else {
            TokenKind::StartTag
        };
        Some(Token::new(kind, (start, end + 1)).with_name(name))
    }

    /// Parse an end tag (at `</`)
    fn parse_end_tag(&mut self, start: usize) -> (r: Option<Token<'a>>)
        requires
            old(self).wf(),
            old(self).spec_state() == ParseState::InsideMarkup,
            old(self).spec_pos() == start + 1,
            start + 1 < old(self).spec_input().len(),
        ensures
            r matches Some(t) ==> t.kind != TokenKind::Text,
            old(self).stepped(final(self), r, end_tag_tok(old(self).spec_input(), start as int, old(self).spec_strict())),
    {
        let ghost s = self.scanner.spec_input();
        self.scanner.advance(1);
        proof {
            lemma_name_len(s, start + 2);
        }
        let name = match self.scanner.read_name() {
            Some(name) => name,
            None => {
                if self.strict {
                    self.set_error("Invalid element name in end tag: must start with letter, underscore, or colon");
                }
                return None;
            },
        };
        let ghost ne = self.scanner.spec_pos();
        assert(name@ =~= s.subrange(start + 2, ne));
        let end = match self.find_from_here(0x3E) {
            Some(e) => e,
            None => {
                return None;
            },
        };
        proof {
            lemma_find_pat_range(s, ne, seq![0x3Eu8]);
        }
        if self.strict {
            let tag_content = self.scanner.slice(start + 2, end);
            if let Err(msg) = validate_tag_chars(tag_content) {
                self.set_error(msg);
                return None;
            }
        }
        self.scanner.set_position(end + 1);
        self.state = ParseState::InsideText;
        Some(Token::new(TokenKind::EndTag, (start, end + 1)).with_name(name))
    }

    /// Parse a processing instruction <?...?> (at `<?`)
    fn parse_pi(&mut self, start: usize) -> (r: Option<Token<'a>>)
        requires
            old(self).wf(),
            old(self).spec_state() == ParseState::InsideMarkup,
            old(self).spec_pos() == start + 1,
            start + 1 < old(self).spec_input().len(),
        ensures
            r matches Some(t) ==> t.kind != TokenKind::Text,
            old(self).stepped(final(self), r, pi_tok(old(self).spec_input(), start as int, old(self).spec_strict())),
    {
        let ghost s = self.scanner.spec_input();
        self.scanner.advance(1);
        if self.strict {
            let first = self.scanner.peek();
            if first == Some(0x20u8) || first == Some(0x09u8) || first == Some(0x0Au8) || first
                == Some(0x0Du8) || first == Some(0x3Fu8) {
                self.set_error("Processing instruction target cannot be empty");
                return None;
            }
        }
        proof {
            lemma_name_len(s, start + 2);
        }
        let name = match self.scanner.read_name() {
            Some(n) => n,
            None => {
                if self.strict {
                    self.set_error("Invalid processing instruction target");
                }
                return None;
            },
        };
        let ghost ne = self.scanner.spec_pos();
        assert(name@ =~= s.subrange(start + 2, ne));
        if self.strict && !self.validate_name_strict(name) {
            return None;
        }
        if self.strict {
            let next = self.scanner.peek();
            let ok = match next {
                Some(c) => is_ws_byte(c) || (c == 0x3F && self.scanner.peek_at(1) == Some(0x3Eu8)),
                None => true,
            };
            if !ok {
                self.set_error("Invalid character after PI target name");
                return None;
            }
        }
        let xml: &[u8] = &[0x78u8, 0x6Du8, 0x6Cu8];
        assert(xml@ =~= lit_xml());
        let is_xml_decl = eq_ignore_ascii_case(name, xml);
        if self.strict && is_xml_decl && !crate::xml_core::primitives::bytes_eq(name, xml) {
            self.set_error("Processing instruction target cannot be 'xml' (case-insensitive reserved name)");
            return None;
        }
        let content_start = self.scanner.position();
        let close: &[u8] = &[0x3Fu8, 0x3Eu8];
        assert(close@ =~= lit_pi_end());
        if !self.seek(close) {
            return None;
        }
        let pos = self.scanner.position();
        let content = self.scanner.slice(content_start, pos);
        if self.strict {
            if let Err(msg) = validate_xml_chars(content) {
                self.set_error(msg);
                return None;
            }
            if is_xml_decl {
                if let Err(msg) = validate_xml_decl(content) {
                    self.set_error(msg);
                    return None;
                }
            }
        }
        self.scanner.advance(2);
        self.state = ParseState::InsideText;
        let kind = if is_xml_decl {
            TokenKind::XmlDeclaration
        } else {
            TokenKind::ProcessingInstruction
        };
        Some(Token::new(kind, (start, self.scanner.position())).with_name(name))
    }


    /// The effect of a strict-mode check of internal subset markup: where it leaves
    /// the position, or the error it reports.
    pub open spec fn dt_checked(&self, new: &Self, ok: bool, res: Result<int, (&'static str, int)>) -> bool {
        &&& new.wf()
        &&& new.spec_input() == self.spec_input()
        &&& new.spec_strict() == self.spec_strict()
        &&& new.spec_state() == self.spec_state()
        &&& match res {
            Ok(np) => ok && new.spec_pos() == np && new.spec_error() == self.spec_error(),
            Err((m, p)) => !ok && new.spec_pos() == p && error_after(
                self.spec_error(),
                Some((m, p)),
                new.spec_error(),
            ),
        }
    }

    /// A processing instruction of the internal subset, its target at the position
    fn doctype_pi(&mut self) -> (ok: bool)
        requires
            old(self).wf(),
            old(self).spec_strict(),
        ensures
            old(self).dt_checked(final(self), ok, dt_pi(old(self).spec_input(), old(self).spec_pos())),
    {
        let ghost s = self.scanner.spec_input();
        let ghost t0 = self.scanner.spec_pos();
        proof {
            lemma_name_len(s, t0);
        }
        match self.scanner.read_name() {
            None => true,
            Some(name) => {
                let ghost ne = self.scanner.spec_pos();
                assert(name@ =~= s.subrange(t0, ne));
                let xml: &[u8] = &[0x78u8, 0x6Du8, 0x6Cu8];
                assert(xml@ =~= lit_xml());
                if eq_ignore_ascii_case(name, xml) {
                    self.set_error("XML declaration not allowed in DTD internal subset");
                    return false;
                }
                if let Err(msg) = validate_name(name) {
                    self.set_error(msg);
                    return false;
                }
                let next = self.scanner.peek();
                let fine = match next {
                    Some(c) => is_ws_byte(c) || (c == 0x3F && self.scanner.peek_at(1) == Some(0x3Eu8)),
                    None => true,
                };
                if !fine {
                    self.set_error("Invalid character after PI target name");
                    return false;
                }
                let close: &[u8] = &[0x3Fu8, 0x3Eu8];
                assert(close@ =~= lit_pi_end());
                if self.seek(close) {
                    self.scanner.advance(2);
                }
                true
            },
        }
    }

    /// A declaration of the internal subset, its keyword at the position
    fn doctype_decl(&mut self) -> (ok: bool)
        requires
            old(self).wf(),
            old(self).spec_strict(),
        ensures
            old(self).dt_checked(final(self), ok, dt_decl(old(self).spec_input(), old(self).spec_pos())),
    {
        let ghost s = self.scanner.spec_input();
        let keyword_start = self.scanner.position();
        proof {
            lemma_ws_pos(s, keyword_start as int);
        }
        loop
            invariant
                self.wf(),
                self.scanner.spec_input() == s,
                s == old(self).spec_input(),
                self.state == old(self).state,
                self.strict == old(self).strict,
                self.error == old(self).error,
                keyword_start <= self.scanner.spec_pos() <= s.len(),
                ws_pos(s, keyword_start as int) == ws_pos(s, self.scanner.spec_pos()),
            ensures
                self.wf(),
                self.scanner.spec_input() == s,
                self.state == old(self).state,
                self.strict == old(self).strict,
                self.error == old(self).error,
                self.scanner.spec_pos() == ws_pos(s, keyword_start as int),
            decreases s.len() - self.scanner.spec_pos(),
        {
            match self.scanner.peek() {
                Some(c) => {
                    if is_ws_byte(c) {
                        break;
                    }
                    self.scanner.advance(1);
                },
                None => {
                    break;
                },
            }
        }
        let keyword = self.scanner.slice(keyword_start, self.scanner.position());
        if let Err(msg) = validate_dtd_keyword(keyword) {
            self.set_error(msg);
            return false;
        }
        let element: &[u8] = &[0x45u8, 0x4Cu8, 0x45u8, 0x4Du8, 0x45u8, 0x4Eu8, 0x54u8];
        let attlist: &[u8] = &[0x41u8, 0x54u8, 0x54u8, 0x4Cu8, 0x49u8, 0x53u8, 0x54u8];
        let entity: &[u8] = &[0x45u8, 0x4Eu8, 0x54u8, 0x49u8, 0x54u8, 0x59u8];
        assert(element@ =~= kw_element());
        assert(attlist@ =~= kw_attlist());
        assert(entity@ =~= kw_entity());
        let is_element_decl = crate::xml_core::primitives::bytes_eq(keyword, element);
        let is_attlist_decl = crate::xml_core::primitives::bytes_eq(keyword, attlist);
        let is_entity_decl = crate::xml_core::primitives::bytes_eq(keyword, entity);
        let ghost ke = self.scanner.spec_pos();
        proof {
            lemma_ws_end(s, ke);
        }
        self.scanner.skip_whitespace();
        assert(tail(s, ke) =~= s.skip(ke));
        if is_entity_decl && self.scanner.peek() == Some(0x25u8) {
            self.scanner.advance(1);
            let next = self.scanner.peek();
            let spaced = match next {
                Some(c) => is_ws_byte(c),
                None => false,
            };
            if !spaced {
                self.set_error("Missing whitespace after '%' in entity declaration");
                return false;
            }
            proof {
                lemma_ws_end(s, self.scanner.spec_pos());
                assert(tail(s, self.scanner.spec_pos()) =~= s.skip(self.scanner.spec_pos()));
            }
            self.scanner.skip_whitespace();
        }
        let ghost w2 = self.scanner.spec_pos();
        proof {
            lemma_name_len(s, w2);
        }
        match self.scanner.read_name() {
            Some(name) => {
                assert(name@ =~= s.subrange(w2, self.scanner.spec_pos()));
                if let Err(msg) = validate_name(name) {
                    self.set_error(msg);
                    return false;
                }
            },
            None => {
                self.set_error("Missing name in DTD declaration");
                return false;
            },
        }
        let content_start = self.scanner.position();
        proof {
            lemma_decl_end(s, content_start as int, 1, false, 0);
        }
        // The nesting depth is 1 + opens - closes
        let mut opens: usize = 0;
        let mut closes: usize = 0;
        let mut decl_in_string = false;
        let mut decl_string_char: u8 = 0;
        while !self.scanner.is_eof() && opens + 1 > closes
            invariant
                self.wf(),
                self.scanner.spec_input() == s,
                self.state == old(self).state,
                self.strict == old(self).strict,
                self.error == old(self).error,
                content_start <= self.scanner.spec_pos() <= s.len(),
                opens <= self.scanner.spec_pos() - content_start,
                closes <= self.scanner.spec_pos() - content_start,
                closes <= opens + 1,
                decl_end(s, content_start as int, 1, false, 0) == decl_end(
                    s,
                    self.scanner.spec_pos(),
                    1 + opens - closes,
                    decl_in_string,
                    decl_string_char,
                ),
            decreases s.len() - self.scanner.spec_pos(),
        {
            let db = match self.scanner.peek() {
                Some(c) => c,
                None => 0,
            };
            if decl_in_string {
                if db == decl_string_char {
                    decl_in_string = false;
                }
            } else if db == 0x22 || db == 0x27 {
                decl_in_string = true;
                decl_string_char = db;
            } else if db == 0x3C {
                opens += 1;
            } else if db == 0x3E {
                closes += 1;
            }
            self.scanner.advance(1);
        }
        let pos = self.scanner.position();
        let content_end = if pos >= 1 {
            pos - 1
        } else {
            0
        };
        let content: &[u8] = if content_end >= content_start {
            self.scanner.slice(content_start, content_end)
        } else {
            &[]
        };
        assert(content@ =~= decl_body(s, content_start as int, pos as int));
        if is_element_decl {
            if let Err(msg) = validate_element_content(content) {
                self.set_error(msg);
                return false;
            }
        }
        if is_attlist_decl {
            if let Err(msg) = validate_attlist_content(content) {
                self.set_error(msg);
                return false;
            }
        }
        if is_entity_decl {
            if let Err(msg) = validate_entity_content(content) {
                self.set_error(msg);
                return false;
            }
        }
        true
    }

    /// Markup of the internal subset after `<!` (its position at what follows `!`)
    fn doctype_bang(&mut self) -> (ok: bool)
        requires
            old(self).wf(),
            old(self).spec_strict(),
        ensures
            old(self).dt_checked(final(self), ok, dt_bang(old(self).spec_input(), old(self).spec_pos())),
    {
        let dashes: &[u8] = &[0x2Du8, 0x2Du8];
        assert(dashes@ =~= lit_dashes());
        if self.scanner.starts_with(dashes) {
            self.scanner.advance(2);
            let content_start = self.scanner.position();
            let close: &[u8] = &[0x2Du8, 0x2Du8, 0x3Eu8];
            assert(close@ =~= lit_comment_end());
            if self.seek(close) {
                let pos = self.scanner.position();
                let content = self.scanner.slice(content_start, pos);
                if let Err(msg) = validate_comment(content) {
                    self.set_error(msg);
                    return false;
                }
                self.scanner.advance(3);
            }
            true
        } else {
            self.doctype_decl()
        }
    }

    /// Markup of the internal subset after its `<`
    fn doctype_markup(&mut self) -> (ok: bool)
        requires
            old(self).wf(),
            old(self).spec_strict(),
        ensures
            old(self).dt_checked(final(self), ok, dt_markup(old(self).spec_input(), old(self).spec_pos())),
    {
        match self.scanner.peek() {
            Some(c) => {
                if c == 0x3F {
                    self.scanner.advance(1);
                    self.doctype_pi()
                } else if c == 0x21 {
                    self.scanner.advance(1);
                    self.doctype_bang()
                } else {
                    true
                }
            },
            None => true,
        }
    }

    /// Parse a DOCTYPE declaration (at `<!` with `DOCTYPE` next)
    fn parse_doctype(&mut self, start: usize) -> (r: Option<Token<'a>>)
        requires
            old(self).wf(),
            old(self).spec_state() == ParseState::InsideMarkup,
            old(self).spec_pos() == start + 2,
        ensures
            r matches Some(t) ==> t.kind != TokenKind::Text,
            old(self).stepped(final(self), r, doctype_tok(old(self).spec_input(), start as int, old(self).spec_strict())),
    {
        let ghost s = self.scanner.spec_input();
        let mut in_internal_subset = false;
        let mut in_string = false;
        let mut string_char: u8 = 0;
        while !self.scanner.is_eof()
            invariant
                self.wf(),
                self.scanner.spec_input() == s,
                s == old(self).spec_input(),
                self.state == ParseState::InsideMarkup,
                self.strict == old(self).strict,
                self.error == old(self).error,
                start + 2 <= self.scanner.spec_pos(),
                doctype_tok(s, start as int, self.strict) == dt_loop(
                    s,
                    self.scanner.spec_pos(),
                    in_internal_subset,
                    in_string,
                    string_char,
                    self.strict,
                    start as int,
                ),
            decreases s.len() - self.scanner.spec_pos(),
        {
            let b = match self.scanner.peek() {
                Some(c) => c,
                None => {
                    return None;
                },
            };
            if in_string {
                if b == string_char {
                    in_string = false;
                }
                self.scanner.advance(1);
                continue;
            }
            if b == 0x22 || b == 0x27 {
                in_string = true;
                string_char = b;
                self.scanner.advance(1);
            } else if b == 0x5B {
                in_internal_subset = true;
                self.scanner.advance(1);
            } else if b == 0x5D {
                in_internal_subset = false;
                self.scanner.advance(1);
            } else if b == 0x3E && !in_internal_subset {
                self.scanner.advance(1);
                self.state = ParseState::InsideText;
                return Some(Token::new(TokenKind::DocType, (start, self.scanner.position())));
            } else if b == 0x3C && in_internal_subset && self.strict {
                self.scanner.advance(1);
                proof {
                    lemma_dt_markup_progress(s, self.scanner.spec_pos());
                }
                if !self.doctype_markup() {
                    return None;
                }
            } else {
                self.scanner.advance(1);
            }
        }
        None
    }

    /// Parse markup starting with '!' (comment, CDATA, DOCTYPE)
    fn parse_bang_markup(&mut self, start: usize) -> (r: Option<Token<'a>>)
        requires
            old(self).wf(),
            old(self).spec_state() == ParseState::InsideMarkup,
            old(self).spec_pos() == start + 1,
            start + 1 < old(self).spec_input().len(),
        ensures
            r matches Some(t) ==> t.kind != TokenKind::Text,
            old(self).stepped(final(self), r, bang_tok(old(self).spec_input(), start as int, old(self).spec_strict())),
    {
        self.scanner.advance(1);
        let dashes: &[u8] = &[0x2Du8, 0x2Du8];
        let cdata: &[u8] = &[0x5Bu8, 0x43u8, 0x44u8, 0x41u8, 0x54u8, 0x41u8, 0x5Bu8];
        let doctype: &[u8] = &[0x44u8, 0x4Fu8, 0x43u8, 0x54u8, 0x59u8, 0x50u8, 0x45u8];
        assert(dashes@ =~= lit_dashes());
        assert(cdata@ =~= lit_cdata_open());
        assert(doctype@ =~= lit_doctype());
        if self.scanner.starts_with(dashes) {
            self.parse_comment(start)
        } else if self.scanner.starts_with(cdata) {
            self.parse_cdata(start)
        } else if self.scanner.starts_with(doctype) {
            self.parse_doctype(start)
        } else {
            None
        }
    }

    /// Parse markup starting with '<'
    fn parse_markup(&mut self) -> (r: Option<Token<'a>>)
        requires
            old(self).wf(),
            old(self).spec_pos() < old(self).spec_input().len(),
            old(self).spec_input()[old(self).spec_pos()] == 0x3C,
        ensures
            r matches Some(t) ==> t.kind != TokenKind::Text,
            old(self).stepped(final(self), r, markup_tok(old(self).spec_input(), old(self).spec_pos(), old(self).spec_strict())),
    {
        let start = self.scanner.position();
        self.scanner.advance(1);
        self.state = ParseState::InsideMarkup;
        match self.scanner.peek() {
            Some(c) => {
                if c == 0x2F {
                    self.parse_end_tag(start)
                } else if c == 0x21 {
                    self.parse_bang_markup(start)
                } else if c == 0x3F {
                    self.parse_pi(start)
                } else {
                    self.parse_start_tag(start)
                }
            },
            None => None,
        }
    }

    /// Get the next token, or None when no token could be read; an `Eof` token marks
    /// the end of the input
    pub fn next_token(&mut self) -> (r: Option<Token<'a>>)
        requires
            old(self).wf(),
        ensures
            r matches Some(t) ==> text_owned_ok(old(self).spec_input(), t),
            old(self).stepped(final(self), r, next_tok(old(self).spec_input(), old(self).spec_pos(), old(self).spec_state(), old(self).spec_strict())),
    {
        let ghost s = self.scanner.spec_input();
        if self.state == ParseState::Done {
            return None;
        }
        if self.state == ParseState::Init {
            proof {
                lemma_ws_end(s, self.scanner.spec_pos());
                assert(tail(s, self.scanner.spec_pos()) =~= s.skip(self.scanner.spec_pos()));
            }
            self.scanner.skip_whitespace();
            self.state = ParseState::InsideText;
        }
        if self.scanner.is_eof() {
            self.state = ParseState::Done;
            let p = self.scanner.position();
            return Some(Token::new(TokenKind::Eof, (p, p)));
        }
        match self.scanner.peek() {
            Some(c) => {
                if c == 0x3C {
                    self.parse_markup()
                } else {
                    self.parse_text()
                }
            },
            None => {
                self.state = ParseState::Done;
                let p = self.scanner.position();
                Some(Token::new(TokenKind::Eof, (p, p)))
            },
        }
    }

    /// Get the current parse state
    pub fn state(&self) -> (r: ParseState)
        ensures
            r == self.spec_state(),
    {
        self.state
    }

    /// Get the current position in the input
    pub fn position(&self) -> (r: usize)
        ensures
            r == self.spec_pos(),
    {
        self.scanner.position()
    }
}

/// A search for `b` from `cur` finds nothing before a position `j` where `b` stands.
pub proof fn lemma_first_pat_before(s: Seq<u8>, cur: int, j: int, b: u8)
    requires
        0 <= cur <= j < s.len(),
        s[j] == b,
    ensures
        0 <= find_pat(s, cur, seq![b]) <= j,
    decreases j - cur,
{
    if cur < j {
        if !has_prefix(tail(s, cur), seq![b]) {
            lemma_first_pat_before(s, cur + 1, j, b);
        }
    } else {
        lemma_prefix_byte(s, j, b);
    }
}

} // verus!
