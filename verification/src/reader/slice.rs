//! Zero-Copy Slice Parser
//!
//! Parses XML from a byte slice with zero-copy semantics.
//! Input references are maintained directly in the output.

use std::borrow::Cow;
use vstd::prelude::*;

use super::events::{EndElement, StartElement, XmlEvent};
use crate::xml_core::attributes::{
    all_wf, attrs_from, attrs_model, clone_cow, cow_bytes, opt_view, parse_attributes,
    parse_attributes_strict, Attribute,
};
use crate::dom::doctype::{add_found, attr_ref_problem, dtd_scan, ents_view, find_attr_ref_problem, EntView};
use crate::xml_core::dtd::{dtd_wf, DtdDeclarations};
use crate::dom::doctype::parse_dtd_declarations;
use crate::xml_core::primitives::bytes_eq;
use crate::xml_core::tokenizer::checks::{lit_encoding, lit_version};
use crate::xml_core::tokenizer::model::{
    lemma_next_tok_shape, next_tok, tok_shape, ParseState, TokView, TokenKind,
};
use crate::xml_core::entities::no_amp;
use crate::xml_core::tokenizer::{
    error_after, text_owned_ok, tok_view, ParseError, Token, Tokenizer,
};

verus! {

// =============================================================================
// Model
// =============================================================================
/// A parse error as values: its message and position.
pub open spec fn err_model(e: Option<ParseError>) -> Option<(Seq<char>, int)> {
    match e {
        Some(pe) => Some((pe.message@, pe.position as int)),
        None => None,
    }
}

/// The error kept after a step reported `e` when the error was `old`: the first one.
pub open spec fn first_err(
    old: Option<(Seq<char>, int)>,
    e: Option<(&'static str, int)>,
) -> Option<(Seq<char>, int)> {
    match (old, e) {
        (None, Some((m, p))) => Some((m@, p)),
        _ => old,
    }
}

proof fn lemma_error_after(
    old: Option<ParseError>,
    e: Option<(&'static str, int)>,
    new: Option<ParseError>,
)
    requires
        error_after(old, e, new),
    ensures
        err_model(new) == first_err(err_model(old), e),
{
}

/// Where one call of `next_event` stops: the token it turns into an event (none when
/// the tokenizer gave none), the tokenizer's position and state, and its first error.
pub struct ReadStep {
    pub token: Option<TokView>,
    pub pos: int,
    pub state: ParseState,
    pub err: Option<(Seq<char>, int)>,
}

/// A token that gives no event: empty text, or a construct without its content or
/// name.
pub open spec fn skipped(t: TokView) -> bool {
    match t.kind {
        TokenKind::Text => match t.content {
            Some(c) => c.len() == 0,
            None => true,
        },
        TokenKind::CData | TokenKind::Comment => t.content is None,
        TokenKind::ProcessingInstruction => t.name is None,
        _ => false,
    }
}

/// The tokenizer steps of one call of `next_event` from `pos` in state `st`: skipped
/// tokens are read past.
#[verifier::opaque]
pub open spec fn read_from(
    s: Seq<u8>,
    pos: int,
    st: ParseState,
    strict: bool,
    err: Option<(Seq<char>, int)>,
) -> ReadStep
    decreases s.len() - pos,
{
    let step = next_tok(s, pos, st, strict);
    let err2 = first_err(err, step.err);
    let done = ReadStep { token: step.token, pos: step.pos, state: step.state, err: err2 };
    match step.token {
        Some(t) => if skipped(t) && pos < step.pos && step.pos <= s.len() {
            read_from(s, step.pos, step.state, strict, err2)
        } else {
            done
        },
        None => done,
    }
}

/// A byte that ends a tag name: whitespace, `>`, `/` or `?`.
pub open spec fn name_stop(b: u8) -> bool {
    b == 0x20 || b == 0x09 || b == 0x0A || b == 0x0D || b == 0x3E || b == 0x2F || b == 0x3F
}

/// The end of the tag name that starts at `p`.
pub open spec fn tag_name_end(tag: Seq<u8>, p: int) -> int
    decreases tag.len() - p,
{
    if p < 0 || p >= tag.len() || name_stop(tag[p]) {
        p
    } else {
        tag_name_end(tag, p + 1)
    }
}

/// Where the attributes of a tag start: after `<`, `</` or `<?` and the name.
pub open spec fn tag_attrs_start(tag: Seq<u8>) -> int {
    tag_name_end(
        tag,
        if tag.len() > 1 && (tag[1] == 0x2F || tag[1] == 0x3F) {
            2
        } else {
            1
        },
    )
}

/// Where the attributes of a tag end: before `/>`, `?>` or `>`.
pub open spec fn tag_attrs_end(tag: Seq<u8>) -> int {
    let n = tag.len() as int;
    if n >= 2 && (tag[n - 2] == 0x2F || tag[n - 2] == 0x3F) && tag[n - 1] == 0x3E {
        n - 2
    } else if n >= 1 && tag[n - 1] == 0x3E {
        n - 1
    } else {
        n
    }
}

/// The attributes (name, value) of a tag, and the error that strict parsing of them
/// reports (then no attribute is kept).
pub open spec fn tag_attrs(tag: Seq<u8>, strict: bool) -> (
    Seq<(Seq<u8>, Seq<u8>)>,
    Option<&'static str>,
) {
    let p = tag_attrs_start(tag);
    let e = tag_attrs_end(tag);
    if p >= e {
        (seq![], None)
    } else {
        let r = attrs_from(tag.subrange(p, e), 0, strict);
        if strict {
            match r.1 {
                Some(m) => (seq![], Some(m)),
                None => (r.0, None),
            }
        } else {
            (r.0, None)
        }
    }
}

/// The bytes of the input that a token spans.
pub open spec fn token_text(s: Seq<u8>, t: TokView) -> Seq<u8> {
    s.subrange(t.start, t.end)
}

/// The value of the first attribute named `name` at or after `i`.
pub open spec fn first_value(attrs: Seq<(Seq<u8>, Seq<u8>)>, name: Seq<u8>, i: int) -> Option<
    Seq<u8>,
>
    decreases attrs.len() - i,
{
    if i < 0 || i >= attrs.len() {
        None
    } else if attrs[i].0 == name {
        Some(attrs[i].1)
    } else {
        first_value(attrs, name, i + 1)
    }
}

/// `standalone`, `yes`, `1.0`.
pub open spec fn lit_standalone() -> Seq<u8> {
    seq![0x73u8, 0x74u8, 0x61u8, 0x6Eu8, 0x64u8, 0x61u8, 0x6Cu8, 0x6Fu8, 0x6Eu8, 0x65u8]
}

pub open spec fn lit_yes() -> Seq<u8> {
    seq![0x79u8, 0x65u8, 0x73u8]
}

pub open spec fn lit_default_version() -> Seq<u8> {
    seq![0x31u8, 0x2Eu8, 0x30u8]
}

/// Whether `e` is the event that token `t` of input `s` gives.
pub open spec fn event_of(s: Seq<u8>, t: TokView, strict: bool, e: XmlEvent<'_>) -> bool {
    let attrs = tag_attrs(token_text(s, t), strict).0;
    match t.kind {
        TokenKind::Eof => e is EndDocument,
        TokenKind::StartTag => e matches XmlEvent::StartElement(x) && x.wf() && Some(x.name@)
            == t.name && attrs_model(x.attributes@) == attrs && all_wf(x.attributes@),
        TokenKind::EmptyTag => e matches XmlEvent::EmptyElement(x) && x.wf() && Some(x.name@)
            == t.name && attrs_model(x.attributes@) == attrs && all_wf(x.attributes@),
        TokenKind::EndTag => e matches XmlEvent::EndElement(x) && x.wf() && Some(x.name@)
            == t.name,
        TokenKind::Text => e matches XmlEvent::Text(c) && Some(c@) == t.content && (c is Owned
            <==> !no_amp(token_text(s, t))),
        TokenKind::CData => e matches XmlEvent::CData(c) && Some(c@) == t.content,
        TokenKind::Comment => e matches XmlEvent::Comment(c) && Some(c@) == t.content,
        TokenKind::ProcessingInstruction => e matches XmlEvent::ProcessingInstruction {
            target,
            data,
        } && Some(target@) == t.name && opt_view(data) == t.content,
        TokenKind::XmlDeclaration => e matches XmlEvent::XmlDeclaration {
            version,
            encoding,
            standalone,
        } && version@ == (match first_value(attrs, lit_version(), 0) {
            Some(v) => v,
            None => lit_default_version(),
        }) && opt_view(encoding) == first_value(attrs, lit_encoding(), 0) && standalone == (
        match first_value(attrs, lit_standalone(), 0) {
            Some(v) => Some(v == lit_yes()),
            None => None,
        }),
        TokenKind::DocType => e matches XmlEvent::DocType(c) && c@ == token_text(s, t),
    }
}

/// A token whose attributes are read.
pub open spec fn reads_attrs(k: TokenKind) -> bool {
    k == TokenKind::StartTag || k == TokenKind::EmptyTag || k == TokenKind::XmlDeclaration
}

/// The text of a tag's attributes.
pub open spec fn attr_region(tag: Seq<u8>) -> Seq<u8> {
    if tag_attrs_start(tag) >= tag_attrs_end(tag) {
        seq![]
    } else {
        tag.subrange(tag_attrs_start(tag), tag_attrs_end(tag))
    }
}

/// The attribute error after reading token `t`: the one its attributes report, at
/// position 0; in strict mode then the one their entity references make against the
/// declared general entities `tab`; else the earlier one.
pub open spec fn attr_err_after(
    old: Option<(Seq<char>, int)>,
    s: Seq<u8>,
    t: Option<TokView>,
    strict: bool,
    tab: Seq<(Seq<u8>, EntView)>,
) -> Option<(Seq<char>, int)> {
    match t {
        Some(t) => if reads_attrs(t.kind) {
            match tag_attrs(token_text(s, t), strict).1 {
                Some(m) => Some((m@, 0)),
                None => if strict {
                    match attr_ref_problem(attr_region(token_text(s, t)), tab) {
                        Some(m) => Some((m@, 0)),
                        None => old,
                    }
                } else {
                    old
                },
            }
        } else {
            old
        },
        None => old,
    }
}

/// The declared general entities after reading token `t`: in strict mode a DOCTYPE
/// adds those it declares (the first declaration of a name counting).
pub open spec fn ents_after(
    tab: Seq<(Seq<u8>, EntView)>,
    s: Seq<u8>,
    t: Option<TokView>,
    strict: bool,
) -> Seq<(Seq<u8>, EntView)> {
    match t {
        Some(t) => if strict && t.kind == TokenKind::DocType {
            add_found(tab, dtd_scan(token_text(s, t), 0), false)
        } else {
            tab
        },
        None => tab,
    }
}


/// A read from a position within the input stays within it; its token has the shape
/// of `tok_shape`; a token other than `Eof` lies after `pos`; `Eof` ends the input.
pub proof fn lemma_read_from(
    s: Seq<u8>,
    pos: int,
    st: ParseState,
    strict: bool,
    err: Option<(Seq<char>, int)>,
)
    requires
        0 <= pos <= s.len(),
    ensures
        read_from(s, pos, st, strict, err).pos <= s.len(),
        read_from(s, pos, st, strict, err).token is Some ==> st != ParseState::Done && pos
            <= read_from(s, pos, st, strict, err).pos,
        read_from(s, pos, st, strict, err).token matches Some(t) ==> tok_shape(s, t) && (t.kind
            != TokenKind::Eof ==> pos < read_from(s, pos, st, strict, err).pos) && (t.kind
            == TokenKind::Eof ==> read_from(s, pos, st, strict, err).state == ParseState::Done),
    decreases s.len() - pos,
{
    reveal(read_from);
    lemma_next_tok_shape(s, pos, st, strict);
    let step = next_tok(s, pos, st, strict);
    if let Some(t) = step.token {
        if skipped(t) && pos < step.pos && step.pos <= s.len() {
            lemma_read_from(s, step.pos, step.state, strict, first_err(err, step.err));
        }
    }
}

/// The tokens of the events read from `pos` on, up to the end of the document or a
/// read that gives no token.
#[verifier::opaque]
pub open spec fn read_all(
    s: Seq<u8>,
    pos: int,
    st: ParseState,
    strict: bool,
    err: Option<(Seq<char>, int)>,
) -> Seq<TokView>
    decreases s.len() - pos,
{
    let rs = read_from(s, pos, st, strict, err);
    match rs.token {
        None => seq![],
        Some(t) => if t.kind == TokenKind::Eof {
            seq![]
        } else if pos < rs.pos <= s.len() {
            seq![t] + read_all(s, rs.pos, rs.state, strict, rs.err)
        } else {
            seq![t]
        },
    }
}

/// One read of `read_all`: nothing once no token or the end comes, else the token and
/// the reads after it.
pub proof fn lemma_read_all_step(
    s: Seq<u8>,
    pos: int,
    st: ParseState,
    strict: bool,
    err: Option<(Seq<char>, int)>,
)
    requires
        0 <= pos <= s.len(),
    ensures
        ({
            let rs = read_from(s, pos, st, strict, err);
            &&& (rs.token is None || rs.token->0.kind == TokenKind::Eof) ==> read_all(
                s,
                pos,
                st,
                strict,
                err,
            ) == Seq::<TokView>::empty()
            &&& (rs.token is Some && rs.token->0.kind != TokenKind::Eof) ==> pos < rs.pos <= s.len()
                && read_all(s, pos, st, strict, err) == seq![rs.token->0] + read_all(
                s,
                rs.pos,
                rs.state,
                strict,
                rs.err,
            )
        }),
{
    reveal(read_all);
    lemma_read_from(s, pos, st, strict, err);
}

/// Whether `events` are the events of the tokens `toks` of input `s`.
pub open spec fn events_of(s: Seq<u8>, toks: Seq<TokView>, strict: bool, events: Seq<XmlEvent<'_>>) -> bool {
    &&& events.len() == toks.len()
    &&& forall|i: int| 0 <= i < toks.len() ==> event_of(s, toks[i], strict, #[trigger] events[i])
}

fn is_name_stop(b: u8) -> (r: bool)
    ensures
        r == name_stop(b),
{
    b == 0x20 || b == 0x09 || b == 0x0A || b == 0x0D || b == 0x3E || b == 0x2F || b == 0x3F
}

/// Position of the first attribute named `name`, or the number of attributes.
fn find_value<'a>(attrs: &Vec<Attribute<'a>>, name: &[u8]) -> (r: usize)
    ensures
        r <= attrs@.len(),
        r < attrs@.len() ==> first_value(attrs_model(attrs@), name@, 0) == Some(attrs@[r as int].value@),
        r == attrs@.len() ==> first_value(attrs_model(attrs@), name@, 0) is None,
{
    let ghost m = attrs_model(attrs@);
    let mut i: usize = 0;
    while i < attrs.len()
        invariant
            i <= attrs@.len(),
            m == attrs_model(attrs@),
            first_value(m, name@, 0) == first_value(m, name@, i as int),
        decreases attrs.len() - i,
    {
        if bytes_eq(cow_bytes(&attrs[i].name), name) {
            return i;
        }
        i += 1;
    }
    i
}

/// The XML declaration event of its pseudo-attributes
fn declaration_event<'a>(attrs: &Vec<Attribute<'a>>) -> (r: XmlEvent<'a>)
    ensures
        r matches XmlEvent::XmlDeclaration { version, encoding, standalone } && version@ == (
        match first_value(attrs_model(attrs@), lit_version(), 0) {
            Some(v) => v,
            None => lit_default_version(),
        }) && opt_view(encoding) == first_value(attrs_model(attrs@), lit_encoding(), 0)
            && standalone == (match first_value(attrs_model(attrs@), lit_standalone(), 0) {
            Some(v) => Some(v == lit_yes()),
            None => None,
        }),
{
    let version_name: &[u8] = &[0x76u8, 0x65u8, 0x72u8, 0x73u8, 0x69u8, 0x6Fu8, 0x6Eu8];
    let encoding_name: &[u8] = &[0x65u8, 0x6Eu8, 0x63u8, 0x6Fu8, 0x64u8, 0x69u8, 0x6Eu8, 0x67u8];
    let standalone_name: &[u8] = &[
        0x73u8,
        0x74u8,
        0x61u8,
        0x6Eu8,
        0x64u8,
        0x61u8,
        0x6Cu8,
        0x6Fu8,
        0x6Eu8,
        0x65u8,
    ];
    let yes: &[u8] = &[0x79u8, 0x65u8, 0x73u8];
    assert(version_name@ =~= lit_version());
    assert(encoding_name@ =~= lit_encoding());
    assert(standalone_name@ =~= lit_standalone());
    assert(yes@ =~= lit_yes());
    let kv = find_value(attrs, version_name);
    let version = if kv < attrs.len() {
        clone_cow(&attrs[kv].value)
    } else {
        let mut d: Vec<u8> = Vec::new();
        d.push(0x31);
        d.push(0x2E);
        d.push(0x30);
        assert(d@ =~= lit_default_version());
        Cow::Owned(d)
    };
    let ke = find_value(attrs, encoding_name);
    let encoding = if ke < attrs.len() {
        Some(clone_cow(&attrs[ke].value))
    } else {
        None
    };
    let ks = find_value(attrs, standalone_name);
    let standalone = if ks < attrs.len() {
        Some(bytes_eq(cow_bytes(&attrs[ks].value), yes))
    } else {
        None
    };
    XmlEvent::XmlDeclaration { version, encoding, standalone }
}

// =============================================================================
// Reader
// =============================================================================
/// Zero-copy XML reader from a byte slice
pub struct SliceReader<'a> {
    input: &'a [u8],
    tokenizer: Tokenizer<'a>,
    strict: bool,
    attr_error: Option<ParseError>,
    dtd: DtdDeclarations,
}

impl<'a> SliceReader<'a> {
    /// The input.
    pub closed spec fn spec_input(&self) -> Seq<u8> {
        self.input@
    }

    /// Whether the reader checks in strict mode.
    pub closed spec fn spec_strict(&self) -> bool {
        self.strict
    }

    /// The tokenizer's position.
    pub closed spec fn spec_pos(&self) -> int {
        self.tokenizer.spec_pos()
    }

    /// The tokenizer's state.
    pub closed spec fn spec_state(&self) -> ParseState {
        self.tokenizer.spec_state()
    }

    /// The first error the tokenizer reported.
    pub closed spec fn spec_token_error(&self) -> Option<(Seq<char>, int)> {
        err_model(self.tokenizer.spec_error())
    }

    /// The last error that attribute parsing reported.
    pub closed spec fn spec_attr_error(&self) -> Option<(Seq<char>, int)> {
        err_model(self.attr_error)
    }

    /// The general entities that the DOCTYPEs read so far declare (strict mode).
    pub closed spec fn spec_ents(&self) -> Seq<(Seq<u8>, EntView)> {
        ents_view(self.dtd.entities@)
    }

    /// The tokenizer reads this reader's input, in its mode.
    pub closed spec fn wf(&self) -> bool {
        &&& self.tokenizer.wf()
        &&& self.tokenizer.spec_input() == self.input@
        &&& self.tokenizer.spec_strict() == self.strict
        &&& dtd_wf(&self.dtd)
    }

    /// A well-formed reader stands within its input.
    pub proof fn lemma_pos_in_input(&self)
        requires
            self.wf(),
        ensures
            0 <= self.spec_pos() <= self.spec_input().len(),
    {
        self.tokenizer.lemma_pos_in_input();
    }

    /// What the next call of `next_event` reads.
    pub open spec fn next_read(&self) -> ReadStep {
        read_from(
            self.spec_input(),
            self.spec_pos(),
            self.spec_state(),
            self.spec_strict(),
            self.spec_token_error(),
        )
    }

    /// Create a new slice reader (lenient mode)
    pub fn new(input: &'a [u8]) -> (r: Self)
        ensures
            r.wf(),
            r.spec_input() == input@,
            !r.spec_strict(),
            r.spec_pos() == 0,
            r.spec_state() == ParseState::Init,
            r.spec_token_error() is None,
            r.spec_attr_error() is None,
            r.spec_ents() == Seq::<(Seq<u8>, EntView)>::empty(),
    {
        let r = SliceReader {
            input,
            tokenizer: Tokenizer::new(input),
            strict: false,
            attr_error: None,
            dtd: DtdDeclarations::new(),
        };
        assert(r.spec_ents() =~= Seq::<(Seq<u8>, EntView)>::empty());
        r
    }

    /// Create a new slice reader in strict mode
    pub fn new_strict(input: &'a [u8]) -> (r: Self)
        ensures
            r.wf(),
            r.spec_input() == input@,
            r.spec_strict(),
            r.spec_pos() == 0,
            r.spec_state() == ParseState::Init,
            r.spec_token_error() is None,
            r.spec_attr_error() is None,
            r.spec_ents() == Seq::<(Seq<u8>, EntView)>::empty(),
    {
        let r = SliceReader {
            input,
            tokenizer: Tokenizer::new_strict(input),
            strict: true,
            attr_error: None,
            dtd: DtdDeclarations::new(),
        };
        assert(r.spec_ents() =~= Seq::<(Seq<u8>, EntView)>::empty());
        r
    }

    /// Parse attributes from a tag token
    fn parse_tag_attributes(&mut self, token: &Token<'a>) -> (r: Vec<Attribute<'a>>)
        requires
            token.span.0 <= token.span.1 <= old(self).input@.len(),
        ensures
            final(self).input == old(self).input,
            final(self).tokenizer == old(self).tokenizer,
            final(self).strict == old(self).strict,
            final(self).dtd == old(self).dtd,
            ({
                let tag = old(self).input@.subrange(token.span.0 as int, token.span.1 as int);
                let ta = tag_attrs(tag, old(self).strict);
                &&& attrs_model(r@) == ta.0
                &&& all_wf(r@)
                &&& err_model(final(self).attr_error) == match ta.1 {
                    Some(m) => Some((m@, 0int)),
                    None => if old(self).strict {
                        match attr_ref_problem(attr_region(tag), ents_view(old(self).dtd.entities@)) {
                            Some(m) => Some((m@, 0int)),
                            None => err_model(old(self).attr_error),
                        }
                    } else {
                        err_model(old(self).attr_error)
                    },
                }
            }),
    {
        let (start, end) = token.span;
        let input: &'a [u8] = self.input;
        let tag: &'a [u8] = &input[start..end];
        let n = tag.len();
        let mut pos: usize = if n > 1 && (tag[1] == 0x2F || tag[1] == 0x3F) {
            2
        } else {
            1
        };
        let ghost p0 = pos as int;
        while pos < n && !is_name_stop(tag[pos])
            invariant
                n == tag@.len(),
                p0 <= pos,
                pos <= n || pos == p0,
                tag_name_end(tag@, pos as int) == tag_name_end(tag@, p0),
            decreases n - pos,
        {
            pos += 1;
        }
        assert(pos == tag_attrs_start(tag@));
        let mut attr_end = n;
        if n >= 2 && (tag[n - 2] == 0x2F || tag[n - 2] == 0x3F) && tag[n - 1] == 0x3E {
            attr_end = n - 2;
        } else if n >= 1 && tag[n - 1] == 0x3E {
            attr_end = n - 1;
        }
        assert(attr_end == tag_attrs_end(tag@));
        if pos >= attr_end {
            assert(attr_region(tag@) =~= Seq::<u8>::empty());
            assert(attr_ref_problem(attr_region(tag@), ents_view(self.dtd.entities@)) is None);
            return Vec::new();
        }
        let content: &'a [u8] = &tag[pos..attr_end];
        assert(content@ =~= tag@.subrange(pos as int, attr_end as int));
        if self.strict {
            match parse_attributes_strict(content) {
                Ok(attrs) => {
                    match find_attr_ref_problem(content, &self.dtd.entities) {
                        Some(msg) => {
                            self.attr_error = Some(ParseError::new(msg, 0));
                        },
                        None => {},
                    }
                    attrs
                },
                Err(msg) => {
                    self.attr_error = Some(ParseError::new(msg, 0));
                    Vec::new()
                },
            }
        } else {
            parse_attributes(content)
        }
    }

    /// Get the next XML event; `EndDocument` at the end of the input, `None` when no
    /// token could be read
    pub fn next_event(&mut self) -> (r: Option<XmlEvent<'a>>)
        requires
            old(self).wf(),
        ensures
            final(self).wf(),
            final(self).spec_input() == old(self).spec_input(),
            final(self).spec_strict() == old(self).spec_strict(),
            ({
                let rs = old(self).next_read();
                &&& final(self).spec_pos() == rs.pos
                &&& final(self).spec_state() == rs.state
                &&& final(self).spec_token_error() == rs.err
                &&& final(self).spec_attr_error() == attr_err_after(
                    old(self).spec_attr_error(),
                    old(self).spec_input(),
                    rs.token,
                    old(self).spec_strict(),
                    old(self).spec_ents(),
                )
                &&& final(self).spec_ents() == ents_after(
                    old(self).spec_ents(),
                    old(self).spec_input(),
                    rs.token,
                    old(self).spec_strict(),
                )
                &&& r is Some <==> rs.token is Some
                &&& r matches Some(e) ==> event_of(
                    old(self).spec_input(),
                    rs.token->0,
                    old(self).spec_strict(),
                    e,
                )
            }),
    {
        let ghost s = self.input@;
        let ghost strict = self.strict;
        let ghost target = self.next_read();
        let ghost attr0 = err_model(self.attr_error);
        loop
            invariant
                self.wf(),
                self.input@ == s,
                self.strict == strict,
                err_model(self.attr_error) == attr0,
                self.next_read() == target,
                s == old(self).spec_input(),
                strict == old(self).spec_strict(),
                target == old(self).next_read(),
                attr0 == old(self).spec_attr_error(),
                self.dtd == old(self).dtd,
            decreases s.len() - self.tokenizer.spec_pos(),
        {
            let ghost p0 = self.tokenizer.spec_pos();
            let ghost st0 = self.tokenizer.spec_state();
            let ghost e0 = self.tokenizer.spec_error();
            let ghost step = next_tok(s, p0, st0, strict);
            proof {
                self.tokenizer.lemma_pos_in_input();
                reveal(read_from);
            }
            let next = self.tokenizer.next_token();
            proof {
                lemma_next_tok_shape(s, p0, st0, strict);
                lemma_error_after(e0, step.err, self.tokenizer.spec_error());
            }
            let token = match next {
                Some(t) => t,
                None => {
                    return None;
                },
            };
            assert(step.token == Some(tok_view(token)));
            let ev = self.token_event(token);
            if ev.is_some() {
                return ev;
            }
        }
    }

    /// The event of a token read from the input; `None` when the token gives none
    fn token_event(&mut self, token: Token<'a>) -> (r: Option<XmlEvent<'a>>)
        requires
            tok_shape(old(self).input@, tok_view(token)),
            text_owned_ok(old(self).input@, token),
            dtd_wf(&old(self).dtd),
        ensures
            final(self).input == old(self).input,
            !(old(self).strict && tok_view(token).kind == TokenKind::DocType) ==> final(self).dtd
                == old(self).dtd,
            final(self).tokenizer == old(self).tokenizer,
            final(self).strict == old(self).strict,
            dtd_wf(&final(self).dtd),
            err_model(final(self).attr_error) == attr_err_after(
                err_model(old(self).attr_error),
                old(self).input@,
                Some(tok_view(token)),
                old(self).strict,
                ents_view(old(self).dtd.entities@),
            ),
            ents_view(final(self).dtd.entities@) == ents_after(
                ents_view(old(self).dtd.entities@),
                old(self).input@,
                Some(tok_view(token)),
                old(self).strict,
            ),
            r is None <==> skipped(tok_view(token)),
            r matches Some(e) ==> event_of(old(self).input@, tok_view(token), old(self).strict, e),
    {
        match token.kind {
            TokenKind::Eof => Some(XmlEvent::EndDocument),
            TokenKind::StartTag => {
                let attrs = self.parse_tag_attributes(&token);
                match token.name {
                    Some(name) => Some(XmlEvent::StartElement(StartElement::from_cow(name, attrs))),
                    None => None,
                }
            },
            TokenKind::EndTag => match token.name {
                Some(name) => Some(XmlEvent::EndElement(EndElement::from_cow(name))),
                None => None,
            },
            TokenKind::EmptyTag => {
                let attrs = self.parse_tag_attributes(&token);
                match token.name {
                    Some(name) => Some(XmlEvent::EmptyElement(StartElement::from_cow(name, attrs))),
                    None => None,
                }
            },
            TokenKind::Text => {
                // Preserve all text including whitespace-only for XML compliance
                match token.content {
                    Some(content) => if cow_bytes(&content).len() != 0 {
                        Some(XmlEvent::Text(content))
                    } else {
                        None
                    },
                    None => None,
                }
            },
            TokenKind::CData => match token.content {
                Some(content) => Some(XmlEvent::CData(content)),
                None => None,
            },
            TokenKind::Comment => match token.content {
                Some(content) => Some(XmlEvent::Comment(content)),
                None => None,
            },
            TokenKind::ProcessingInstruction => match token.name {
                Some(name) => Some(XmlEvent::ProcessingInstruction { target: name, data: token.content }),
                None => None,
            },
            TokenKind::XmlDeclaration => {
                let attrs = self.parse_tag_attributes(&token);
                Some(declaration_event(&attrs))
            },
            TokenKind::DocType => {
                let (start, end) = token.span;
                let input: &'a [u8] = self.input;
                let content: &'a [u8] = &input[start..end];
                if self.strict {
                    let _ = parse_dtd_declarations(content, &mut self.dtd);
                }
                Some(XmlEvent::DocType(Cow::Borrowed(content)))
            },
        }
    }

    /// All events from here to the end of the document, which is not itself listed; the
    /// events stop early where no token could be read
    pub fn collect_events(self) -> (r: Vec<XmlEvent<'a>>)
        requires
            self.wf(),
        ensures
            events_of(
                self.spec_input(),
                read_all(
                    self.spec_input(),
                    self.spec_pos(),
                    self.spec_state(),
                    self.spec_strict(),
                    self.spec_token_error(),
                ),
                self.spec_strict(),
                r@,
            ),
    {
        let ghost s = self.spec_input();
        let ghost strict = self.spec_strict();
        let ghost all = read_all(s, self.spec_pos(), self.spec_state(), strict, self.spec_token_error());
        let ghost mut done: Seq<TokView> = seq![];
        let mut reader = self;
        let mut events: Vec<XmlEvent<'a>> = Vec::new();
        loop
            invariant
                reader.wf(),
                reader.spec_input() == s,
                reader.spec_strict() == strict,
                all == done + read_all(
                    s,
                    reader.spec_pos(),
                    reader.spec_state(),
                    strict,
                    reader.spec_token_error(),
                ),
                events_of(s, done, strict, events@),
                s == self.spec_input(),
                strict == self.spec_strict(),
                all == read_all(s, self.spec_pos(), self.spec_state(), strict, self.spec_token_error()),
            decreases s.len() - reader.spec_pos(),
        {
            let ghost rs = reader.next_read();
            proof {
                reader.tokenizer.lemma_pos_in_input();
                lemma_read_all_step(s, reader.spec_pos(), reader.spec_state(), strict, reader.spec_token_error());
            }
            match reader.next_event() {
                None => {
                    assert(done =~= all);
                    return events;
                },
                Some(e) => {
                    if matches!(e, XmlEvent::EndDocument) {
                        assert(done =~= all);
                        return events;
                    }
                    let ghost t = rs.token->0;
                    proof {
                        assert(all == (done + seq![t]) + read_all(s, rs.pos, rs.state, strict, rs.err));
                        done = done + seq![t];
                    }
                    events.push(e);
                },
            }
        }
    }

    /// Get parse error (strict mode only): an attribute error first, else the
    /// tokenizer's
    pub fn error(&self) -> (r: Option<&ParseError>)
        ensures
            r is Some <==> (self.spec_attr_error() is Some || self.spec_token_error() is Some),
            r matches Some(e) ==> err_model(Some(*e)) == (if self.spec_attr_error() is Some {
                self.spec_attr_error()
            } else {
                self.spec_token_error()
            }),
    {
        match &self.attr_error {
            Some(e) => Some(e),
            None => self.tokenizer.error(),
        }
    }
}

/// Parse XML from a byte slice and return all events (without the end of the document)
pub fn parse_events(input: &[u8]) -> (r: Vec<XmlEvent<'_>>)
    ensures
        events_of(input@, read_all(input@, 0, ParseState::Init, false, None), false, r@),
{
    SliceReader::new(input).collect_events()
}

} // verus!
