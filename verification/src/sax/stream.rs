//! Streaming SAX encoding: chunks are fed, the complete elements among them are
//! tokenized, and their events are written as one compact binary.
//!
//! Binary format:
//!   start_element: <<1, name_len::16, name, attr_count::16, [nlen::16, name, vlen::16, value]*>>
//!   end_element:   <<2, name_len::16, name>>
//!   characters:    <<3, text_len::32, text>>
//!   cdata:         <<4, text_len::32, text>>

use vstd::prelude::*;

use crate::strategy::streaming::{find_safe_boundary, safe_boundary};
use crate::xml_core::attributes::{attrs_from, attrs_model, cow_bytes, parse_attributes, Attribute};
use crate::xml_core::entities::{decode_text, decoded};
use crate::xml_core::tokenizer::model::{
    lemma_next_tok_shape, next_tok, ParseState, TokView, TokenKind,
};
use crate::xml_core::tokenizer::{tok_view, Token, Tokenizer};

verus! {

// =============================================================================
// Model
// =============================================================================
/// The tokens a lenient tokenizer gives from `pos`, up to the end or a step without
/// a token.
#[verifier::opaque]
pub open spec fn tok_run(s: Seq<u8>, pos: int, st: ParseState) -> Seq<TokView>
    decreases (s.len() - pos) * 2 + (if st == ParseState::Done {
        0int
    } else {
        1int
    }),
{
    if pos < 0 || pos > s.len() {
        seq![]
    } else {
        proof {
            lemma_next_tok_shape(s, pos, st, false);
        }
        let step = next_tok(s, pos, st, false);
        match step.token {
            None => seq![],
            Some(t) => if t.kind == TokenKind::Eof {
                seq![]
            } else {
                seq![t] + tok_run(s, step.pos, step.state)
            },
        }
    }
}

/// A 16-bit and a 32-bit number, big-endian.
pub open spec fn be16(x: u16) -> Seq<u8> {
    seq![(x / 256) as u8, (x % 256) as u8]
}

pub open spec fn be32(x: u32) -> Seq<u8> {
    seq![(x / 0x1000000) as u8, ((x / 0x10000) % 256) as u8, ((x / 256) % 256) as u8, (x % 256) as u8]
}

/// A name or short string: its length in 16 bits, then its bytes.
pub open spec fn enc_bytes(d: Seq<u8>) -> Seq<u8> {
    be16(d.len() as u16) + d
}

/// Text content: its length in 32 bits, then its bytes.
pub open spec fn enc_content(d: Seq<u8>) -> Seq<u8> {
    be32(d.len() as u32) + d
}

/// A byte that ends a tag name here: whitespace, `>` or `/`.
pub open spec fn sax_name_stop(b: u8) -> bool {
    b == 0x20 || b == 0x09 || b == 0x0A || b == 0x0D || b == 0x3E || b == 0x2F
}

pub open spec fn sax_name_end(tag: Seq<u8>, p: int) -> int
    decreases tag.len() - p,
{
    if p < 0 || p >= tag.len() || sax_name_stop(tag[p]) {
        p
    } else {
        sax_name_end(tag, p + 1)
    }
}

/// Where the attributes of a tag start and end.
pub open spec fn sax_attrs_range(tag: Seq<u8>) -> (int, int) {
    let n = tag.len() as int;
    let p = sax_name_end(
        tag,
        if n > 1 && (tag[1] == 0x2F || tag[1] == 0x3F) {
            2
        } else {
            1
        },
    );
    let e = if n >= 2 && (tag[n - 2] == 0x2F || tag[n - 2] == 0x3F) && tag[n - 1] == 0x3E {
        n - 2
    } else if n >= 1 && tag[n - 1] == 0x3E {
        n - 1
    } else {
        n
    };
    (p, e)
}

/// The encoding of a list of (name, value) pairs.
pub open spec fn enc_pairs(attrs: Seq<(Seq<u8>, Seq<u8>)>) -> Seq<u8>
    decreases attrs.len(),
{
    if attrs.len() == 0 {
        seq![]
    } else {
        enc_pairs(attrs.drop_last()) + enc_bytes(attrs.last().0) + enc_bytes(attrs.last().1)
    }
}

/// The encoded attributes of the tag that token `t` spans.
pub open spec fn enc_attrs(s: Seq<u8>, t: TokView) -> Seq<u8> {
    if t.end <= t.start || t.end > s.len() {
        be16(0)
    } else {
        let tag = s.subrange(t.start, t.end);
        let (p, e) = sax_attrs_range(tag);
        if p >= e {
            be16(0)
        } else {
            let attrs = attrs_from(tag.subrange(p, e), 0, false).0;
            be16(attrs.len() as u16) + enc_pairs(attrs)
        }
    }
}

/// The encoding of one token's events and the depth after it.
pub open spec fn sax_step(s: Seq<u8>, t: TokView, depth: int, cdata_as_chars: bool) -> (Seq<u8>, int) {
    match t.kind {
        TokenKind::StartTag => (
            match t.name {
                Some(n) => seq![1u8] + enc_bytes(n) + enc_attrs(s, t),
                None => seq![],
            },
            depth + 1,
        ),
        TokenKind::EndTag => (
            match t.name {
                Some(n) => seq![2u8] + enc_bytes(n),
                None => seq![],
            },
            if depth > 0 {
                depth - 1
            } else {
                0
            },
        ),
        TokenKind::EmptyTag => (
            match t.name {
                Some(n) => seq![1u8] + enc_bytes(n) + enc_attrs(s, t) + seq![2u8] + enc_bytes(n),
                None => seq![],
            },
            depth,
        ),
        TokenKind::Text => (
            match t.content {
                Some(c) => if depth > 0 && c.len() > 0 {
                    seq![3u8] + enc_content(decoded(c))
                } else {
                    seq![]
                },
                None => seq![],
            },
            depth,
        ),
        TokenKind::CData => (
            match t.content {
                Some(c) => if depth > 0 {
                    seq![if cdata_as_chars { 3u8 } else { 4u8 }] + enc_content(c)
                } else {
                    seq![]
                },
                None => seq![],
            },
            depth,
        ),
        _ => (seq![], depth),
    }
}

/// The encoding of a list of tokens from depth `depth`, and the depth after them.
pub open spec fn sax_encode(s: Seq<u8>, toks: Seq<TokView>, depth: int, cdata_as_chars: bool) -> (
    Seq<u8>,
    int,
)
    decreases toks.len(),
{
    if toks.len() == 0 {
        (seq![], depth)
    } else {
        let prev = sax_encode(s, toks.drop_last(), depth, cdata_as_chars);
        let step = sax_step(s, toks.last(), prev.1, cdata_as_chars);
        (prev.0 + step.0, step.1)
    }
}

// =============================================================================
// Encoding
// =============================================================================
fn push_be16(buf: &mut Vec<u8>, x: u16)
    ensures
        final(buf)@ == old(buf)@ + be16(x),
{
    buf.push((x / 256) as u8);
    buf.push((x % 256) as u8);
    assert(final(buf)@ =~= old(buf)@ + be16(x));
}

fn push_be32(buf: &mut Vec<u8>, x: u32)
    ensures
        final(buf)@ == old(buf)@ + be32(x),
{
    buf.push((x / 0x1000000) as u8);
    buf.push(((x / 0x10000) % 256) as u8);
    buf.push(((x / 256) % 256) as u8);
    buf.push((x % 256) as u8);
    assert(final(buf)@ =~= old(buf)@ + be32(x));
}

fn push_all(buf: &mut Vec<u8>, data: &[u8])
    ensures
        final(buf)@ == old(buf)@ + data@,
{
    let mut i: usize = 0;
    while i < data.len()
        invariant
            i <= data@.len(),
            buf@ == old(buf)@ + data@.take(i as int),
        decreases data.len() - i,
    {
        buf.push(data[i]);
        i += 1;
        assert(buf@ =~= old(buf)@ + data@.take(i as int));
    }
    assert(data@.take(data@.len() as int) =~= data@);
}

/// Encode a name/short string: <<len::16, bytes>>
fn encode_bytes(buf: &mut Vec<u8>, data: &[u8])
    ensures
        final(buf)@ == old(buf)@ + enc_bytes(data@),
{
    let n: u16 = #[verifier::truncate] (data.len() as u16);
    push_be16(buf, n);
    push_all(buf, data);
    assert(final(buf)@ =~= old(buf)@ + enc_bytes(data@));
}

/// Encode text content: <<len::32, bytes>>
fn encode_content(buf: &mut Vec<u8>, data: &[u8])
    ensures
        final(buf)@ == old(buf)@ + enc_content(data@),
{
    let n: u32 = #[verifier::truncate] (data.len() as u32);
    push_be32(buf, n);
    push_all(buf, data);
    assert(final(buf)@ =~= old(buf)@ + enc_content(data@));
}

fn is_sax_name_stop(b: u8) -> (r: bool)
    ensures
        r == sax_name_stop(b),
{
    b == 0x20 || b == 0x09 || b == 0x0A || b == 0x0D || b == 0x3E || b == 0x2F
}

/// Encode the attributes of the tag at `span` of `input`.
fn encode_attrs(buf: &mut Vec<u8>, input: &[u8], span: (usize, usize))
    ensures
        final(buf)@ == old(buf)@ + enc_attrs(
            input@,
            TokView {
                kind: TokenKind::StartTag,
                start: span.0 as int,
                end: span.1 as int,
                name: None,
                content: None,
            },
        ),
{
    let (start, end) = span;
    if end <= start || end > input.len() {
        push_be16(buf, 0);
        return;
    }
    let tag = &input[start..end];
    let n = tag.len();
    let mut pos: usize = if n > 1 && (tag[1] == 0x2F || tag[1] == 0x3F) {
        2
    } else {
        1
    };
    let ghost p0 = pos as int;
    while pos < n && !is_sax_name_stop(tag[pos])
        invariant
            n == tag@.len(),
            p0 <= pos,
            pos <= n || pos == p0,
            sax_name_end(tag@, pos as int) == sax_name_end(tag@, p0),
        decreases n - pos,
    {
        pos += 1;
    }
    let mut attr_end = n;
    if n >= 2 && (tag[n - 2] == 0x2F || tag[n - 2] == 0x3F) && tag[n - 1] == 0x3E {
        attr_end = n - 2;
    } else if n >= 1 && tag[n - 1] == 0x3E {
        attr_end = n - 1;
    }
    assert((pos as int, attr_end as int) == sax_attrs_range(tag@));
    if pos >= attr_end {
        push_be16(buf, 0);
        return;
    }
    let content = &tag[pos..attr_end];
    assert(content@ =~= tag@.subrange(pos as int, attr_end as int));
    let attrs = parse_attributes(content);
    let ghost model = attrs_model(attrs@);
    let count: u16 = #[verifier::truncate] (attrs.len() as u16);
    push_be16(buf, count);
    let ghost before = buf@;
    let mut i: usize = 0;
    while i < attrs.len()
        invariant
            i <= attrs@.len(),
            model == attrs_model(attrs@),
            buf@ == before + enc_pairs(model.take(i as int)),
        decreases attrs.len() - i,
    {
        encode_bytes(buf, cow_bytes(&attrs[i].name));
        encode_bytes(buf, cow_bytes(&attrs[i].value));
        assert(model.take(i + 1).drop_last() =~= model.take(i as int));
        i += 1;
    }
    assert(model.take(attrs@.len() as int) =~= model);
}

/// Encode the events of one token (not the end of input) at depth `d`; the depth after
/// it.
fn encode_token(buf: &mut Vec<u8>, input: &[u8], token: Token<'_>, d: u32, cdata_as_chars: bool) -> (r:
    u32)
    requires
        d < u32::MAX,
        token.kind != TokenKind::Eof,
    ensures
        ({
            let step = sax_step(input@, tok_view(token), d as int, cdata_as_chars);
            &&& final(buf)@ == old(buf)@ + step.0
            &&& r as int == step.1
        }),
{
    let mut depth = d;
    match token.kind {
        TokenKind::StartTag => {
            depth = depth + 1;
            if let Some(name) = token.name {
                buf.push(1);
                encode_bytes(buf, cow_bytes(&name));
                encode_attrs(buf, input, token.span);
            }
        },
        TokenKind::EndTag => {
            if let Some(name) = token.name {
                buf.push(2);
                encode_bytes(buf, cow_bytes(&name));
            }
            depth = depth.saturating_sub(1);
        },
        TokenKind::EmptyTag => {
            if let Some(name) = token.name {
                buf.push(1);
                encode_bytes(buf, cow_bytes(&name));
                encode_attrs(buf, input, token.span);
                buf.push(2);
                encode_bytes(buf, cow_bytes(&name));
            }
        },
        TokenKind::Text => {
            if depth > 0 {
                if let Some(content) = token.content {
                    if cow_bytes(&content).len() != 0 {
                        let text = decode_text(cow_bytes(&content));
                        buf.push(3);
                        encode_content(buf, cow_bytes(&text));
                    }
                }
            }
        },
        TokenKind::CData => {
            if depth > 0 {
                if let Some(content) = token.content {
                    if cdata_as_chars {
                        buf.push(3);
                    } else {
                        buf.push(4);
                    }
                    encode_content(buf, cow_bytes(&content));
                }
            }
        },
        _ => {},
    }
    proof {
        let step = sax_step(input@, tok_view(token), d as int, cdata_as_chars);
        assert(final(buf)@ =~= old(buf)@ + step.0);
    }
    depth
}

/// One step of the run: nothing at the end or without a token, else the token and the
/// run after it.
pub proof fn lemma_tok_run_step(s: Seq<u8>, pos: int, st: ParseState)
    requires
        0 <= pos <= s.len(),
    ensures
        ({
            let step = next_tok(s, pos, st, false);
            &&& step.pos <= s.len()
            &&& match step.token {
                None => tok_run(s, pos, st) == Seq::<TokView>::empty(),
                Some(t) => if t.kind == TokenKind::Eof {
                    tok_run(s, pos, st) == Seq::<TokView>::empty()
                } else {
                    pos < step.pos && tok_run(s, pos, st) == seq![t] + tok_run(
                        s,
                        step.pos,
                        step.state,
                    )
                },
            }
        }),
{
    reveal(tok_run);
    lemma_next_tok_shape(s, pos, st, false);
}

/// Encoding one more token appends its step.
proof fn lemma_encode_push(s: Seq<u8>, done: Seq<TokView>, t: TokView, depth: int, cdata_as_chars: bool)
    ensures
        ({
            let prev = sax_encode(s, done, depth, cdata_as_chars);
            let step = sax_step(s, t, prev.1, cdata_as_chars);
            sax_encode(s, done + seq![t], depth, cdata_as_chars) == (prev.0 + step.0, step.1)
        }),
{
    assert((done + seq![t]).drop_last() =~= done);
    assert((done + seq![t]).last() == t);
}

/// Tokenize `input` and encode its events from depth `depth`: the bytes and the depth
/// after them
#[verifier::spinoff_prover]
#[verifier::rlimit(60)]
pub fn encode_sax_events(input: &[u8], depth: u32, cdata_as_chars: bool) -> (r: (Vec<u8>, u32))
    requires
        depth + input@.len() <= u32::MAX,
    ensures
        ({
            let e = sax_encode(input@, tok_run(input@, 0, ParseState::Init), depth as int, cdata_as_chars);
            r.0@ == e.0 && r.1 as int == e.1
        }),
{
    let ghost s = input@;
    let ghost all = tok_run(s, 0, ParseState::Init);
    let ghost mut done: Seq<TokView> = seq![];
    let mut buf: Vec<u8> = Vec::new();
    let mut d = depth;
    let mut tokenizer = Tokenizer::new(input);
    loop
        invariant
            tokenizer.wf(),
            tokenizer.spec_input() == s,
            !tokenizer.spec_strict(),
            s == input@,
            depth + s.len() <= u32::MAX,
            all == tok_run(s, 0, ParseState::Init),
            all == done + tok_run(s, tokenizer.spec_pos(), tokenizer.spec_state()),
            (buf@, d as int) == sax_encode(s, done, depth as int, cdata_as_chars),
            d <= depth + tokenizer.spec_pos(),
        decreases (s.len() - tokenizer.spec_pos()) * 2 + (if tokenizer.spec_state()
            == ParseState::Done {
            0int
        } else {
            1int
        }),
    {
        let ghost p0 = tokenizer.spec_pos();
        let ghost st0 = tokenizer.spec_state();
        proof {
            tokenizer.lemma_pos_in_input();
            lemma_tok_run_step(s, p0, st0);
        }
        let token = match tokenizer.next_token() {
            Some(t) => t,
            None => {
                assert(done =~= all);
                return (buf, d);
            },
        };
        let ghost t = tok_view(token);
        let ghost prev = (buf@, d as int);
        if token.kind == TokenKind::Eof {
            assert(done =~= all);
            return (buf, d);
        }
        d = encode_token(&mut buf, input, token, d, cdata_as_chars);
        proof {
            lemma_encode_push(s, done, t, depth as int, cdata_as_chars);
            assert(all == (done + seq![t]) + tok_run(s, tokenizer.spec_pos(), tokenizer.spec_state()));
            done = done + seq![t];
        }
    }
}

/// The encoding after one more token is the encoding before it followed by that
/// token's events, from the depth the earlier tokens leave.
proof fn lemma_encode_snoc(s: Seq<u8>, toks: Seq<TokView>, t: TokView, depth: int, cdata_as_chars: bool)
    ensures
        ({
            let prev = sax_encode(s, toks, depth, cdata_as_chars);
            sax_encode(s, toks.push(t), depth, cdata_as_chars) == (
                prev.0 + sax_step(s, t, prev.1, cdata_as_chars).0,
                sax_step(s, t, prev.1, cdata_as_chars).1,
            )
        }),
{
    assert(toks.push(t).drop_last() =~= toks);
}

/// Text and CDATA in the stream encoding: text inside an element becomes a characters
/// event (tag 3) holding the text with its entity and character references decoded, as
/// a 32-bit big-endian length and the bytes; text at document level, or empty, nothing;
/// a CDATA section inside an element a characters (3, when CDATA is reported as
/// characters) or CDATA (4) event holding the section as it stands. The depth stays.
pub proof fn law_sax_text_encoding(s: Seq<u8>, toks: Seq<TokView>, t: TokView, depth: int, cdata_as_chars: bool)
    ensures
        ({
            let prev = sax_encode(s, toks, depth, cdata_as_chars);
            let next = sax_encode(s, toks.push(t), depth, cdata_as_chars);
            &&& t.kind == TokenKind::Text && t.content is Some && prev.1 > 0 && t.content->0.len() > 0
                ==> next.0 == prev.0 + seq![3u8] + be32(decoded(t.content->0).len() as u32) + decoded(
                t.content->0,
            ) && next.1 == prev.1
            &&& t.kind == TokenKind::Text && (prev.1 <= 0 || (t.content matches Some(c) && c.len()
                == 0)) ==> next.0 == prev.0 && next.1 == prev.1
            &&& t.kind == TokenKind::CData && t.content is Some && prev.1 > 0 ==> next.0 == prev.0
                + seq![if cdata_as_chars { 3u8 } else { 4u8 }] + be32(t.content->0.len() as u32)
                + t.content->0 && next.1 == prev.1
        }),
{
    lemma_encode_snoc(s, toks, t, depth, cdata_as_chars);
    let prev = sax_encode(s, toks, depth, cdata_as_chars);
    let next = sax_encode(s, toks.push(t), depth, cdata_as_chars);
    if t.kind == TokenKind::Text && t.content is Some && prev.1 > 0 && t.content->0.len() > 0 {
        assert(next.0 =~= prev.0 + seq![3u8] + be32(decoded(t.content->0).len() as u32) + decoded(
            t.content->0,
        ));
    }
    if t.kind == TokenKind::CData && t.content is Some && prev.1 > 0 {
        assert(next.0 =~= prev.0 + seq![if cdata_as_chars { 3u8 } else { 4u8 }] + be32(
            t.content->0.len() as u32,
        ) + t.content->0);
    }
    if t.kind == TokenKind::Text && (prev.1 <= 0 || (t.content matches Some(c) && c.len() == 0)) {
        assert(next.0 =~= prev.0);
    }
}

/// Tags in the stream encoding: a start tag becomes a start event (tag 1) with its name,
/// one level deeper; an end tag an end event (tag 2) with its name, one level up (not
/// below the document level); an empty tag a start event and then an end event for its
/// name, at the same depth.
pub proof fn law_sax_tag_encoding(s: Seq<u8>, toks: Seq<TokView>, t: TokView, depth: int, cdata_as_chars: bool)
    ensures
        ({
            let prev = sax_encode(s, toks, depth, cdata_as_chars);
            let next = sax_encode(s, toks.push(t), depth, cdata_as_chars);
            &&& t.kind == TokenKind::StartTag && t.name is Some ==> next.0.subrange(
                0,
                (prev.0.len() + 3 + t.name->0.len()) as int,
            ) == prev.0 + seq![1u8] + be16(t.name->0.len() as u16) + t.name->0 && next.1 == prev.1 + 1
            &&& t.kind == TokenKind::EndTag && t.name is Some ==> next.0 == prev.0 + seq![2u8] + be16(
                t.name->0.len() as u16,
            ) + t.name->0 && next.1 == (if prev.1 > 0 {
                prev.1 - 1
            } else {
                0
            })
            &&& t.kind == TokenKind::EmptyTag && t.name is Some ==> next.0.subrange(
                0,
                (prev.0.len() + 3 + t.name->0.len()) as int,
            ) == prev.0 + seq![1u8] + be16(t.name->0.len() as u16) + t.name->0 && next.0.subrange(
                next.0.len() - 3 - t.name->0.len(),
                next.0.len() as int,
            ) == seq![2u8] + be16(t.name->0.len() as u16) + t.name->0 && next.1 == prev.1
        }),
{
    lemma_encode_snoc(s, toks, t, depth, cdata_as_chars);
    let prev = sax_encode(s, toks, depth, cdata_as_chars);
    let next = sax_encode(s, toks.push(t), depth, cdata_as_chars);
    if t.kind == TokenKind::StartTag && t.name is Some {
        let n = t.name->0;
        assert(next.0 =~= (prev.0 + seq![1u8] + be16(n.len() as u16) + n) + enc_attrs(s, t));
        assert(next.0.subrange(0, (prev.0.len() + 3 + n.len()) as int) =~= prev.0 + seq![1u8] + be16(
            n.len() as u16,
        ) + n);
    }
    if t.kind == TokenKind::EndTag && t.name is Some {
        let n = t.name->0;
        assert(next.0 =~= prev.0 + seq![2u8] + be16(n.len() as u16) + n);
    }
    if t.kind == TokenKind::EmptyTag && t.name is Some {
        let n = t.name->0;
        let tail = seq![2u8] + be16(n.len() as u16) + n;
        assert(next.0 =~= (prev.0 + seq![1u8] + be16(n.len() as u16) + n) + (enc_attrs(s, t) + tail));
        assert(next.0.subrange(0, (prev.0.len() + 3 + n.len()) as int) =~= prev.0 + seq![1u8] + be16(
            n.len() as u16,
        ) + n);
        assert(next.0.subrange(next.0.len() - 3 - n.len(), next.0.len() as int) =~= tail);
    }
}

/// Comments, processing instructions, declarations and DOCTYPEs add nothing to the
/// stream encoding and leave the depth as it was.
pub proof fn law_sax_silent_tokens(s: Seq<u8>, toks: Seq<TokView>, t: TokView, depth: int, cdata_as_chars: bool)
    requires
        t.kind == TokenKind::Comment || t.kind == TokenKind::ProcessingInstruction || t.kind
            == TokenKind::XmlDeclaration || t.kind == TokenKind::DocType,
    ensures
        sax_encode(s, toks.push(t), depth, cdata_as_chars) == sax_encode(s, toks, depth, cdata_as_chars),
{
    lemma_encode_snoc(s, toks, t, depth, cdata_as_chars);
    let prev = sax_encode(s, toks, depth, cdata_as_chars);
    assert(prev.0 + Seq::<u8>::empty() =~= prev.0);
}

} // verus!
