//! Serializing a node and everything below it as XML text, with an explicit stack of
//! pending steps so that deep documents do not deepen the call stack

use vstd::prelude::*;

use super::node::{NodeId, NodeKind};
use super::document::pairs_text;
use super::DocumentAccess;
use crate::xpath::lexer::string_of;

verus! {

/// The text of an optional string, empty where there is none.
pub open spec fn opt_text(o: Option<Seq<char>>) -> Seq<char> {
    match o {
        Some(t) => t,
        None => seq![],
    }
}

/// How the serializer writes one character of text or of an attribute value: `&`,
/// `<`, `>` and `"` become entity references.
pub open spec fn out_escape_char(c: char) -> Seq<char> {
    if c == '&' {
        seq!['&', 'a', 'm', 'p', ';']
    } else if c == '<' {
        seq!['&', 'l', 't', ';']
    } else if c == '>' {
        seq!['&', 'g', 't', ';']
    } else if c == '"' {
        seq!['&', 'q', 'u', 'o', 't', ';']
    } else {
        seq![c]
    }
}

/// Text with each of its characters written by `out_escape_char`.
pub open spec fn out_escaped(s: Seq<char>) -> Seq<char>
    decreases s.len(),
{
    if s.len() == 0 {
        seq![]
    } else {
        out_escaped(s.drop_last()) + out_escape_char(s.last())
    }
}

/// The attributes of a start tag: ` name="value"` for each, the value escaped.
pub open spec fn attrs_text(pairs: Seq<(Seq<char>, Seq<char>)>) -> Seq<char>
    decreases pairs.len(),
{
    if pairs.len() == 0 {
        seq![]
    } else {
        let p = pairs.last();
        attrs_text(pairs.drop_last()) + " "@ + p.0 + "=\""@ + out_escaped(p.1) + "\""@
    }
}

/// The end tag of an element, where it has a name.
pub open spec fn close_tag<D: DocumentAccess>(doc: &D, id: NodeId) -> Seq<char> {
    match doc.spec_name(id) {
        Some(n) => "</"@ + n + ">"@,
        None => seq![],
    }
}

/// The start of an element's tag: `<`, its name and its attributes.
pub open spec fn open_tag<D: DocumentAccess>(doc: &D, id: NodeId) -> Seq<char> {
    "<"@ + opt_text(doc.spec_name(id)) + attrs_text(doc.spec_attrs(id))
}

/// The XML text of node `id`, going at most `fuel` levels down: an element as its
/// tag with its attributes, closed at once (`/>`) where it has no children, else
/// followed by its children and its end tag; text escaped; a CDATA section, comment
/// or processing instruction in its delimiters; the document node as its root
/// element.
pub open spec fn ser<D: DocumentAccess>(doc: &D, id: NodeId, fuel: nat) -> Seq<char>
    decreases fuel, 0nat,
{
    if fuel == 0 {
        seq![]
    } else {
        match doc.spec_kind(id) {
            NodeKind::Element => {
                let kids = doc.spec_children(id);
                if kids.len() == 0 {
                    open_tag(doc, id) + "/>"@
                } else {
                    open_tag(doc, id) + ">"@ + ser_list(doc, kids, (fuel - 1) as nat) + close_tag(
                        doc,
                        id,
                    )
                }
            },
            NodeKind::Text => out_escaped(opt_text(doc.spec_text(id))),
            NodeKind::CData => "<![CDATA["@ + opt_text(doc.spec_text(id)) + "]]>"@,
            NodeKind::Comment => "<!--"@ + opt_text(doc.spec_text(id)) + "-->"@,
            NodeKind::ProcessingInstruction => "<?"@ + opt_text(doc.spec_name(id)) + "?>"@,
            NodeKind::Document => match doc.spec_root_element() {
                Some(r) => ser(doc, r, (fuel - 1) as nat),
                None => seq![],
            },
        }
    }
}

/// The XML text of the nodes `ids`, one after another.
pub open spec fn ser_list<D: DocumentAccess>(doc: &D, ids: Seq<NodeId>, fuel: nat) -> Seq<char>
    decreases fuel, ids.len(),
{
    if ids.len() == 0 {
        seq![]
    } else {
        ser(doc, ids[0], fuel) + ser_list(doc, ids.drop_first(), fuel)
    }
}

/// The XML text of a node and everything below it, going as many levels down as the
/// document has nodes (as deep as any tree of them goes).
pub open spec fn spec_serialize<D: DocumentAccess>(doc: &D, id: NodeId) -> Seq<char> {
    ser(doc, id, doc.spec_count())
}

/// The steps of serializing `id`: one for each node written, and one more for each
/// end tag.
pub open spec fn work<D: DocumentAccess>(doc: &D, id: NodeId, fuel: nat) -> nat
    decreases fuel, 0nat,
{
    if fuel == 0 {
        1
    } else {
        match doc.spec_kind(id) {
            NodeKind::Element => {
                let kids = doc.spec_children(id);
                if kids.len() == 0 {
                    1
                } else {
                    2 + work_list(doc, kids, (fuel - 1) as nat)
                }
            },
            NodeKind::Document => match doc.spec_root_element() {
                Some(r) => 1 + work(doc, r, (fuel - 1) as nat),
                None => 1,
            },
            _ => 1,
        }
    }
}

/// The steps of serializing the nodes `ids`.
pub open spec fn work_list<D: DocumentAccess>(doc: &D, ids: Seq<NodeId>, fuel: nat) -> nat
    decreases fuel, ids.len(),
{
    if ids.len() == 0 {
        0
    } else {
        work(doc, ids[0], fuel) + work_list(doc, ids.drop_first(), fuel)
    }
}

/// How each kind of node is written, in a document with at least one node: a comment
/// as `<!--`, its text as the document gives it (none where it gives none), and `-->`;
/// text escaped; a CDATA section as `<![CDATA[`, its text as it stands, `]]>`; a
/// processing instruction as `<?`, its name, `?>`; an element without children as `<`,
/// its name, its attributes and `/>`; an element with children as `<`, its name, its
/// attributes and `>` first and its end tag `</name>` last; the document node as its root
/// element (one level fewer to go), or nothing without one.
pub proof fn law_serialize_node_kinds<D: DocumentAccess>(doc: &D, id: NodeId)
    requires
        doc.spec_count() > 0,
    ensures
        ({
            let r = spec_serialize(doc, id);
            let name = match doc.spec_name(id) {
                Some(n) => n,
                None => seq![],
            };
            let text = match doc.spec_text(id) {
                Some(t) => t,
                None => seq![],
            };
            let head = "<"@ + name + attrs_text(doc.spec_attrs(id));
            &&& doc.spec_kind(id) == NodeKind::Comment ==> r == "<!--"@ + text + "-->"@
            &&& doc.spec_kind(id) == NodeKind::Text ==> r == out_escaped(text)
            &&& doc.spec_kind(id) == NodeKind::CData ==> r == "<![CDATA["@ + text + "]]>"@
            &&& doc.spec_kind(id) == NodeKind::ProcessingInstruction ==> r == "<?"@ + name + "?>"@
            &&& doc.spec_kind(id) == NodeKind::Element && doc.spec_children(id).len() == 0 ==> r
                == head + "/>"@
            &&& doc.spec_kind(id) == NodeKind::Element && doc.spec_children(id).len() > 0 ==> {
                &&& r.subrange(0, (head.len() + (">"@).len()) as int) == head + ">"@
                &&& doc.spec_name(id) is Some ==> r.subrange(
                    r.len() - ("</"@ + name + ">"@).len(),
                    r.len() as int,
                ) == "</"@ + name + ">"@
            }
            &&& doc.spec_kind(id) == NodeKind::Document ==> r == match doc.spec_root_element() {
                Some(root) => ser(doc, root, (doc.spec_count() - 1) as nat),
                None => seq![],
            }
        }),
{
    let r = spec_serialize(doc, id);
    let name = match doc.spec_name(id) {
        Some(n) => n,
        None => seq![],
    };
    let head = "<"@ + name + attrs_text(doc.spec_attrs(id));
    if doc.spec_kind(id) == NodeKind::Element && doc.spec_children(id).len() > 0 {
        let f = (doc.spec_count() - 1) as nat;
        let body = ser_list(doc, doc.spec_children(id), f);
        let close = close_tag(doc, id);
        assert(r == (head + ">"@) + body + close);
        assert(r.subrange(0, (head.len() + (">"@).len()) as int) =~= head + ">"@);
        if doc.spec_name(id) is Some {
            assert(close == "</"@ + name + ">"@);
            assert(r.subrange(r.len() - close.len(), r.len() as int) =~= close);
        }
    }
}

/// The serializer's escaping leaves no `<`, `>` or `"` in the text it writes, and text
/// that holds none of `&`, `<`, `>` and `"` is written as it is.
pub proof fn law_out_escaped(s: Seq<char>)
    ensures
        forall|j: int|
            0 <= j < out_escaped(s).len() ==> out_escaped(s)[j] != '<' && out_escaped(s)[j] != '>'
                && out_escaped(s)[j] != '"',
        (forall|j: int| 0 <= j < s.len() ==> s[j] != '&' && s[j] != '<' && s[j] != '>' && s[j] != '"')
            ==> out_escaped(s) == s,
    decreases s.len(),
{
    if s.len() > 0 {
        law_out_escaped(s.drop_last());
        let p = out_escaped(s.drop_last());
        let e = out_escape_char(s.last());
        assert(out_escaped(s) == p + e);
        assert forall|j: int| 0 <= j < (p + e).len() implies (p + e)[j] != '<' && (p + e)[j] != '>' && (p
            + e)[j] != '"' by {
            if j >= p.len() {
                assert((p + e)[j] == e[j - p.len()]);
            }
        }
        if forall|j: int| 0 <= j < s.len() ==> s[j] != '&' && s[j] != '<' && s[j] != '>' && s[j] != '"' {
            assert(s.drop_last() == out_escaped(s.drop_last()));
            assert(s =~= s.drop_last() + seq![s.last()]);
        }
    }
}

/// A pending step: write a node with what lies below it (at most `fuel` levels), or
/// write an element's end tag.
pub enum SerStep {
    Enter(NodeId, usize),
    Close(NodeId),
}

/// What a pending step writes.
pub open spec fn step_out<D: DocumentAccess>(doc: &D, s: SerStep) -> Seq<char> {
    match s {
        SerStep::Enter(id, f) => ser(doc, id, f as nat),
        SerStep::Close(id) => close_tag(doc, id),
    }
}

/// How many steps a pending step takes.
pub open spec fn step_work<D: DocumentAccess>(doc: &D, s: SerStep) -> nat {
    match s {
        SerStep::Enter(id, f) => work(doc, id, f as nat),
        SerStep::Close(id) => 1,
    }
}

/// What a stack of pending steps writes, its top (last) step first.
pub open spec fn pending<D: DocumentAccess>(doc: &D, st: Seq<SerStep>) -> Seq<char>
    decreases st.len(),
{
    if st.len() == 0 {
        seq![]
    } else {
        step_out(doc, st.last()) + pending(doc, st.drop_last())
    }
}

/// How many steps a stack of pending steps takes.
pub open spec fn pending_work<D: DocumentAccess>(doc: &D, st: Seq<SerStep>) -> nat
    decreases st.len(),
{
    if st.len() == 0 {
        0
    } else {
        step_work(doc, st.last()) + pending_work(doc, st.drop_last())
    }
}

proof fn lemma_pending_push<D: DocumentAccess>(doc: &D, st: Seq<SerStep>, s: SerStep)
    ensures
        pending(doc, st.push(s)) == step_out(doc, s) + pending(doc, st),
        pending_work(doc, st.push(s)) == step_work(doc, s) + pending_work(doc, st),
{
    assert(st.push(s).drop_last() =~= st);
}

/// Append the characters of `s`.
fn push_str(out: &mut Vec<char>, s: &str)
    ensures
        final(out)@ == old(out)@ + s@,
{
    let n = s.unicode_len();
    let mut i: usize = 0;
    while i < n
        invariant
            n == s@.len(),
            i <= n,
            out@ == old(out)@ + s@.take(i as int),
        decreases n - i,
    {
        out.push(s.get_char(i));
        i += 1;
        assert(out@ =~= old(out)@ + s@.take(i as int));
    }
    assert(s@.take(n as int) =~= s@);
}

/// Append `s` with `&`, `<`, `>` and `"` written as entity references.
fn escape_xml_to_buf(s: &str, buf: &mut Vec<char>)
    ensures
        final(buf)@ == old(buf)@ + out_escaped(s@),
{
    let n = s.unicode_len();
    let mut i: usize = 0;
    while i < n
        invariant
            n == s@.len(),
            i <= n,
            buf@ == old(buf)@ + out_escaped(s@.take(i as int)),
        decreases n - i,
    {
        let c = s.get_char(i);
        let ghost before = buf@;
        if c == '&' {
            buf.push('&');
            buf.push('a');
            buf.push('m');
            buf.push('p');
            buf.push(';');
        } else if c == '<' {
            buf.push('&');
            buf.push('l');
            buf.push('t');
            buf.push(';');
        } else if c == '>' {
            buf.push('&');
            buf.push('g');
            buf.push('t');
            buf.push(';');
        } else if c == '"' {
            buf.push('&');
            buf.push('q');
            buf.push('u');
            buf.push('o');
            buf.push('t');
            buf.push(';');
        } else {
            buf.push(c);
        }
        assert(buf@ =~= before + out_escape_char(c));
        assert(s@.take(i + 1).drop_last() =~= s@.take(i as int));
        i += 1;
        assert(buf@ =~= old(buf)@ + out_escaped(s@.take(i as int)));
    }
    assert(s@.take(n as int) =~= s@);
}

/// Append the attributes of a start tag.
fn push_attrs(out: &mut Vec<char>, pairs: &Vec<(&str, &str)>)
    ensures
        final(out)@ == old(out)@ + attrs_text(pairs_text(pairs@)),
{
    let ghost ps = pairs_text(pairs@);
    let mut i: usize = 0;
    while i < pairs.len()
        invariant
            i <= pairs@.len(),
            ps == pairs_text(pairs@),
            out@ == old(out)@ + attrs_text(ps.take(i as int)),
        decreases pairs.len() - i,
    {
        let (name, value) = pairs[i];
        let ghost before = out@;
        push_str(out, " ");
        push_str(out, name);
        push_str(out, "=\"");
        escape_xml_to_buf(value, out);
        push_str(out, "\"");
        proof {
            assert(ps.take(i + 1).drop_last() =~= ps.take(i as int));
            assert(ps.take(i + 1).last() == (name@, value@));
            assert(out@ =~= before + " "@ + name@ + "=\""@ + out_escaped(value@) + "\""@);
        }
        i += 1;
        assert(out@ =~= old(out)@ + attrs_text(ps.take(i as int)));
    }
    assert(ps.take(pairs@.len() as int) =~= ps);
}

/// Write the start of element `id`, and either close it at once or push its end tag
/// and its children (first child on top).
fn open_element<D: DocumentAccess>(
    doc: &D,
    id: NodeId,
    f: usize,
    out: &mut Vec<char>,
    stack: &mut Vec<SerStep>,
)
    requires
        f > 0,
        doc.spec_kind(id) == NodeKind::Element,
    ensures
        final(out)@ + pending(doc, final(stack)@) == old(out)@ + (ser(doc, id, f as nat) + pending(
            doc,
            old(stack)@,
        )),
        pending_work(doc, final(stack)@) + 1 == work(doc, id, f as nat) + pending_work(
            doc,
            old(stack)@,
        ),
{
    let ghost out0 = out@;
    let ghost st0 = stack@;
    let name = doc.node_name(id);
    push_str(out, "<");
    match name {
        Some(n) => push_str(out, n),
        None => {},
    }
    let pairs = doc.get_attribute_values(id);
    push_attrs(out, &pairs);
    assert(out@ =~= out0 + open_tag(doc, id));
    let kids = doc.children_vec(id);
    if kids.len() == 0 {
        push_str(out, "/>");
        assert(out@ + pending(doc, stack@) =~= out0 + (ser(doc, id, f as nat) + pending(doc, st0)));
    } else {
        push_str(out, ">");
        let ghost out1 = out@;
        stack.push(SerStep::Close(id));
        proof {
            lemma_pending_push(doc, st0, SerStep::Close(id));
        }
        let ghost st1 = stack@;
        let g = f - 1;
        let mut i: usize = kids.len();
        while i > 0
            invariant
                i <= kids@.len(),
                kids@ == doc.spec_children(id),
                g == f - 1,
                pending(doc, stack@) == ser_list(doc, kids@.subrange(i as int, kids@.len() as int), g as nat)
                    + pending(doc, st1),
                pending_work(doc, stack@) == work_list(
                    doc,
                    kids@.subrange(i as int, kids@.len() as int),
                    g as nat,
                ) + pending_work(doc, st1),
            decreases i,
        {
            let ghost before = stack@;
            i -= 1;
            stack.push(SerStep::Enter(kids[i], g));
            proof {
                lemma_pending_push(doc, before, SerStep::Enter(kids[i as int], g));
                let rest = kids@.subrange(i as int, kids@.len() as int);
                assert(rest.drop_first() =~= kids@.subrange(i + 1, kids@.len() as int));
                assert(rest[0] == kids@[i as int]);
                assert(pending(doc, stack@) =~= ser_list(doc, rest, g as nat) + pending(doc, st1));
            }
        }
        assert(kids@.subrange(0, kids@.len() as int) =~= kids@);
        assert(ser(doc, id, f as nat) == open_tag(doc, id) + ">"@ + ser_list(doc, kids@, g as nat)
            + close_tag(doc, id));
        assert(out@ + pending(doc, stack@) =~= out0 + (ser(doc, id, f as nat) + pending(doc, st0)));
    }
}

/// Serialize a node to XML text: elements with their attributes (values escaped) and
/// children, empty elements closed at once, text escaped, CDATA sections, comments
/// and processing instructions in their delimiters, and the document node as its root
/// element
pub fn serialize_node_to_xml<D: DocumentAccess>(doc: &D, node_id: NodeId) -> (r: String)
    ensures
        r@ == spec_serialize(doc, node_id),
{
    let fuel = doc.node_count();
    let ghost target = ser(doc, node_id, fuel as nat);
    let mut out: Vec<char> = Vec::new();
    let mut stack: Vec<SerStep> = Vec::new();
    stack.push(SerStep::Enter(node_id, fuel));
    proof {
        lemma_pending_push(doc, Seq::empty(), SerStep::Enter(node_id, fuel));
        assert(Seq::<SerStep>::empty().push(SerStep::Enter(node_id, fuel)) =~= stack@);
        assert(out@ + pending(doc, stack@) =~= target);
    }
    while stack.len() > 0
        invariant
            out@ + pending(doc, stack@) == target,
        decreases pending_work(doc, stack@),
    {
        let ghost st = stack@;
        let ghost out0 = out@;
        let step = stack.pop().unwrap();
        let ghost rest = stack@;
        proof {
            assert(st =~= rest.push(step));
            lemma_pending_push(doc, rest, step);
        }
        match step {
            SerStep::Close(id) => {
                match doc.node_name(id) {
                    Some(name) => {
                        push_str(&mut out, "</");
                        push_str(&mut out, name);
                        push_str(&mut out, ">");
                    },
                    None => {},
                }
                assert(out@ =~= out0 + close_tag(doc, id));
            },
            SerStep::Enter(id, f) => {
                if f > 0 {
                    match doc.node_kind_of(id) {
                        NodeKind::Element => {
                            open_element(doc, id, f, &mut out, &mut stack);
                        },
                        NodeKind::Text => {
                            match doc.text_content(id) {
                                Some(t) => escape_xml_to_buf(t, &mut out),
                                None => {},
                            }
                            assert(out@ =~= out0 + ser(doc, id, f as nat));
                        },
                        NodeKind::CData => {
                            push_str(&mut out, "<![CDATA[");
                            match doc.text_content(id) {
                                Some(t) => push_str(&mut out, t),
                                None => {},
                            }
                            push_str(&mut out, "]]>");
                            assert(out@ =~= out0 + ser(doc, id, f as nat));
                        },
                        NodeKind::Comment => {
                            push_str(&mut out, "<!--");
                            match doc.text_content(id) {
                                Some(t) => push_str(&mut out, t),
                                None => {},
                            }
                            push_str(&mut out, "-->");
                            assert(out@ =~= out0 + ser(doc, id, f as nat));
                        },
                        NodeKind::ProcessingInstruction => {
                            push_str(&mut out, "<?");
                            match doc.node_name(id) {
                                Some(t) => push_str(&mut out, t),
                                None => {},
                            }
                            push_str(&mut out, "?>");
                            assert(out@ =~= out0 + ser(doc, id, f as nat));
                        },
                        NodeKind::Document => {
                            match doc.root_element_id() {
                                Some(root) => {
                                    stack.push(SerStep::Enter(root, f - 1));
                                    proof {
                                        lemma_pending_push(doc, rest, SerStep::Enter(root, (f - 1) as usize));
                                    }
                                },
                                None => {},
                            }
                        },
                    }
                }
            },
        }
        assert(out@ + pending(doc, stack@) =~= target);
    }
    assert(pending(doc, stack@) =~= Seq::<char>::empty());
    assert(out@ =~= target);
    string_of(out.as_slice())
}

} // verus!
