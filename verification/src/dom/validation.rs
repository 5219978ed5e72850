//! Well-formedness checks of a document, event by event.

use std::borrow::Cow;
use vstd::prelude::*;
use vstd::string::StringExecFns;

use super::doctype::{
    acyclic, add_found, dtd_scan, ent_view, ents_view, lemma_add_found_concat, lemma_cyclic_view, parse_dtd_declarations,
    view_cyclic, EntView, FoundEntity,
};
use crate::reader::events::XmlEvent;
use crate::reader::slice::{
    attr_err_after, event_of, lemma_read_from, read_from, tag_attrs, token_text, SliceReader,
};
use crate::xml_core::attributes::{attrs_model, cow_bytes, Attribute};
use crate::xml_core::dtd::{
    dtd_wf, first_self_referencing, msg_self_reference, notations_declared, self_referencing,
    spec_utf8_lossy, utf8_lossy, DtdDeclarations, EntityDecl,
};
use crate::xml_core::entities::no_amp;
use crate::xml_core::primitives::{bytes_eq, is_ws, is_ws_byte};
use crate::xml_core::tokenizer::model::{ParseState, TokView, TokenKind};

verus! {

// =============================================================================
// Model
// =============================================================================
/// What the checks remember between events.
pub struct VState {
    /// Names of the open elements, outermost first
    pub tags: Seq<Seq<u8>>,
    /// Root elements seen
    pub roots: int,
    pub seen_decl: bool,
    pub seen_doctype: bool,
    pub seen_root: bool,
    pub seen_anything: bool,
    pub first: bool,
    /// Entity declarations of the DOCTYPE
    pub found: Seq<FoundEntity>,
}

/// The state before the first event.
pub open spec fn vstate_init() -> VState {
    VState {
        tags: seq![],
        roots: 0,
        seen_decl: false,
        seen_doctype: false,
        seen_root: false,
        seen_anything: false,
        first: true,
        found: seq![],
    }
}

/// The first name at or after `i` that occurs again later, or the number of names.
pub open spec fn first_dup(names: Seq<Seq<u8>>, i: int) -> int
    decreases names.len() - i,
{
    if i < 0 || i >= names.len() {
        names.len() as int
    } else if exists|j: int| i < j < names.len() && names[j] == names[i] {
        i
    } else {
        first_dup(names, i + 1)
    }
}

/// The names of a list of (name, value) attributes.
pub open spec fn attr_names(attrs: Seq<(Seq<u8>, Seq<u8>)>) -> Seq<Seq<u8>> {
    attrs.map_values(|p: (Seq<u8>, Seq<u8>)| p.0)
}

/// Every byte is whitespace.
pub open spec fn all_ws(c: Seq<u8>) -> bool {
    forall|j: int| 0 <= j < c.len() ==> is_ws(c[j])
}

pub open spec fn msg_duplicate(name: Seq<u8>) -> Seq<char> {
    "Duplicate attribute: "@ + spec_utf8_lossy(name)
}

pub open spec fn msg_mismatch(start: Seq<u8>, end: Seq<u8>) -> Seq<char> {
    "Tag mismatch: <"@ + spec_utf8_lossy(start) + "> closed with </"@ + spec_utf8_lossy(end)
        + ">"@
}

pub open spec fn msg_unexpected_end(end: Seq<u8>) -> Seq<char> {
    "Unexpected end tag: </"@ + spec_utf8_lossy(end) + "> without matching start tag"@
}

pub open spec fn msg_unclosed(name: Seq<u8>) -> Seq<char> {
    "Unclosed tag: <"@ + spec_utf8_lossy(name) + ">"@
}

/// The ordering check: an XML declaration after a comment or processing instruction
/// that opened the document is refused.
pub open spec fn order_step(st: VState, k: TokenKind) -> Result<VState, Seq<char>> {
    if st.first {
        Ok(
            VState {
                first: false,
                seen_anything: st.seen_anything || k == TokenKind::Comment || k
                    == TokenKind::ProcessingInstruction,
                ..st
            },
        )
    } else if !st.seen_decl && st.seen_anything && k == TokenKind::XmlDeclaration {
        Err("XML declaration must be at the very beginning of the document"@)
    } else {
        Ok(st)
    }
}

/// An element at document level is the root element, and only one may come.
pub open spec fn root_step(st: VState) -> Result<VState, Seq<char>> {
    if st.tags.len() == 0 {
        if st.seen_root {
            Err("Content not allowed after root element"@)
        } else if st.roots + 1 > 1 {
            Err("Document has multiple root elements"@)
        } else {
            Ok(VState { roots: st.roots + 1, seen_root: true, ..st })
        }
    } else {
        Ok(st)
    }
}

/// The checks of a start or empty element: the root rule and distinct attribute names.
pub open spec fn element_step(st: VState, s: Seq<u8>, t: TokView) -> Result<VState, Seq<char>> {
    match root_step(st) {
        Err(m) => Err(m),
        Ok(st2) => {
            let names = attr_names(tag_attrs(token_text(s, t), true).0);
            let d = first_dup(names, 0);
            if d < names.len() {
                Err(msg_duplicate(names[d]))
            } else if t.kind == TokenKind::StartTag {
                Ok(VState { tags: st2.tags.push(t.name->0), ..st2 })
            } else {
                Ok(st2)
            }
        },
    }
}

/// The checks of the event of token `t`.
pub open spec fn event_step(st0: VState, s: Seq<u8>, t: TokView) -> Result<VState, Seq<char>> {
    match order_step(st0, t.kind) {
        Err(m) => Err(m),
        Ok(st) => match t.kind {
            TokenKind::StartTag | TokenKind::EmptyTag => element_step(st, s, t),
            TokenKind::EndTag => {
                let name = t.name->0;
                if st.tags.len() == 0 {
                    Err(msg_unexpected_end(name))
                } else if st.tags.last() != name {
                    Err(msg_mismatch(st.tags.last(), name))
                } else {
                    Ok(VState { tags: st.tags.drop_last(), ..st })
                }
            },
            TokenKind::Text => if st.tags.len() == 0 {
                if !no_amp(token_text(s, t)) {
                    Err("Entity/character references not allowed at document level"@)
                } else if !all_ws(t.content->0) {
                    if st.seen_root {
                        Err("Content not allowed after root element"@)
                    } else {
                        Err("Text content not allowed before root element"@)
                    }
                } else {
                    Ok(st)
                }
            } else {
                Ok(st)
            },
            TokenKind::CData => if st.tags.len() == 0 {
                Err("CDATA section not allowed at document level"@)
            } else {
                Ok(st)
            },
            TokenKind::DocType => if st.seen_doctype {
                Err("Multiple DOCTYPE declarations not allowed"@)
            } else if st.seen_root {
                Err("DOCTYPE must come before root element"@)
            } else {
                Ok(
                    VState {
                        seen_doctype: true,
                        found: st.found + dtd_scan(token_text(s, t), 0),
                        ..st
                    },
                )
            },
            TokenKind::XmlDeclaration => if st.seen_doctype {
                Err("XML declaration must come before DOCTYPE"@)
            } else if st.seen_root {
                Err("XML declaration must come before root element"@)
            } else {
                Ok(VState { seen_decl: true, ..st })
            },
            _ => Ok(st),
        },
    }
}

/// The error a reader reports: an attribute error first, else the tokenizer's.
pub open spec fn reader_err(
    attr: Option<(Seq<char>, int)>,
    tok: Option<(Seq<char>, int)>,
) -> Option<Seq<char>> {
    match attr {
        Some(a) => Some(a.0),
        None => match tok {
            Some(t) => Some(t.0),
            None => None,
        },
    }
}

/// `i` is the first entity of the table that references itself.
pub open spec fn first_cyclic(tab: Seq<(Seq<u8>, EntView)>, i: int) -> bool {
    &&& 0 <= i < tab.len()
    &&& view_cyclic(tab, tab[i].0)
    &&& forall|j: int| 0 <= j < i ==> !view_cyclic(tab, #[trigger] tab[j].0)
}

/// The checks after the last event: no reader error, every element closed, a root
/// element, and no entity that references itself (the first one that does is named).
pub open spec fn final_checks(err: Option<Seq<char>>, st: VState) -> Result<(), Option<Seq<char>>> {
    let tab = add_found(seq![], st.found, false);
    match err {
        Some(m) => Err(Some(m)),
        None => if st.tags.len() > 0 {
            Err(Some(msg_unclosed(st.tags[0])))
        } else if st.roots == 0 {
            Err(Some("Document has no root element"@))
        } else if acyclic(tab) {
            Ok(())
        } else {
            Err(Some(msg_self_reference(tab[choose|i: int| first_cyclic(tab, i)].0)))
        },
    }
}

/// Some entity that references itself comes first.
proof fn lemma_first_self_referencing(ents: Seq<(Vec<u8>, EntityDecl)>, i: int)
    requires
        0 <= i < ents.len(),
        self_referencing(ents, ents[i].0@),
    ensures
        exists|k: int| first_self_referencing(ents, k),
    decreases i,
{
    if exists|j: int| 0 <= j < i && self_referencing(ents, #[trigger] ents[j].0@) {
        let j = choose|j: int| 0 <= j < i && self_referencing(ents, #[trigger] ents[j].0@);
        lemma_first_self_referencing(ents, j);
    } else {
        assert(first_self_referencing(ents, i));
    }
}

/// The outcome of checking the events that a strict reader gives from `pos` on.
pub open spec fn validate_run(
    s: Seq<u8>,
    pos: int,
    ps: ParseState,
    tok_err: Option<(Seq<char>, int)>,
    attr_err: Option<(Seq<char>, int)>,
    st: VState,
) -> Result<(), Option<Seq<char>>>
    decreases (s.len() - pos) * 2 + (if ps == ParseState::Done {
        0int
    } else {
        1int
    }),
{
    if pos < 0 || pos > s.len() {
        Err(None)
    } else {
        proof {
            lemma_read_from(s, pos, ps, true, tok_err);
        }
        let rs = read_from(s, pos, ps, true, tok_err);
        let attr2 = attr_err_after(attr_err, s, rs.token, true, add_found(seq![], st.found, false));
        match rs.token {
            None => final_checks(reader_err(attr2, rs.err), st),
            Some(t) => match event_step(st, s, t) {
                Err(m) => Err(Some(m)),
                Ok(st2) => match reader_err(attr2, rs.err) {
                    Some(m) => Err(Some(m)),
                    None => validate_run(s, rs.pos, rs.state, rs.err, attr2, st2),
                },
            },
        }
    }
}

// =============================================================================
// Duplicate attributes
// =============================================================================
/// Find duplicate attribute name (for strict mode validation): the first name that
/// occurs again later
pub fn find_duplicate_attribute(attrs: &[Attribute<'_>]) -> (r: Option<String>)
    ensures
        ({
            let names = attr_names(attrs_model(attrs@));
            let d = first_dup(names, 0);
            &&& r is Some <==> d < names.len()
            &&& r matches Some(m) ==> m@ == spec_utf8_lossy(names[d])
        }),
{
    let ghost names = attr_names(attrs_model(attrs@));
    let n = attrs.len();
    let mut i: usize = 0;
    while i < n
        invariant
            n == attrs@.len(),
            names.len() == n,
            names == attr_names(attrs_model(attrs@)),
            i <= n,
            first_dup(names, 0) == first_dup(names, i as int),
        decreases n - i,
    {
        let mut j: usize = i + 1;
        while j < n
            invariant
                n == attrs@.len(),
                names.len() == n,
                names == attr_names(attrs_model(attrs@)),
                i < n,
                i + 1 <= j <= n,
                first_dup(names, 0) == first_dup(names, i as int),
                forall|k: int| i < k < j ==> names[k] != names[i as int],
            decreases n - j,
        {
            if bytes_eq(cow_bytes(&attrs[i].name), cow_bytes(&attrs[j].name)) {
                assert(names[j as int] == names[i as int]);
                return Some(utf8_lossy(cow_bytes(&attrs[i].name)));
            }
            j += 1;
        }
        i += 1;
    }
    None
}

// =============================================================================
// Checking
// =============================================================================
/// Every byte is whitespace.
fn is_all_ws(c: &[u8]) -> (r: bool)
    ensures
        r == all_ws(c@),
{
    let mut i: usize = 0;
    while i < c.len()
        invariant
            i <= c@.len(),
            forall|j: int| 0 <= j < i ==> is_ws(c@[j]),
        decreases c.len() - i,
    {
        if !is_ws_byte(c[i]) {
            return false;
        }
        i += 1;
    }
    true
}

/// The state of the checks while the events are read.
pub(crate) struct Validator {
    tag_stack: Vec<Vec<u8>>,
    root_count: u32,
    seen_xml_decl: bool,
    seen_doctype: bool,
    seen_root_element: bool,
    seen_anything: bool,
    first_event: bool,
    dtd_decls: DtdDeclarations,
    found: Ghost<Seq<FoundEntity>>,
}

/// The names of a stack of owned names.
pub(crate) open spec fn stack_view(v: Seq<Vec<u8>>) -> Seq<Seq<u8>> {
    v.map_values(|n: Vec<u8>| n@)
}

impl Validator {
    pub(crate) closed spec fn view_state(&self) -> VState {
        VState {
            tags: stack_view(self.tag_stack@),
            roots: self.root_count as int,
            seen_decl: self.seen_xml_decl,
            seen_doctype: self.seen_doctype,
            seen_root: self.seen_root_element,
            seen_anything: self.seen_anything,
            first: self.first_event,
            found: self.found@,
        }
    }

    pub(crate) closed spec fn inv(&self) -> bool {
        &&& dtd_wf(&self.dtd_decls)
        &&& self.dtd_decls.attlists@.len() == 0
        &&& ents_view(self.dtd_decls.entities@) == add_found(seq![], self.found@, false)
        &&& !self.seen_doctype ==> self.found@ == Seq::<FoundEntity>::empty()
        &&& self.root_count <= 1
    }

    pub(crate) fn new() -> (r: Self)
        ensures
            r.inv(),
            r.view_state() == vstate_init(),
    {
        let found: Ghost<Seq<FoundEntity>> = Ghost(Seq::empty());
        let r = Validator {
            tag_stack: Vec::new(),
            root_count: 0,
            seen_xml_decl: false,
            seen_doctype: false,
            seen_root_element: false,
            seen_anything: false,
            first_event: true,
            dtd_decls: DtdDeclarations::new(),
            found,
        };
        assert(ents_view(r.dtd_decls.entities@) =~= add_found(seq![], r.found@, false));
        assert(r.view_state().tags =~= vstate_init().tags);
        r
    }

    /// The root-element rule for an element at document level.
    fn root_check(&mut self) -> (r: Result<(), String>)
        requires
            old(self).inv(),
        ensures
            match root_step(old(self).view_state()) {
                Err(m) => r matches Err(e) && e@ == m,
                Ok(st) => r is Ok && final(self).view_state() == st && final(self).inv(),
            },
    {
        if self.tag_stack.len() == 0 {
            if self.seen_root_element {
                return Err(String::from_str("Content not allowed after root element"));
            }
            self.root_count += 1;
            if self.root_count > 1 {
                return Err(String::from_str("Document has multiple root elements"));
            }
            self.seen_root_element = true;
        }
        Ok(())
    }

    /// The checks of a start (`open`) or empty element.
    fn element(&mut self, name: &[u8], attrs: &Vec<Attribute<'_>>, open: bool) -> (r: Result<(), String>)
        requires
            old(self).inv(),
        ensures
            ({
                let rs = root_step(old(self).view_state());
                let names = attr_names(attrs_model(attrs@));
                let d = first_dup(names, 0);
                match rs {
                    Err(m) => r matches Err(e) && e@ == m,
                    Ok(st2) => if d < names.len() {
                        r matches Err(e) && e@ == msg_duplicate(names[d])
                    } else {
                        &&& r is Ok
                        &&& final(self).inv()
                        &&& final(self).view_state() == (if open {
                            VState { tags: st2.tags.push(name@), ..st2 }
                        } else {
                            st2
                        })
                    },
                }
            }),
    {
        match self.root_check() {
            Err(e) => {
                return Err(e);
            },
            Ok(()) => {},
        }
        match find_duplicate_attribute(attrs.as_slice()) {
            Some(dup) => {
                let mut msg = String::from_str("Duplicate attribute: ");
                msg.append(dup.as_str());
                return Err(msg);
            },
            None => {},
        }
        if open {
            let ghost old_tags = self.tag_stack@;
            self.tag_stack.push(vstd::slice::slice_to_vec(name));
            assert(stack_view(self.tag_stack@) =~= stack_view(old_tags).push(name@));
        }
        Ok(())
    }

    /// The checks of an end element.
    fn end_element(&mut self, name: &[u8]) -> (r: Result<(), String>)
        requires
            old(self).inv(),
        ensures
            ({
                let st = old(self).view_state();
                if st.tags.len() == 0 {
                    r matches Err(e) && e@ == msg_unexpected_end(name@)
                } else if st.tags.last() != name@ {
                    r matches Err(e) && e@ == msg_mismatch(st.tags.last(), name@)
                } else {
                    &&& r is Ok
                    &&& final(self).inv()
                    &&& final(self).view_state() == VState { tags: st.tags.drop_last(), ..st }
                }
            }),
    {
        let ghost old_tags = self.tag_stack@;
        match self.tag_stack.pop() {
            Some(start_name) => {
                assert(stack_view(self.tag_stack@) =~= stack_view(old_tags).drop_last());
                if !bytes_eq(start_name.as_slice(), name) {
                    let mut msg = String::from_str("Tag mismatch: <");
                    let s1 = utf8_lossy(start_name.as_slice());
                    msg.append(s1.as_str());
                    msg.append("> closed with </");
                    let s2 = utf8_lossy(name);
                    msg.append(s2.as_str());
                    msg.append(">");
                    return Err(msg);
                }
                Ok(())
            },
            None => {
                let mut msg = String::from_str("Unexpected end tag: </");
                let s1 = utf8_lossy(name);
                msg.append(s1.as_str());
                msg.append("> without matching start tag");
                Err(msg)
            },
        }
    }

    /// The checks of the event `ev` of token `t` of input `s`.
    pub(crate) fn step(&mut self, ev: &XmlEvent<'_>, Ghost(s): Ghost<Seq<u8>>, Ghost(t): Ghost<TokView>) -> (r:
        Result<(), String>)
        requires
            old(self).inv(),
            event_of(s, t, true, *ev),
            0 <= t.start <= t.end <= s.len(),
        ensures
            match event_step(old(self).view_state(), s, t) {
                Err(m) => r matches Err(e) && e@ == m,
                Ok(st) => r is Ok && final(self).view_state() == st && final(self).inv(),
            },
    {
        // Ordering: an XML declaration must be at the very beginning
        if self.first_event {
            self.first_event = false;
            match ev {
                XmlEvent::Comment(_) | XmlEvent::ProcessingInstruction { .. } => {
                    self.seen_anything = true;
                },
                _ => {},
            }
        } else if !self.seen_xml_decl && self.seen_anything {
            if let XmlEvent::XmlDeclaration { .. } = ev {
                return Err(
                    String::from_str("XML declaration must be at the very beginning of the document"),
                );
            }
        }
        match ev {
            XmlEvent::StartElement(elem) => self.element(cow_bytes(&elem.name), &elem.attributes, true),
            XmlEvent::EmptyElement(elem) => self.element(cow_bytes(&elem.name), &elem.attributes, false),
            XmlEvent::EndElement(end_elem) => self.end_element(cow_bytes(&end_elem.name)),
            XmlEvent::Text(content) => {
                if self.tag_stack.len() == 0 {
                    let owned = match content {
                        Cow::Owned(_) => true,
                        Cow::Borrowed(_) => false,
                    };
                    if owned {
                        return Err(
                            String::from_str("Entity/character references not allowed at document level"),
                        );
                    }
                    if !is_all_ws(cow_bytes(content)) {
                        if self.seen_root_element {
                            return Err(String::from_str("Content not allowed after root element"));
                        } else {
                            return Err(String::from_str("Text content not allowed before root element"));
                        }
                    }
                }
                Ok(())
            },
            XmlEvent::CData(_) => {
                if self.tag_stack.len() == 0 {
                    return Err(String::from_str("CDATA section not allowed at document level"));
                }
                Ok(())
            },
            XmlEvent::Comment(_) => Ok(()),
            XmlEvent::ProcessingInstruction { .. } => Ok(()),
            XmlEvent::DocType(content) => {
                if self.seen_doctype {
                    return Err(String::from_str("Multiple DOCTYPE declarations not allowed"));
                }
                if self.seen_root_element {
                    return Err(String::from_str("DOCTYPE must come before root element"));
                }
                self.seen_doctype = true;
                let bytes = cow_bytes(content);
                match parse_dtd_declarations(bytes, &mut self.dtd_decls) {
                    Ok(()) => {},
                    Err(e) => {
                        return Err(e);
                    },
                }
                proof {
                    let scan = dtd_scan(bytes@, 0);
                    assert(self.found@ + scan =~= scan);
                    self.found@ = self.found@ + scan;
                }
                Ok(())
            },
            XmlEvent::XmlDeclaration { .. } => {
                if self.seen_doctype {
                    return Err(String::from_str("XML declaration must come before DOCTYPE"));
                }
                if self.seen_root_element {
                    return Err(String::from_str("XML declaration must come before root element"));
                }
                self.seen_xml_decl = true;
                Ok(())
            },
            XmlEvent::EndDocument => Ok(()),
        }
    }
}

impl Validator {
    /// The checks after the last event, with the reader's error.
    pub(crate) fn finish(&self, reader: &SliceReader<'_>) -> (r: Result<(), String>)
        requires
            self.inv(),
        ensures
            match final_checks(
                reader_err(reader.spec_attr_error(), reader.spec_token_error()),
                self.view_state(),
            ) {
                Ok(()) => r is Ok,
                Err(Some(m)) => r matches Err(e) && e@ == m,
                Err(None) => false,
            },
    {
        match reader.error() {
            Some(err) => {
                return Err(err.message.clone());
            },
            None => {},
        }
        if self.tag_stack.len() > 0 {
            let mut msg = String::from_str("Unclosed tag: <");
            let s1 = utf8_lossy(self.tag_stack[0].as_slice());
            msg.append(s1.as_str());
            msg.append(">");
            return Err(msg);
        }
        if self.root_count == 0 {
            return Err(String::from_str("Document has no root element"));
        }
        let r = self.dtd_decls.validate();
        proof {
            let ents = self.dtd_decls.entities@;
            let tab = add_found(seq![], self.found@, false);
            assert forall|i: int| 0 <= i < ents.len() implies (!self_referencing(
                ents,
                #[trigger] ents[i].0@,
            ) <==> !view_cyclic(tab, tab[i].0)) by {
                lemma_cyclic_view(ents, ents[i].0@);
                assert(ents_view(ents)[i] == ent_view(ents[i]));
            }
            assert(notations_declared(&self.dtd_decls));
            if r is Err {
                assert(!acyclic(tab));
                let i = choose|i: int| 0 <= i < tab.len() && view_cyclic(tab, #[trigger] tab[i].0);
                assert(ents_view(ents)[i] == ent_view(ents[i]));
                lemma_first_self_referencing(ents, i);
                let k = choose|k: int| first_self_referencing(ents, k);
                assert(ents_view(ents)[k] == ent_view(ents[k]));
                assert forall|j: int| 0 <= j < k implies !view_cyclic(tab, #[trigger] tab[j].0) by {
                    assert(ents_view(ents)[j] == ent_view(ents[j]));
                    assert(!self_referencing(ents, ents[j].0@));
                }
                assert(first_cyclic(tab, k));
                let c = choose|c: int| first_cyclic(tab, c);
                if c < k {
                    assert(ents_view(ents)[c] == ent_view(ents[c]));
                    assert(!view_cyclic(tab, tab[c].0));
                } else if c > k {
                    assert(!view_cyclic(tab, tab[k].0));
                }
            }
        }
        r
    }
}

/// Validate XML is well-formed without building a DOM: tag matching, duplicate
/// attributes, document structure and the DTD's entities, with the strict reader's
/// own checks
pub fn validate_strict(input: &[u8]) -> (r: Result<(), String>)
    ensures
        r is Ok <==> validate_run(input@, 0, ParseState::Init, None, None, vstate_init()) is Ok,
        r matches Err(m) ==> (validate_run(input@, 0, ParseState::Init, None, None, vstate_init())
            matches Err(Some(x)) && m@ == x),
{
    let mut reader = SliceReader::new_strict(input);
    let mut v = Validator::new();
    let ghost s = input@;
    let ghost target = validate_run(s, 0, ParseState::Init, None, None, vstate_init());
    assert(add_found(seq![], vstate_init().found, false) =~= Seq::<(Seq<u8>, EntView)>::empty());
    loop
        invariant
            reader.wf(),
            reader.spec_input() == s,
            reader.spec_strict(),
            s == input@,
            v.inv(),
            target == validate_run(s, 0, ParseState::Init, None, None, vstate_init()),
            validate_run(
                s,
                reader.spec_pos(),
                reader.spec_state(),
                reader.spec_token_error(),
                reader.spec_attr_error(),
                v.view_state(),
            ) == target,
            reader.spec_ents() == add_found(seq![], v.view_state().found, false),
        decreases (s.len() - reader.spec_pos()) * 2 + (if reader.spec_state() == ParseState::Done {
            0int
        } else {
            1int
        }),
    {
        let ghost rs = reader.next_read();
        proof {
            reader.lemma_pos_in_input();
            lemma_read_from(
                s,
                reader.spec_pos(),
                reader.spec_state(),
                true,
                reader.spec_token_error(),
            );
        }
        match reader.next_event() {
            None => {
                return v.finish(&reader);
            },
            Some(event) => {
                let ghost t = rs.token->0;
                let ghost found0 = v.view_state().found;
                match v.step(&event, Ghost(s), Ghost(t)) {
                    Err(e) => {
                        return Err(e);
                    },
                    Ok(()) => {},
                }
                proof {
                    lemma_add_found_concat(seq![], found0, dtd_scan(token_text(s, t), 0), false);
                }
                match reader.error() {
                    Some(err) => {
                        return Err(err.message.clone());
                    },
                    None => {},
                }
            },
        }
    }
}

} // verus!


