//! XML Event Types
//!
//! Event types for pull-parser style XML processing.

use std::borrow::Cow;
use vstd::prelude::*;
use vstd::string::StringSliceAdditionalSpecFns;
use vstd::utf8::*;

use crate::xml_core::attributes::{
    cow_bytes, cow_str, name_local, name_prefix, opt_view, split_name, Attribute,
};
use crate::xml_core::primitives::{bytes_eq, index_of, lemma_index_of, memchr};

verus! {

/// XML parsing event
#[derive(Debug)]
pub enum XmlEvent<'a> {
    /// Start of an element: <name attrs...>
    StartElement(StartElement<'a>),
    /// End of an element: </name>
    EndElement(EndElement<'a>),
    /// Empty element: <name attrs.../>
    EmptyElement(StartElement<'a>),
    /// Text content between tags
    Text(Cow<'a, [u8]>),
    /// CDATA section content
    CData(Cow<'a, [u8]>),
    /// Comment content
    Comment(Cow<'a, [u8]>),
    /// Processing instruction: <?target data?>
    ProcessingInstruction { target: Cow<'a, [u8]>, data: Option<Cow<'a, [u8]>> },
    /// XML declaration: <?xml version="1.0"?>
    XmlDeclaration {
        version: Cow<'a, [u8]>,
        encoding: Option<Cow<'a, [u8]>>,
        standalone: Option<bool>,
    },
    /// DOCTYPE declaration
    DocType(Cow<'a, [u8]>),
    /// End of document
    EndDocument,
}

/// Start element event data
#[derive(Debug)]
pub struct StartElement<'a> {
    /// Full element name (may include prefix)
    pub name: Cow<'a, [u8]>,
    /// Local name (after colon)
    pub local_name: Cow<'a, [u8]>,
    /// Namespace prefix (before colon), if any
    pub prefix: Option<Cow<'a, [u8]>>,
    /// Namespace URI (resolved), if any
    pub namespace: Option<Cow<'a, [u8]>>,
    /// Element attributes
    pub attributes: Vec<Attribute<'a>>,
}

/// The prefix and local name of a name, split at its first colon, owned.
fn split_owned<'a>(n: &Vec<u8>) -> (r: (Option<Cow<'a, [u8]>>, Cow<'a, [u8]>))
    ensures
        opt_view(r.0) == name_prefix(n@),
        r.1@ == name_local(n@),
{
    proof {
        lemma_index_of(n@, 0x3A);
    }
    let len = n.len();
    match memchr(0x3A, n.as_slice()) {
        Some(pos) => {
            proof {
                crate::xml_core::attributes::lemma_first_index(n@, 0x3A, pos as int);
            }
            let p = vstd::slice::slice_to_vec(&n.as_slice()[0..pos]);
            let l = vstd::slice::slice_to_vec(&n.as_slice()[pos + 1..len]);
            assert(n@.subrange(0, pos as int) =~= n@.take(pos as int));
            assert(n@.subrange(pos + 1, n@.len() as int) =~= n@.skip(pos + 1));
            (Some(Cow::Owned(p)), Cow::Owned(l))
        },
        None => {
            let whole = vstd::slice::slice_to_vec(n.as_slice());
            (None, Cow::Owned(whole))
        },
    }
}

/// The prefix and local name of a name held in a `Cow`.
fn split_cow<'a>(name: &Cow<'a, [u8]>) -> (r: (Option<Cow<'a, [u8]>>, Cow<'a, [u8]>))
    ensures
        opt_view(r.0) == name_prefix(name@),
        r.1@ == name_local(name@),
{
    match name {
        Cow::Borrowed(n) => {
            let (p, l) = split_name(n);
            let prefix = match p {
                Some(x) => Some(Cow::Borrowed(x)),
                None => None,
            };
            (prefix, Cow::Borrowed(l))
        },
        Cow::Owned(n) => split_owned(n),
    }
}

/// The first attribute of `attrs` named `name`, or `attrs.len()`.
pub open spec fn first_named<'a>(attrs: Seq<Attribute<'a>>, name: Seq<u8>, from: int) -> int
    decreases attrs.len() - from,
{
    if from < 0 || from >= attrs.len() {
        attrs.len() as int
    } else if attrs[from].name@ == name {
        from
    } else {
        first_named(attrs, name, from + 1)
    }
}

/// Position of the first attribute named `name`, or the number of attributes.
pub fn find_attribute(attrs: &Vec<Attribute<'_>>, name: &[u8]) -> (r: usize)
    ensures
        r == first_named(attrs@, name@, 0),
{
    let mut i: usize = 0;
    while i < attrs.len()
        invariant
            i <= attrs@.len(),
            first_named(attrs@, name@, 0) == first_named(attrs@, name@, i as int),
        decreases attrs.len() - i,
    {
        if bytes_eq(cow_bytes(&attrs[i].name), name) {
            return i;
        }
        i += 1;
    }
    i
}

impl<'a> StartElement<'a> {
    /// The prefix and local name are the split of the name at its first colon, and no
    /// namespace is resolved.
    pub open spec fn wf(&self) -> bool {
        &&& self.local_name@ == name_local(self.name@)
        &&& opt_view(self.prefix) == name_prefix(self.name@)
        &&& self.namespace is None
    }

    /// Create a new start element from a byte slice
    pub fn new(name: &'a [u8], attributes: Vec<Attribute<'a>>) -> (r: Self)
        ensures
            r.wf(),
            r.name@ == name@,
            r.attributes@ == attributes@,
    {
        let (prefix, local_name) = split_name(name);
        let prefix = match prefix {
            Some(p) => Some(Cow::Borrowed(p)),
            None => None,
        };
        StartElement {
            name: Cow::Borrowed(name),
            local_name: Cow::Borrowed(local_name),
            prefix,
            namespace: None,
            attributes,
        }
    }

    /// Create a new start element from a Cow
    pub fn from_cow(name: Cow<'a, [u8]>, attributes: Vec<Attribute<'a>>) -> (r: Self)
        ensures
            r.wf(),
            r.name@ == name@,
            r.attributes@ == attributes@,
    {
        let (prefix, local_name) = split_cow(&name);
        StartElement { name, local_name, prefix, namespace: None, attributes }
    }

    /// Get the name as a string
    pub fn name_str(&self) -> (r: Option<&str>)
        ensures
            r is Some <==> valid_utf8(self.name@),
            r matches Some(s) ==> s@ == decode_utf8(self.name@),
    {
        cow_str(&self.name)
    }

    /// Get the local name as a string
    pub fn local_name_str(&self) -> (r: Option<&str>)
        ensures
            r is Some <==> valid_utf8(self.local_name@),
            r matches Some(s) ==> s@ == decode_utf8(self.local_name@),
    {
        cow_str(&self.local_name)
    }

    /// Get an attribute by name
    pub fn get_attribute(&self, name: &[u8]) -> (r: Option<&Attribute<'a>>)
        ensures
            r is Some <==> first_named(self.attributes@, name@, 0) < self.attributes@.len(),
            r matches Some(a) ==> *a == self.attributes@[first_named(self.attributes@, name@, 0)],
    {
        let k = find_attribute(&self.attributes, name);
        if k < self.attributes.len() {
            Some(&self.attributes[k])
        } else {
            None
        }
    }

    /// Get an attribute value by name as string (`None` also when that value is not
    /// UTF-8)
    pub fn get_attribute_value(&self, name: &str) -> (r: Option<&str>)
        ensures
            ({
                let k = first_named(self.attributes@, name.spec_bytes(), 0);
                &&& r is Some <==> (k < self.attributes@.len() && valid_utf8(
                    self.attributes@[k].value@,
                ))
                &&& r matches Some(s) ==> s@ == decode_utf8(self.attributes@[k].value@)
            }),
    {
        let k = find_attribute(&self.attributes, name.as_bytes());
        if k < self.attributes.len() {
            self.attributes[k].value_str()
        } else {
            None
        }
    }
}

/// End element event data
#[derive(Debug)]
pub struct EndElement<'a> {
    /// Full element name
    pub name: Cow<'a, [u8]>,
    /// Local name (after colon)
    pub local_name: Cow<'a, [u8]>,
    /// Namespace prefix (before colon), if any
    pub prefix: Option<Cow<'a, [u8]>>,
}

impl<'a> EndElement<'a> {
    /// The prefix and local name are the split of the name at its first colon.
    pub open spec fn wf(&self) -> bool {
        &&& self.local_name@ == name_local(self.name@)
        &&& opt_view(self.prefix) == name_prefix(self.name@)
    }

    /// Create a new end element from a byte slice
    pub fn new(name: &'a [u8]) -> (r: Self)
        ensures
            r.wf(),
            r.name@ == name@,
    {
        let (prefix, local_name) = split_name(name);
        let prefix = match prefix {
            Some(p) => Some(Cow::Borrowed(p)),
            None => None,
        };
        EndElement { name: Cow::Borrowed(name), local_name: Cow::Borrowed(local_name), prefix }
    }

    /// Create a new end element from a Cow
    pub fn from_cow(name: Cow<'a, [u8]>) -> (r: Self)
        ensures
            r.wf(),
            r.name@ == name@,
    {
        let (prefix, local_name) = split_cow(&name);
        EndElement { name, local_name, prefix }
    }

    /// Get the name as a string
    pub fn name_str(&self) -> (r: Option<&str>)
        ensures
            r is Some <==> valid_utf8(self.name@),
            r matches Some(s) ==> s@ == decode_utf8(self.name@),
    {
        cow_str(&self.name)
    }
}

impl<'a> XmlEvent<'a> {
    /// Check if this is a start element event (with or without content)
    pub fn is_start_element(&self) -> (r: bool)
        ensures
            r == (self is StartElement || self is EmptyElement),
    {
        match self {
            XmlEvent::StartElement(_) | XmlEvent::EmptyElement(_) => true,
            _ => false,
        }
    }

    /// Check if this is an end element event
    pub fn is_end_element(&self) -> (r: bool)
        ensures
            r == self is EndElement,
    {
        match self {
            XmlEvent::EndElement(_) => true,
            _ => false,
        }
    }

    /// Check if this is a text event
    pub fn is_text(&self) -> (r: bool)
        ensures
            r == self is Text,
    {
        match self {
            XmlEvent::Text(_) => true,
            _ => false,
        }
    }

    /// Get as start element if applicable
    pub fn as_start_element(&self) -> (r: Option<&StartElement<'a>>)
        ensures
            r is Some <==> (self is StartElement || self is EmptyElement),
            r matches Some(e) ==> (self matches XmlEvent::StartElement(x) ==> *e == x) && (
            self matches XmlEvent::EmptyElement(x) ==> *e == x),
    {
        match self {
            XmlEvent::StartElement(e) | XmlEvent::EmptyElement(e) => Some(e),
            _ => None,
        }
    }

    /// Get as end element if applicable
    pub fn as_end_element(&self) -> (r: Option<&EndElement<'a>>)
        ensures
            r is Some <==> self is EndElement,
            r matches Some(e) ==> self matches XmlEvent::EndElement(x) && *e == x,
    {
        match self {
            XmlEvent::EndElement(e) => Some(e),
            _ => None,
        }
    }

    /// Get text content if applicable (text or CDATA)
    pub fn as_text(&self) -> (r: Option<&[u8]>)
        ensures
            r is Some <==> (self is Text || self is CData),
            r matches Some(t) ==> (self matches XmlEvent::Text(x) ==> t@ == x@) && (
            self matches XmlEvent::CData(x) ==> t@ == x@),
    {
        match self {
            XmlEvent::Text(t) => Some(cow_bytes(t)),
            XmlEvent::CData(t) => Some(cow_bytes(t)),
            _ => None,
        }
    }
}

} // verus!
