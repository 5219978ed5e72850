//! Namespace Resolution
//!
//! Stack-based namespace resolver for XML namespace handling.

use vstd::prelude::*;

use super::strings::{intern_copy, StringPool};

verus! {

/// Namespace binding (prefix -> URI)
#[derive(Debug, Clone, Copy, PartialEq, Eq, Structural)]
pub struct NsBinding {
    pub prefix_id: u32,
    pub uri_id: u32,
    pub depth: u16,
}

/// `xml`, `xmlns`, and the namespaces they are bound to.
pub open spec fn lit_xml_prefix() -> Seq<u8> {
    seq![0x78u8, 0x6Du8, 0x6Cu8]
}

pub open spec fn lit_xmlns_prefix() -> Seq<u8> {
    seq![0x78u8, 0x6Du8, 0x6Cu8, 0x6Eu8, 0x73u8]
}

/// `http://www.w3.org/XML/1998/namespace`
pub open spec fn lit_xml_uri() -> Seq<u8> {
    seq![
        0x68u8, 0x74u8, 0x74u8, 0x70u8, 0x3Au8, 0x2Fu8, 0x2Fu8, 0x77u8, 0x77u8, 0x77u8, 0x2Eu8,
        0x77u8, 0x33u8, 0x2Eu8, 0x6Fu8, 0x72u8, 0x67u8, 0x2Fu8, 0x58u8, 0x4Du8, 0x4Cu8, 0x2Fu8,
        0x31u8, 0x39u8, 0x39u8, 0x38u8, 0x2Fu8, 0x6Eu8, 0x61u8, 0x6Du8, 0x65u8, 0x73u8, 0x70u8,
        0x61u8, 0x63u8, 0x65u8,
    ]
}

/// `http://www.w3.org/2000/xmlns/`
pub open spec fn lit_xmlns_uri() -> Seq<u8> {
    seq![
        0x68u8, 0x74u8, 0x74u8, 0x70u8, 0x3Au8, 0x2Fu8, 0x2Fu8, 0x77u8, 0x77u8, 0x77u8, 0x2Eu8,
        0x77u8, 0x33u8, 0x2Eu8, 0x6Fu8, 0x72u8, 0x67u8, 0x2Fu8, 0x32u8, 0x30u8, 0x30u8, 0x30u8,
        0x2Fu8, 0x78u8, 0x6Du8, 0x6Cu8, 0x6Eu8, 0x73u8, 0x2Fu8,
    ]
}

/// The bindings left when a scope at `depth` is left: the trailing ones declared at
/// that depth or deeper are removed.
pub open spec fn pop_bindings(b: Seq<NsBinding>, depth: u16) -> Seq<NsBinding>
    decreases b.len(),
{
    if b.len() == 0 || b.last().depth < depth {
        b
    } else {
        pop_bindings(b.drop_last(), depth)
    }
}

/// The URI bound to a prefix: that of its most recent binding.
pub open spec fn resolve_in(b: Seq<NsBinding>, prefix_id: u32) -> Option<u32>
    decreases b.len(),
{
    if b.len() == 0 {
        None
    } else if b.last().prefix_id == prefix_id {
        Some(b.last().uri_id)
    } else {
        resolve_in(b.drop_last(), prefix_id)
    }
}

/// The most recent binding of each prefix not in `seen`, most recent first.
pub open spec fn active_in(b: Seq<NsBinding>, seen: Set<u32>) -> Seq<(u32, u32)>
    decreases b.len(),
{
    if b.len() == 0 {
        seq![]
    } else {
        let x = b.last();
        if seen.contains(x.prefix_id) {
            active_in(b.drop_last(), seen)
        } else {
            seq![(x.prefix_id, x.uri_id)] + active_in(b.drop_last(), seen.insert(x.prefix_id))
        }
    }
}

/// No binding is deeper than the current depth.
pub open spec fn bindings_within(b: Seq<NsBinding>, depth: u16) -> bool {
    forall|i: int| 0 <= i < b.len() ==> (#[trigger] b[i]).depth <= depth
}

/// Stack-based namespace resolver
#[derive(Debug)]
pub struct NamespaceResolver {
    /// Stack of namespace bindings
    bindings: Vec<NsBinding>,
    /// Current element depth
    depth: u16,
    /// Pre-interned prefix IDs
    xml_prefix_id: u32,
    xmlns_prefix_id: u32,
    /// Pre-interned URI IDs
    xml_uri_id: u32,
    xmlns_uri_id: u32,
}

impl NamespaceResolver {
    /// The bindings, oldest first.
    pub closed spec fn spec_bindings(&self) -> Seq<NsBinding> {
        self.bindings@
    }

    /// The current element depth.
    pub closed spec fn spec_depth(&self) -> u16 {
        self.depth
    }

    /// The IDs of the prefixes `xml` and `xmlns`, which cannot be rebound.
    pub closed spec fn spec_reserved(&self) -> (u32, u32) {
        (self.xml_prefix_id, self.xmlns_prefix_id)
    }

    /// The bindings after `declare(prefix_id, uri_id)`.
    pub open spec fn declared(&self, prefix_id: u32, uri_id: u32) -> Seq<NsBinding> {
        if prefix_id == self.spec_reserved().0 || prefix_id == self.spec_reserved().1 {
            self.spec_bindings()
        } else {
            self.spec_bindings().push(
                NsBinding { prefix_id, uri_id, depth: self.spec_depth() },
            )
        }
    }

    /// Create a new namespace resolver with pre-declared xml and xmlns namespaces
    pub fn new(strings: &mut StringPool) -> (r: Self)
        ensures
            ({
                let x1 = intern_copy(old(strings).spec_entries(), old(strings).spec_data(), lit_xml_prefix());
                let x2 = intern_copy(x1.1, x1.2, lit_xmlns_prefix());
                let x3 = intern_copy(x2.1, x2.2, lit_xml_uri());
                let x4 = intern_copy(x3.1, x3.2, lit_xmlns_uri());
                &&& final(strings).spec_entries() == x4.1
                &&& final(strings).spec_data() == x4.2
                &&& r.spec_reserved() == (x1.0, x2.0)
                &&& r.spec_bindings() == seq![
                    NsBinding { prefix_id: x1.0, uri_id: x3.0, depth: 0 },
                    NsBinding { prefix_id: x2.0, uri_id: x4.0, depth: 0 },
                ]
            }),
            r.spec_depth() == 0,
            bindings_within(r.spec_bindings(), r.spec_depth()),
    {
        let xml: &[u8] = &[0x78u8, 0x6Du8, 0x6Cu8];
        let xmlns: &[u8] = &[0x78u8, 0x6Du8, 0x6Cu8, 0x6Eu8, 0x73u8];
        let xml_uri: &[u8] = &[
            0x68u8, 0x74u8, 0x74u8, 0x70u8, 0x3Au8, 0x2Fu8, 0x2Fu8, 0x77u8, 0x77u8, 0x77u8, 0x2Eu8,
            0x77u8, 0x33u8, 0x2Eu8, 0x6Fu8, 0x72u8, 0x67u8, 0x2Fu8, 0x58u8, 0x4Du8, 0x4Cu8, 0x2Fu8,
            0x31u8, 0x39u8, 0x39u8, 0x38u8, 0x2Fu8, 0x6Eu8, 0x61u8, 0x6Du8, 0x65u8, 0x73u8, 0x70u8,
            0x61u8, 0x63u8, 0x65u8,
        ];
        let xmlns_uri: &[u8] = &[
            0x68u8, 0x74u8, 0x74u8, 0x70u8, 0x3Au8, 0x2Fu8, 0x2Fu8, 0x77u8, 0x77u8, 0x77u8, 0x2Eu8,
            0x77u8, 0x33u8, 0x2Eu8, 0x6Fu8, 0x72u8, 0x67u8, 0x2Fu8, 0x32u8, 0x30u8, 0x30u8, 0x30u8,
            0x2Fu8, 0x78u8, 0x6Du8, 0x6Cu8, 0x6Eu8, 0x73u8, 0x2Fu8,
        ];
        assert(xml@ =~= lit_xml_prefix());
        assert(xmlns@ =~= lit_xmlns_prefix());
        assert(xml_uri@ =~= lit_xml_uri());
        assert(xmlns_uri@ =~= lit_xmlns_uri());
        let xml_prefix_id = strings.intern(xml);
        let xmlns_prefix_id = strings.intern(xmlns);
        let xml_uri_id = strings.intern(xml_uri);
        let xmlns_uri_id = strings.intern(xmlns_uri);
        let mut resolver = NamespaceResolver {
            bindings: Vec::with_capacity(16),
            depth: 0,
            xml_prefix_id,
            xmlns_prefix_id,
            xml_uri_id,
            xmlns_uri_id,
        };
        // Pre-bind xml and xmlns prefixes
        resolver.bindings.push(NsBinding { prefix_id: xml_prefix_id, uri_id: xml_uri_id, depth: 0 });
        resolver.bindings.push(
            NsBinding { prefix_id: xmlns_prefix_id, uri_id: xmlns_uri_id, depth: 0 },
        );
        assert(resolver.bindings@ =~= seq![
            NsBinding { prefix_id: xml_prefix_id, uri_id: xml_uri_id, depth: 0 },
            NsBinding { prefix_id: xmlns_prefix_id, uri_id: xmlns_uri_id, depth: 0 },
        ]);
        resolver
    }

    /// Enter a new element scope
    pub fn push_scope(&mut self)
        requires
            old(self).spec_depth() < u16::MAX,
        ensures
            final(self).spec_depth() == old(self).spec_depth() + 1,
            final(self).spec_bindings() == old(self).spec_bindings(),
            final(self).spec_reserved() == old(self).spec_reserved(),
    {
        self.depth += 1;
    }

    /// Leave an element scope, removing any bindings declared in it
    pub fn pop_scope(&mut self)
        ensures
            final(self).spec_bindings() == pop_bindings(old(self).spec_bindings(), old(self).spec_depth()),
            final(self).spec_depth() == (if old(self).spec_depth() > 0 {
                (old(self).spec_depth() - 1) as u16
            } else {
                0u16
            }),
            final(self).spec_reserved() == old(self).spec_reserved(),
    {
        let ghost b0 = self.bindings@;
        while self.bindings.len() > 0 && self.bindings[self.bindings.len() - 1].depth >= self.depth
            invariant
                pop_bindings(self.bindings@, self.depth) == pop_bindings(b0, self.depth),
                self.depth == old(self).depth,
                self.xml_prefix_id == old(self).xml_prefix_id,
                self.xmlns_prefix_id == old(self).xmlns_prefix_id,
                b0 == old(self).bindings@,
            decreases self.bindings.len(),
        {
            self.bindings.pop();
        }
        self.depth = self.depth.saturating_sub(1);
    }

    /// Declare a namespace binding for the current scope (`xml` and `xmlns` cannot be
    /// rebound)
    pub fn declare(&mut self, prefix_id: u32, uri_id: u32)
        ensures
            final(self).spec_bindings() == old(self).declared(prefix_id, uri_id),
            final(self).spec_depth() == old(self).spec_depth(),
            final(self).spec_reserved() == old(self).spec_reserved(),
    {
        if prefix_id == self.xml_prefix_id || prefix_id == self.xmlns_prefix_id {
            return;
        }
        self.bindings.push(NsBinding { prefix_id, uri_id, depth: self.depth });
    }

    /// Declare the default namespace for current scope
    pub fn declare_default(&mut self, uri_id: u32)
        ensures
            final(self).spec_bindings() == old(self).declared(0, uri_id),
            final(self).spec_depth() == old(self).spec_depth(),
            final(self).spec_reserved() == old(self).spec_reserved(),
    {
        self.declare(0, uri_id);
    }

    /// Resolve a prefix to a namespace URI ID
    pub fn resolve(&self, prefix_id: u32) -> (r: Option<u32>)
        ensures
            r == resolve_in(self.spec_bindings(), prefix_id),
    {
        let mut i = self.bindings.len();
        assert(self.bindings@.take(i as int) =~= self.bindings@);
        while i > 0
            invariant
                i <= self.bindings@.len(),
                resolve_in(self.bindings@, prefix_id) == resolve_in(
                    self.bindings@.take(i as int),
                    prefix_id,
                ),
            decreases i,
        {
            let b = self.bindings[i - 1];
            assert(self.bindings@.take(i as int).drop_last() =~= self.bindings@.take(i - 1));
            if b.prefix_id == prefix_id {
                return Some(b.uri_id);
            }
            i -= 1;
        }
        None
    }

    /// Resolve the default namespace
    pub fn resolve_default(&self) -> (r: Option<u32>)
        ensures
            r == resolve_in(self.spec_bindings(), 0),
    {
        self.resolve(0)
    }

    /// Get current depth
    pub fn depth(&self) -> (r: u16)
        ensures
            r == self.spec_depth(),
    {
        self.depth
    }

    /// Get all active namespace bindings at current scope: the most recent binding of
    /// each prefix, most recent first
    pub fn active_bindings(&self) -> (r: Vec<(u32, u32)>)
        ensures
            r@ == active_in(self.spec_bindings(), Set::empty()),
    {
        let mut out: Vec<(u32, u32)> = Vec::new();
        let mut seen: Vec<u32> = Vec::new();
        let ghost mut seen_set: Set<u32> = Set::empty();
        let mut i = self.bindings.len();
        assert(self.bindings@.take(i as int) =~= self.bindings@);
        while i > 0
            invariant
                i <= self.bindings@.len(),
                forall|x: u32| seen_set.contains(x) <==> seen@.contains(x),
                out@ + active_in(self.bindings@.take(i as int), seen_set) == active_in(
                    self.bindings@,
                    Set::empty(),
                ),
            decreases i,
        {
            let b = self.bindings[i - 1];
            assert(self.bindings@.take(i as int).drop_last() =~= self.bindings@.take(i - 1));
            let mut k: usize = 0;
            let mut known = false;
            while k < seen.len()
                invariant
                    k <= seen@.len(),
                    known == (exists|j: int| 0 <= j < k && seen@[j] == b.prefix_id),
                decreases seen.len() - k,
            {
                if seen[k] == b.prefix_id {
                    known = true;
                }
                k += 1;
            }
            assert(known == seen@.contains(b.prefix_id));
            if !known {
                let ghost old_out = out@;
                let ghost old_seen = seen@;
                out.push((b.prefix_id, b.uri_id));
                seen.push(b.prefix_id);
                proof {
                    seen_set = seen_set.insert(b.prefix_id);
                    assert forall|x: u32| seen_set.contains(x) <==> seen@.contains(x) by {
                        if old_seen.contains(x) {
                            let j = choose|j: int| 0 <= j < old_seen.len() && old_seen[j] == x;
                            assert(seen@[j] == x);
                        }
                        if seen@.contains(x) && x != b.prefix_id {
                            let j = choose|j: int| 0 <= j < seen@.len() && seen@[j] == x;
                            assert(old_seen[j] == x);
                        }
                        if x == b.prefix_id {
                            assert(seen@[seen@.len() - 1] == x);
                        }
                    }
                }
                assert(out@ =~= old_out + seq![(b.prefix_id, b.uri_id)]);
            }
            i -= 1;
        }
        assert(self.bindings@.take(0) =~= Seq::<NsBinding>::empty());
        out
    }
}

/// Leaving a scope undoes entering it and the declarations made in it: the bindings
/// and depth are those from before.
pub proof fn law_scope_restores(b: Seq<NsBinding>, depth: u16, added: Seq<NsBinding>)
    requires
        depth < u16::MAX,
        bindings_within(b, depth),
        forall|i: int| 0 <= i < added.len() ==> (#[trigger] added[i]).depth == depth + 1,
    ensures
        pop_bindings(b + added, (depth + 1) as u16) == b,
    decreases added.len(),
{
    if added.len() == 0 {
        assert(b + added =~= b);
        if b.len() > 0 {
            assert(b[b.len() - 1].depth <= depth);
        }
    } else {
        assert((b + added).drop_last() =~= b + added.drop_last());
        law_scope_restores(b, depth, added.drop_last());
    }
}

/// A declared prefix resolves to its URI until its scope is left.
pub proof fn law_declare_resolves(b: Seq<NsBinding>, prefix_id: u32, uri_id: u32, depth: u16)
    ensures
        resolve_in(b.push(NsBinding { prefix_id, uri_id, depth }), prefix_id) == Some(uri_id),
{
}

} // verus!
