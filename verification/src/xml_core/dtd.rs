//! DTD Declaration Store and Validation
//!
//! Collects DTD declarations during parsing and validates them post-parse.
//! This matches xmerl's approach: parse first, validate after.
//!
//! Each kind of declaration is kept as a list of (name, declaration) pairs in which no
//! name occurs twice.

use vstd::prelude::*;

use vstd::slice::slice_to_vec;
use super::primitives::{bytes_eq, has_prefix, is_ws, lemma_ws_prefix_len, ws_prefix_len};
use super::primitives::starts_with as bytes_starts_with;

verus! {

/// Collected DTD declarations for post-parse validation
#[derive(Debug)]
pub struct DtdDeclarations {
    /// Element declarations: name -> content spec
    pub elements: Vec<(Vec<u8>, ElementDecl)>,
    /// Attribute lists: element name -> attributes
    pub attlists: Vec<(Vec<u8>, Vec<AttDef>)>,
    /// General entities: name -> definition
    pub entities: Vec<(Vec<u8>, EntityDecl)>,
    /// Parameter entities: name -> definition
    pub pe_entities: Vec<(Vec<u8>, EntityDecl)>,
    /// Notations: name -> definition
    pub notations: Vec<(Vec<u8>, NotationDecl)>,
}

#[derive(Debug, Clone)]
pub struct ElementDecl {
    pub content_spec: ContentSpec,
}

#[derive(Debug, Clone)]
pub enum ContentSpec {
    Empty,
    Any,
    Mixed(Vec<Vec<u8>>),  // List of allowed element names
    Children(Vec<u8>),  // Raw content model (simplified)
}

#[derive(Debug, Clone)]
pub struct AttDef {
    pub name: Vec<u8>,
    pub att_type: AttType,
    pub default: AttDefault,
}

#[derive(Debug, Clone)]
pub enum AttType {
    CData,
    Id,
    IdRef,
    IdRefs,
    Entity,
    Entities,
    NmToken,
    NmTokens,
    Notation(Vec<Vec<u8>>),
    Enumeration(Vec<Vec<u8>>),
}

#[derive(Debug, Clone)]
pub enum AttDefault {
    Required,
    Implied,
    Fixed(Vec<u8>),
    Default(Vec<u8>),
}

#[derive(Debug, Clone)]
pub struct EntityDecl {
    pub is_external: bool,
    pub value: Option<Vec<u8>>,  // For internal entities
    pub system_id: Option<Vec<u8>>,  // For external entities
    pub public_id: Option<Vec<u8>>,  // For external entities
    pub ndata: Option<Vec<u8>>,  // For unparsed entities
    pub references: Vec<Vec<u8>>,  // Entities referenced in value
}

#[derive(Debug, Clone)]
pub struct NotationDecl {
    pub system_id: Option<Vec<u8>>,
    pub public_id: Option<Vec<u8>>,
}

/// The names of a list of (name, declaration) pairs.
pub open spec fn keys<T>(v: Seq<(Vec<u8>, T)>) -> Seq<Seq<u8>> {
    v.map_values(|p: (Vec<u8>, T)| p.0@)
}

/// No name occurs twice.
pub open spec fn distinct_keys<T>(v: Seq<(Vec<u8>, T)>) -> bool {
    forall|i: int, j: int| 0 <= i < j < v.len() ==> v[i].0@ != v[j].0@
}

/// The names referenced by a list of reference names.
pub open spec fn names(v: Seq<Vec<u8>>) -> Seq<Seq<u8>> {
    v.map_values(|n: Vec<u8>| n@)
}

/// The entity names that the general entity `a` references (none for an undeclared name).
pub open spec fn refs_of(ents: Seq<(Vec<u8>, EntityDecl)>, a: Seq<u8>) -> Seq<Seq<u8>>
    decreases ents.len(),
{
    if ents.len() == 0 {
        seq![]
    } else if ents[0].0@ == a {
        names(ents[0].1.references@)
    } else {
        refs_of(ents.drop_first(), a)
    }
}

/// A path of exactly `n` references from entity `a` to entity `b`.
pub open spec fn ref_path(ents: Seq<(Vec<u8>, EntityDecl)>, a: Seq<u8>, b: Seq<u8>, n: nat) -> bool
    decreases n,
{
    if n == 0 {
        a == b
    } else {
        exists|c: Seq<u8>| #[trigger] refs_of(ents, a).contains(c) && ref_path(ents, c, b, (n - 1) as nat)
    }
}

/// `b` can be reached from `a` by following one or more references.
pub open spec fn reaches(ents: Seq<(Vec<u8>, EntityDecl)>, a: Seq<u8>, b: Seq<u8>) -> bool {
    exists|n: nat| n >= 1 && #[trigger] ref_path(ents, a, b, n)
}

/// Whether entity `a` references itself, directly or indirectly.
pub open spec fn self_referencing(ents: Seq<(Vec<u8>, EntityDecl)>, a: Seq<u8>) -> bool {
    reaches(ents, a, a)
}

/// The message for a general entity that references itself.
pub open spec fn msg_self_reference(name: Seq<u8>) -> Seq<char> {
    "Entity '"@ + spec_utf8_lossy(name) + "' references itself (directly or indirectly)"@
}

/// The message for a NOTATION attribute type that names an undeclared notation.
pub open spec fn msg_undeclared_notation(name: Seq<u8>) -> Seq<char> {
    "Notation '"@ + spec_utf8_lossy(name) + "' used in attribute but not declared"@
}

/// `i` is the first declared general entity that references itself.
pub open spec fn first_self_referencing(ents: Seq<(Vec<u8>, EntityDecl)>, i: int) -> bool {
    &&& 0 <= i < ents.len()
    &&& self_referencing(ents, ents[i].0@)
    &&& forall|j: int| 0 <= j < i ==> !self_referencing(ents, #[trigger] ents[j].0@)
}

/// The declarations are well formed: no kind declares a name twice.
pub open spec fn dtd_wf(d: &DtdDeclarations) -> bool {
    &&& distinct_keys(d.elements@)
    &&& distinct_keys(d.attlists@)
    &&& distinct_keys(d.entities@)
    &&& distinct_keys(d.pe_entities@)
    &&& distinct_keys(d.notations@)
}

/// `String::from_utf8_lossy`: the text of the bytes, with each invalid sequence replaced
/// by U+FFFD.
pub uninterp spec fn spec_utf8_lossy(bytes: Seq<u8>) -> Seq<char>;

/// `String::from_utf8_lossy(..).into_owned()`. The contract names the result; that valid
/// UTF-8 is decoded as is, the library's documentation states.
#[verifier::external_body]
pub fn utf8_lossy(bytes: &[u8]) -> (r: String)
    ensures
        r@ == spec_utf8_lossy(bytes@),
        vstd::utf8::valid_utf8(bytes@) ==> r@ == vstd::utf8::decode_utf8(bytes@),
{
    String::from_utf8_lossy(bytes).into_owned()
}

/// Position of the first pair named `k`, if any.
fn find_key<T>(v: &Vec<(Vec<u8>, T)>, k: &[u8]) -> (r: Option<usize>)
    ensures
        r matches Some(i) ==> i < v@.len() && v@[i as int].0@ == k@ && forall|j: int|
            0 <= j < i ==> v@[j].0@ != k@,
        r is None ==> !keys(v@).contains(k@),
        r is Some <==> keys(v@).contains(k@),
{
    let mut i: usize = 0;
    while i < v.len()
        invariant
            i <= v@.len(),
            forall|j: int| 0 <= j < i ==> v@[j].0@ != k@,
        decreases v.len() - i,
    {
        if bytes_eq(v[i].0.as_slice(), k) {
            assert(keys(v@)[i as int] == k@);
            return Some(i);
        }
        i += 1;
    }
    proof {
        if keys(v@).contains(k@) {
            let j = choose|j: int| 0 <= j < keys(v@).len() && keys(v@)[j] == k@;
            assert(v@[j].0@ == k@);
        }
    }
    None
}

proof fn lemma_push_distinct<T>(v: Seq<(Vec<u8>, T)>, p: (Vec<u8>, T))
    requires
        distinct_keys(v),
        !keys(v).contains(p.0@),
    ensures
        distinct_keys(v.push(p)),
        keys(v.push(p)) == keys(v).push(p.0@),
{
    assert(keys(v.push(p)) =~= keys(v).push(p.0@));
    assert forall|i: int, j: int| 0 <= i < j < v.push(p).len() implies v.push(p)[i].0@ != v.push(
        p,
    )[j].0@ by {
        if j == v.len() {
            assert(keys(v)[i] == v[i].0@);
        }
    }
}

impl DtdDeclarations {
    pub fn new() -> (r: Self)
        ensures
            r.elements@.len() == 0,
            r.attlists@.len() == 0,
            r.entities@.len() == 0,
            r.pe_entities@.len() == 0,
            r.notations@.len() == 0,
            dtd_wf(&r),
    {
        DtdDeclarations {
            elements: Vec::new(),
            attlists: Vec::new(),
            entities: Vec::new(),
            pe_entities: Vec::new(),
            notations: Vec::new(),
        }
    }

    /// Add an element declaration
    pub fn add_element(&mut self, name: Vec<u8>, content_spec: ContentSpec) -> (r: Result<
        (),
        &'static str,
    >)
        requires
            dtd_wf(old(self)),
        ensures
            dtd_wf(final(self)),
            r is Err <==> keys(old(self).elements@).contains(name@),
            r is Err ==> r == Err::<(), &'static str>("Element type declared more than once")
                && final(self).elements@ == old(self).elements@,
            r is Ok ==> final(self).elements@ == old(self).elements@.push(
                (name, ElementDecl { content_spec }),
            ),
            final(self).attlists@ == old(self).attlists@,
            final(self).entities@ == old(self).entities@,
            final(self).pe_entities@ == old(self).pe_entities@,
            final(self).notations@ == old(self).notations@,
    {
        if find_key(&self.elements, name.as_slice()).is_some() {
            return Err("Element type declared more than once");
        }
        proof {
            lemma_push_distinct(self.elements@, (name, ElementDecl { content_spec }));
        }
        self.elements.push((name, ElementDecl { content_spec }));
        Ok(())
    }

    /// Add an entity declaration: the first declaration of a name wins (per XML spec).
    pub fn add_entity(&mut self, name: Vec<u8>, decl: EntityDecl, is_pe: bool) -> (r: Result<
        (),
        &'static str,
    >)
        requires
            dtd_wf(old(self)),
        ensures
            dtd_wf(final(self)),
            r is Ok,
            is_pe ==> final(self).entities@ == old(self).entities@ && if keys(
                old(self).pe_entities@,
            ).contains(name@) {
                final(self).pe_entities@ == old(self).pe_entities@
            } else {
                final(self).pe_entities@ == old(self).pe_entities@.push((name, decl))
            },
            !is_pe ==> final(self).pe_entities@ == old(self).pe_entities@ && if keys(
                old(self).entities@,
            ).contains(name@) {
                final(self).entities@ == old(self).entities@
            } else {
                final(self).entities@ == old(self).entities@.push((name, decl))
            },
            final(self).elements@ == old(self).elements@,
            final(self).attlists@ == old(self).attlists@,
            final(self).notations@ == old(self).notations@,
    {
        if is_pe {
            if find_key(&self.pe_entities, name.as_slice()).is_none() {
                proof {
                    lemma_push_distinct(self.pe_entities@, (name, decl));
                }
                self.pe_entities.push((name, decl));
            }
        } else {
            if find_key(&self.entities, name.as_slice()).is_none() {
                proof {
                    lemma_push_distinct(self.entities@, (name, decl));
                }
                self.entities.push((name, decl));
            }
        }
        Ok(())
    }

    /// Add a notation declaration
    pub fn add_notation(&mut self, name: Vec<u8>, decl: NotationDecl) -> (r: Result<
        (),
        &'static str,
    >)
        requires
            dtd_wf(old(self)),
        ensures
            dtd_wf(final(self)),
            r is Err <==> keys(old(self).notations@).contains(name@),
            r is Err ==> r == Err::<(), &'static str>("Notation declared more than once")
                && final(self).notations@ == old(self).notations@,
            r is Ok ==> final(self).notations@ == old(self).notations@.push((name, decl)),
            final(self).elements@ == old(self).elements@,
            final(self).attlists@ == old(self).attlists@,
            final(self).entities@ == old(self).entities@,
            final(self).pe_entities@ == old(self).pe_entities@,
    {
        if find_key(&self.notations, name.as_slice()).is_some() {
            return Err("Notation declared more than once");
        }
        proof {
            lemma_push_distinct(self.notations@, (name, decl));
        }
        self.notations.push((name, decl));
        Ok(())
    }

    /// Validate all declarations (post-parse): no general entity references itself, and
    /// every NOTATION attribute type names a declared notation. The first entity (in
    /// declaration order) that references itself is reported.
    pub fn validate(&self) -> (r: Result<(), String>)
        requires
            dtd_wf(self),
        ensures
            r is Ok <==> (forall|i: int|
                0 <= i < self.entities@.len() ==> !self_referencing(
                    self.entities@,
                    #[trigger] self.entities@[i].0@,
                )) && notations_declared(self),
            r matches Err(m) ==> (exists|i: int| first_self_referencing(self.entities@, i))
                ==> (exists|i: int|
                first_self_referencing(self.entities@, i) && m@ == msg_self_reference(
                    self.entities@[i].0@,
                )),
            r matches Err(m) ==> !(exists|i: int| first_self_referencing(self.entities@, i))
                ==> (exists|n: Seq<u8>|
                !keys(self.notations@).contains(n) && m@ == msg_undeclared_notation(n)),
    {
        match self.check_entity_recursion() {
            Err(e) => {
                return Err(e);
            },
            Ok(()) => {},
        }
        proof {
            if exists|i: int| first_self_referencing(self.entities@, i) {
                let i = choose|i: int| first_self_referencing(self.entities@, i);
                assert(!self_referencing(self.entities@, self.entities@[i].0@));
            }
        }
        match self.check_notation_references() {
            Err(e) => {
                return Err(e);
            },
            Ok(()) => {},
        }
        self.check_entity_attributes()
    }

    /// Check for circular entity references
    fn check_entity_recursion(&self) -> (r: Result<(), String>)
        requires
            dtd_wf(self),
        ensures
            r is Ok <==> forall|i: int|
                0 <= i < self.entities@.len() ==> !self_referencing(
                    self.entities@,
                    #[trigger] self.entities@[i].0@,
                ),
            r matches Err(m) ==> exists|i: int|
                first_self_referencing(self.entities@, i) && m@ == msg_self_reference(
                    self.entities@[i].0@,
                ),
    {
        let mut i: usize = 0;
        while i < self.entities.len()
            invariant
                i <= self.entities@.len(),
                dtd_wf(self),
                forall|j: int|
                    0 <= j < i ==> !self_referencing(self.entities@, #[trigger] self.entities@[j].0@),
            decreases self.entities.len() - i,
        {
            let name = &self.entities[i].0;
            if entity_references_itself(&self.entities, name.as_slice()) {
                let mut msg = String::from_str("Entity '");
                let lossy = utf8_lossy(name.as_slice());
                msg.append(lossy.as_str());
                msg.append("' references itself (directly or indirectly)");
                proof {
                    assert(msg@ =~= msg_self_reference(self.entities@[i as int].0@));
                    assert(first_self_referencing(self.entities@, i as int));
                }
                return Err(msg);
            }
            i += 1;
        }
        Ok(())
    }

    /// Check NOTATION attributes reference declared notations
    fn check_notation_references(&self) -> (r: Result<(), String>)
        ensures
            r is Ok <==> notations_declared(self),
            r matches Err(m) ==> exists|n: Seq<u8>|
                !keys(self.notations@).contains(n) && m@ == msg_undeclared_notation(n),
    {
        let mut i: usize = 0;
        while i < self.attlists.len()
            invariant
                i <= self.attlists@.len(),
                forall|a: int|
                    0 <= a < i ==> #[trigger] attlist_notations_declared(self, self.attlists@[a].1@),
            decreases self.attlists.len() - i,
        {
            let attrs = &self.attlists[i].1;
            let mut j: usize = 0;
            while j < attrs.len()
                invariant
                    i < self.attlists@.len(),
                    attrs == &self.attlists@[i as int].1,
                    j <= attrs@.len(),
                    forall|b: int| 0 <= b < j ==> #[trigger] att_notations_declared(self, attrs@[b]),
                decreases attrs.len() - j,
            {
                match &attrs[j].att_type {
                    AttType::Notation(ns) => {
                        let mut k: usize = 0;
                        while k < ns.len()
                            invariant
                                i < self.attlists@.len(),
                                attrs == &self.attlists@[i as int].1,
                                j < attrs@.len(),
                                attrs@[j as int].att_type == AttType::Notation(*ns),
                                notation_names(attrs@[j as int].att_type) == names(ns@),
                                k <= ns@.len(),
                                forall|c: int|
                                    0 <= c < k ==> keys(self.notations@).contains(
                                        #[trigger] names(ns@)[c],
                                    ),
                            decreases ns.len() - k,
                        {
                            if find_key(&self.notations, ns[k].as_slice()).is_none() {
                                proof {
                                    assert(names(ns@)[k as int] == ns@[k as int]@);
                                    assert(!att_notations_declared(self, attrs@[j as int]));
                                    assert(!attlist_notations_declared(self, self.attlists@[i as int].1@));
                                    assert(!notations_declared(self));
                                }
                                let mut msg = String::from_str("Notation '");
                                let lossy = utf8_lossy(ns[k].as_slice());
                                msg.append(lossy.as_str());
                                msg.append("' used in attribute but not declared");
                                proof {
                                    assert(msg@ =~= msg_undeclared_notation(ns@[k as int]@));
                                }
                                return Err(msg);
                            }
                            assert(names(ns@)[k as int] == ns@[k as int]@);
                            k += 1;
                        }
                    },
                    _ => {},
                }
                j += 1;
            }
            i += 1;
        }
        Ok(())
    }

    /// Check ENTITY attributes reference unparsed entities
    fn check_entity_attributes(&self) -> (r: Result<(), String>)
        ensures
            r is Ok,
    {
        // Default values of ENTITY/ENTITIES attributes are not parsed, so there is nothing
        // to check here yet.
        Ok(())
    }
}

/// The notation names of a NOTATION attribute type (none for other types).
pub open spec fn notation_names(t: AttType) -> Seq<Seq<u8>> {
    match t {
        AttType::Notation(ns) => names(ns@),
        _ => seq![],
    }
}

/// Every name of a NOTATION attribute type of `a` is a declared notation.
pub open spec fn att_notations_declared(d: &DtdDeclarations, a: AttDef) -> bool {
    forall|c: int|
        0 <= c < notation_names(a.att_type).len() ==> keys(d.notations@).contains(
            #[trigger] notation_names(a.att_type)[c],
        )
}

pub open spec fn attlist_notations_declared(d: &DtdDeclarations, attrs: Seq<AttDef>) -> bool {
    forall|b: int| 0 <= b < attrs.len() ==> #[trigger] att_notations_declared(d, attrs[b])
}

pub open spec fn notations_declared(d: &DtdDeclarations) -> bool {
    forall|a: int| 0 <= a < d.attlists@.len() ==> #[trigger] attlist_notations_declared(d, d.attlists@[a].1@)
}

// =============================================================================
// Entity reference cycles
// =============================================================================
/// Sum of the numbers of references of the declared entities not in `visited`.
pub open spec fn pending_refs(ents: Seq<(Vec<u8>, EntityDecl)>, visited: Set<Seq<u8>>) -> nat
    decreases ents.len(),
{
    if ents.len() == 0 {
        0
    } else {
        (if visited.contains(ents[0].0@) {
            0
        } else {
            ents[0].1.references@.len()
        }) + pending_refs(ents.drop_first(), visited)
    }
}

proof fn lemma_pending_refs_visit(ents: Seq<(Vec<u8>, EntityDecl)>, visited: Set<Seq<u8>>, x: Seq<u8>)
    requires
        distinct_keys(ents),
        !visited.contains(x),
    ensures
        pending_refs(ents, visited.insert(x)) + refs_of(ents, x).len() == pending_refs(ents, visited),
    decreases ents.len(),
{
    if ents.len() > 0 {
        assert(distinct_keys(ents.drop_first())) by {
            assert forall|i: int, j: int| 0 <= i < j < ents.drop_first().len() implies ents.drop_first()[i].0@ != ents.drop_first()[j].0@ by {
                assert(ents.drop_first()[i] == ents[i + 1]);
                assert(ents.drop_first()[j] == ents[j + 1]);
            }
        }
        lemma_pending_refs_visit(ents.drop_first(), visited, x);
        if ents[0].0@ == x {
            lemma_refs_of_absent(ents.drop_first(), x);
        }
    }
}

proof fn lemma_refs_of_absent(ents: Seq<(Vec<u8>, EntityDecl)>, x: Seq<u8>)
    requires
        forall|j: int| 0 <= j < ents.len() ==> ents[j].0@ != x,
    ensures
        refs_of(ents, x).len() == 0,
        pending_refs(ents, Set::empty().insert(x)) == pending_refs(ents, Set::empty()),
    decreases ents.len(),
{
    if ents.len() > 0 {
        lemma_refs_of_absent(ents.drop_first(), x);
    }
}

proof fn lemma_path_extend(ents: Seq<(Vec<u8>, EntityDecl)>, a: Seq<u8>, b: Seq<u8>, c: Seq<u8>, n: nat)
    requires
        ref_path(ents, a, b, n),
        refs_of(ents, b).contains(c),
    ensures
        ref_path(ents, a, c, n + 1),
    decreases n,
{
    if n == 0 {
        assert(ref_path(ents, c, c, 0));
    } else {
        let m = choose|m: Seq<u8>| #[trigger] refs_of(ents, a).contains(m) && ref_path(ents, m, b, (n - 1) as nat);
        lemma_path_extend(ents, m, b, c, (n - 1) as nat);
    }
}

/// A set closed under references contains every entity reachable from its members.
proof fn lemma_closed_reach(ents: Seq<(Vec<u8>, EntityDecl)>, s: Set<Seq<u8>>, a: Seq<u8>, b: Seq<u8>, n: nat)
    requires
        s.contains(a),
        forall|x: Seq<u8>, y: Seq<u8>| s.contains(x) && #[trigger] refs_of(ents, x).contains(y) ==> s.contains(y),
        ref_path(ents, a, b, n),
    ensures
        s.contains(b),
    decreases n,
{
    if n > 0 {
        let m = choose|m: Seq<u8>| #[trigger] refs_of(ents, a).contains(m) && ref_path(ents, m, b, (n - 1) as nat);
        lemma_closed_reach(ents, s, m, b, (n - 1) as nat);
    }
}

/// References of a named entity, found by name.
fn references_of<'b>(ents: &'b Vec<(Vec<u8>, EntityDecl)>, name: &[u8]) -> (r: Option<&'b Vec<Vec<u8>>>)
    requires
        distinct_keys(ents@),
    ensures
        r matches Some(v) ==> names(v@) == refs_of(ents@, name@),
        r is None ==> refs_of(ents@, name@).len() == 0,
{
    let mut i: usize = 0;
    assert(ents@.skip(0) =~= ents@);
    while i < ents.len()
        invariant
            i <= ents@.len(),
            forall|j: int| 0 <= j < i ==> ents@[j].0@ != name@,
            refs_of(ents@, name@) == refs_of(ents@.skip(i as int), name@),
        decreases ents.len() - i,
    {
        assert(ents@.skip(i as int).drop_first() =~= ents@.skip(i + 1));
        assert(ents@.skip(i as int)[0] == ents@[i as int]);
        if bytes_eq(ents[i].0.as_slice(), name) {
            return Some(&ents[i].1.references);
        }
        i += 1;
    }
    assert(ents@.skip(i as int).len() == 0);
    None
}

fn contains_name(v: &Vec<Vec<u8>>, name: &[u8]) -> (r: bool)
    ensures
        r == names(v@).contains(name@),
{
    let mut i: usize = 0;
    while i < v.len()
        invariant
            i <= v@.len(),
            forall|j: int| 0 <= j < i ==> v@[j]@ != name@,
        decreases v.len() - i,
    {
        if bytes_eq(v[i].as_slice(), name) {
            assert(names(v@)[i as int] == name@);
            return true;
        }
        i += 1;
    }
    proof {
        if names(v@).contains(name@) {
            let j = choose|j: int| 0 <= j < names(v@).len() && names(v@)[j] == name@;
            assert(v@[j]@ == name@);
        }
    }
    false
}

/// A path of `n + 1` references from `a` to `b` ends with a reference to `b` from an
/// entity that `a` reaches in `n` references.
proof fn lemma_path_last(ents: Seq<(Vec<u8>, EntityDecl)>, a: Seq<u8>, b: Seq<u8>, n: nat)
    requires
        ref_path(ents, a, b, n + 1),
    ensures
        exists|m: Seq<u8>| #[trigger] refs_of(ents, m).contains(b) && ref_path(ents, a, m, n),
    decreases n,
{
    let c = choose|c: Seq<u8>| #[trigger] refs_of(ents, a).contains(c) && ref_path(ents, c, b, n);
    if n == 0 {
        assert(ref_path(ents, a, a, 0));
        assert(refs_of(ents, a).contains(b));
    } else {
        lemma_path_last(ents, c, b, (n - 1) as nat);
        let m = choose|m: Seq<u8>| #[trigger] refs_of(ents, m).contains(b) && ref_path(ents, c, m, (n - 1) as nat);
        assert(ref_path(ents, a, m, n));
    }
}

/// Whether the entity `name` references itself, by a depth-first walk of the references
/// that stops when `name` comes up again.
fn entity_references_itself(ents: &Vec<(Vec<u8>, EntityDecl)>, name: &[u8]) -> (r: bool)
    requires
        distinct_keys(ents@),
    ensures
        r == self_referencing(ents@, name@),
{
    let mut visited: Vec<Vec<u8>> = Vec::new();
    let mut stack: Vec<Vec<u8>> = Vec::new();
    stack.push(slice_to_vec(name));
    let ghost start = name@;
    let ghost mut vset: Set<Seq<u8>> = Set::empty();
    assert(names(stack@) =~= seq![start]);
    while stack.len() > 0
        invariant
            start == name@,
            distinct_keys(ents@),
            forall|x: Seq<u8>| vset.contains(x) <==> names(visited@).contains(x),
            visited@.len() == 0 ==> names(stack@) == seq![start] && vset == Set::<Seq<u8>>::empty(),
            visited@.len() > 0 ==> vset.contains(start),
            forall|x: Seq<u8>| #[trigger] vset.contains(x) ==> x == start || reaches(ents@, start, x),
            forall|k: int| 0 <= k < stack@.len() ==> (visited@.len() == 0 || reaches(ents@, start, #[trigger] names(stack@)[k])),
            forall|x: Seq<u8>, y: Seq<u8>| vset.contains(x) && #[trigger] refs_of(ents@, x).contains(y) ==> vset.contains(y) || names(stack@).contains(y),
            forall|x: Seq<u8>| vset.contains(x) && #[trigger] refs_of(ents@, x).contains(start) ==> names(stack@).contains(start),
        decreases stack@.len() + pending_refs(ents@, vset),
    {
        let ghost old_stack = names(stack@);
        let ghost first = visited@.len() == 0;
        let current = stack.pop().unwrap();
        let ghost cur = current@;
        assert(old_stack =~= names(stack@).push(cur));
        assert(old_stack.last() == cur);
        assert(old_stack[old_stack.len() - 1] == cur);
        proof {
            if !first {
                assert(reaches(ents@, start, old_stack[old_stack.len() - 1]));
                assert(reaches(ents@, start, cur));
            }
        }
        let cur_slice = current.as_slice();
        assert(cur_slice@ == cur);
        if contains_name(&visited, cur_slice) {
            let same = bytes_eq(cur_slice, name);
            assert(same == (cur == start));
            if same {
                assert(names(visited@).len() > 0);
                assert(!first);
                assert(cur == start);
                assert(self_referencing(ents@, name@));
                return true;
            }
            assert(cur != start);
            proof {
                assert forall|x: Seq<u8>, y: Seq<u8>| vset.contains(x) && #[trigger] refs_of(ents@, x).contains(y) implies vset.contains(y) || names(stack@).contains(y) by {
                    if !vset.contains(y) {
                        assert(old_stack.contains(y));
                        let k = choose|k: int| 0 <= k < old_stack.len() && old_stack[k] == y;
                        if k < old_stack.len() - 1 {
                            assert(names(stack@)[k] == y);
                        }
                    }
                }
                assert forall|x: Seq<u8>| vset.contains(x) && #[trigger] refs_of(ents@, x).contains(start) implies names(stack@).contains(start) by {
                    let k = choose|k: int| 0 <= k < old_stack.len() && old_stack[k] == start;
                    if k < old_stack.len() - 1 {
                        assert(names(stack@)[k] == start);
                    } else {
                        assert(cur == start);
                    }
                }
                assert forall|k: int| 0 <= k < stack@.len() implies (visited@.len() == 0 || reaches(ents@, start, #[trigger] names(stack@)[k])) by {
                    assert(names(stack@)[k] == old_stack[k]);
                }
            }
            continue;
        }
        let refs_opt = references_of(ents, current.as_slice());
        proof {
            lemma_pending_refs_visit(ents@, vset, cur);
        }
        let ghost old_visited = names(visited@);
        let ghost old_vraw = visited@;
        visited.push(current);
        proof {
            assert(visited@ == old_vraw.push(visited@.last()));
            assert(names(visited@) =~= old_visited.push(cur));
            assert forall|x: Seq<u8>| vset.insert(cur).contains(x) <==> names(visited@).contains(x) by {
                if names(visited@).contains(x) {
                    let k = choose|k: int| 0 <= k < names(visited@).len() && names(visited@)[k] == x;
                    if k < names(visited@).len() - 1 {
                        assert(old_visited[k] == x);
                    }
                }
                if vset.contains(x) {
                    assert(old_visited.contains(x));
                    let k = choose|k: int| 0 <= k < old_visited.len() && old_visited[k] == x;
                    assert(names(visited@)[k] == x);
                }
                if x == cur {
                    assert(names(visited@)[names(visited@).len() - 1] == x);
                }
            }
            vset = vset.insert(cur);
            if first {
                assert(cur == start);
            }
        }
        let ghost mid_stack = names(stack@);
        match refs_opt {
            Some(refs) => {
                let mut j: usize = 0;
                while j < refs.len()
                    invariant
                        j <= refs@.len(),
                        names(refs@) == refs_of(ents@, cur),
                        names(stack@) == mid_stack + names(refs@).take(j as int),
                    decreases refs.len() - j,
                {
                    let ghost before = stack@;
                    let item = slice_to_vec(refs[j].as_slice());
                    assert(item@ == refs@[j as int]@);
                    stack.push(item);
                    assert(stack@ == before.push(item));
                    assert(names(before.push(item)) =~= names(before).push(item@));
                    assert(names(refs@).take(j + 1) =~= names(refs@).take(j as int).push(refs@[j as int]@));
                    assert(names(stack@) =~= mid_stack + names(refs@).take(j + 1));
                    j += 1;
                }
                assert(names(refs@).take(j as int) =~= names(refs@));
            },
            None => {
                assert(names(stack@) =~= mid_stack + refs_of(ents@, cur));
            },
        }
        proof {
            let rc = refs_of(ents@, cur);
            assert(names(stack@) =~= mid_stack + rc);
            assert forall|k: int| 0 <= k < stack@.len() implies (visited@.len() == 0 || reaches(ents@, start, #[trigger] names(stack@)[k])) by {
                if k < mid_stack.len() {
                    assert(names(stack@)[k] == old_stack[k]);
                } else {
                    let y = rc[k - mid_stack.len()];
                    assert(names(stack@)[k] == y);
                    assert(rc.contains(y));
                    if cur == start {
                        assert(ref_path(ents@, start, start, 0));
                        lemma_path_extend(ents@, start, start, y, 0);
                        assert(ref_path(ents@, start, y, 1));
                    } else {
                        let n = choose|n: nat| n >= 1 && #[trigger] ref_path(ents@, start, cur, n);
                        lemma_path_extend(ents@, start, cur, y, n);
                        assert(ref_path(ents@, start, y, n + 1));
                    }
                }
            }
            assert forall|x: Seq<u8>| #[trigger] vset.contains(x) implies x == start || reaches(ents@, start, x) by {
                if x == cur && x != start && !first {
                    assert(reaches(ents@, start, old_stack[old_stack.len() - 1]));
                }
            }
            assert forall|x: Seq<u8>, y: Seq<u8>| vset.contains(x) && #[trigger] refs_of(ents@, x).contains(y) implies vset.contains(y) || names(stack@).contains(y) by {
                if x == cur {
                    let k = choose|k: int| 0 <= k < rc.len() && rc[k] == y;
                    assert(names(stack@)[mid_stack.len() + k] == y);
                } else if !vset.contains(y) {
                    assert(old_stack.contains(y));
                    let k = choose|k: int| 0 <= k < old_stack.len() && old_stack[k] == y;
                    if k < old_stack.len() - 1 {
                        assert(names(stack@)[k] == y);
                    }
                }
            }
            assert forall|x: Seq<u8>| vset.contains(x) && #[trigger] refs_of(ents@, x).contains(start) implies names(stack@).contains(start) by {
                if x == cur {
                    let k = choose|k: int| 0 <= k < rc.len() && rc[k] == start;
                    assert(names(stack@)[mid_stack.len() + k] == start);
                } else {
                    let k = choose|k: int| 0 <= k < old_stack.len() && old_stack[k] == start;
                    if k < old_stack.len() - 1 {
                        assert(names(stack@)[k] == start);
                    } else {
                        assert(cur == start);
                        assert(vset.contains(start));
                    }
                }
            }
        }
    }
    proof {
        if self_referencing(ents@, start) {
            let n = choose|n: nat| n >= 1 && #[trigger] ref_path(ents@, start, start, n);
            lemma_path_last(ents@, start, start, (n - 1) as nat);
            let m = choose|m: Seq<u8>| #[trigger] refs_of(ents@, m).contains(start) && ref_path(ents@, start, m, (n - 1) as nat);
            if visited@.len() == 0 {
                assert(names(stack@).len() == 1);
            }
            lemma_closed_reach(ents@, vset, start, m, (n - 1) as nat);
            assert(names(stack@).contains(start));
        }
    }
    false
}

// =============================================================================
// Parsing helpers
// =============================================================================
/// Entity names referenced (`&name;`, not `&#...;`) in an entity value.
pub open spec fn entity_refs_from(value: Seq<u8>, pos: int) -> Seq<Seq<u8>>
    decreases value.len() - pos,
{
    if pos < 0 || pos >= value.len() {
        seq![]
    } else if value[pos] == 0x26 && pos + 1 < value.len() && value[pos + 1] != 0x23 {
        let start = pos + 1;
        let end = semi_from(value, start);
        proof {
            lemma_semi_from(value, start);
        }
        if end < value.len() {
            seq![value.subrange(start, end)] + entity_refs_from(value, end + 1)
        } else {
            seq![]
        }
    } else {
        entity_refs_from(value, pos + 1)
    }
}

/// Position of the first `;` at or after `start`, or the length when there is none.
pub open spec fn semi_from(value: Seq<u8>, start: int) -> int
    decreases value.len() - start,
{
    if start >= value.len() {
        value.len() as int
    } else if value[start] == 0x3B {
        start
    } else {
        semi_from(value, start + 1)
    }
}

pub proof fn lemma_semi_from(value: Seq<u8>, start: int)
    requires
        0 <= start,
    ensures
        start <= semi_from(value, start) || start > value.len(),
        semi_from(value, start) <= value.len() || start > value.len(),
        semi_from(value, start) < value.len() ==> value[semi_from(value, start)] == 0x3B,
        forall|j: int| start <= j < semi_from(value, start) && j < value.len() ==> value[j] != 0x3B,
    decreases value.len() - start,
{
    if start < value.len() && value[start] != 0x3B {
        lemma_semi_from(value, start + 1);
    }
}

/// Parse entity value and extract entity references
pub fn extract_entity_references(value: &[u8]) -> (r: Vec<Vec<u8>>)
    ensures
        names(r@) == entity_refs_from(value@, 0),
{
    let mut refs: Vec<Vec<u8>> = Vec::new();
    let mut pos: usize = 0;
    while pos < value.len()
        invariant
            pos <= value@.len(),
            entity_refs_from(value@, 0) == names(refs@) + entity_refs_from(value@, pos as int),
        decreases value.len() - pos,
    {
        let ghost old_refs = refs@;
        let ghost p0 = pos as int;
        if value[pos] == 0x26 && pos + 1 < value.len() && value[pos + 1] != 0x23 {
            // Entity reference (not character reference)
            pos += 1;
            let start = pos;
            while pos < value.len() && value[pos] != 0x3B
                invariant
                    start <= pos <= value@.len(),
                    semi_from(value@, start as int) == semi_from(value@, pos as int),
                decreases value.len() - pos,
            {
                pos += 1;
            }
            if pos < value.len() {
                let r = slice_to_vec(&value[start..pos]);
                refs.push(r);
                proof {
                    assert(names(refs@) =~= names(old_refs).push(value@.subrange(start as int, pos as int)));
                    assert(names(old_refs) + (seq![value@.subrange(start as int, pos as int)] + entity_refs_from(value@, pos + 1)) =~= names(refs@) + entity_refs_from(value@, pos + 1));
                }
            } else {
                proof {
                    assert(names(refs@) + Seq::<Seq<u8>>::empty() =~= names(refs@));
                }
                return refs;
            }
        }
        pos += 1;
    }
    proof {
        assert(entity_refs_from(value@, pos as int) =~= Seq::<Seq<u8>>::empty());
        assert(names(refs@) + Seq::<Seq<u8>>::empty() =~= names(refs@));
    }
    refs
}

/// The content specification that an ELEMENT declaration's text starts with.
pub open spec fn spec_content_spec_kind(content: Seq<u8>) -> Option<u8> {
    let c = content.skip(ws_prefix_len(content));
    if has_prefix(c, seq![0x45u8, 0x4D, 0x50, 0x54, 0x59]) {
        Some(0)
    } else if has_prefix(c, seq![0x41u8, 0x4E, 0x59]) {
        Some(1)
    } else if c.len() > 0 && c[0] == 0x28 {
        Some(2)
    } else {
        None
    }
}

/// Whether a content specification that opens with `(` (given from after the `(`) is
/// mixed content: `#PCDATA` follows, after optional whitespace.
pub open spec fn starts_mixed(inner: Seq<u8>) -> bool {
    has_prefix(
        inner.skip(ws_prefix_len(inner)),
        seq![0x23u8, 0x50, 0x43, 0x44, 0x41, 0x54, 0x41],
    )
}

/// Parse content spec from DTD ELEMENT declaration
pub fn parse_content_spec(content: &[u8]) -> (r: Result<ContentSpec, &'static str>)
    ensures
        ({
            let c = content@.skip(ws_prefix_len(content@));
            match spec_content_spec_kind(content@) {
                Some(0) => r matches Ok(ContentSpec::Empty),
                Some(1) => r matches Ok(ContentSpec::Any),
                Some(_) => if starts_mixed(c.drop_first()) {
                    r matches Ok(ContentSpec::Mixed(ns)) && names(ns@) == mixed_names(
                        c.drop_first(),
                    )
                } else {
                    r matches Ok(ContentSpec::Children(raw)) && raw@ == c
                },
                None => r == Err::<ContentSpec, &'static str>("Invalid content specification"),
            }
        }),
{
    let ghost orig = content@;
    let content = skip_ws(content);
    assert(content@ == orig.skip(ws_prefix_len(orig)));
    if bytes_starts_with(content, &[0x45, 0x4D, 0x50, 0x54, 0x59]) {
        Ok(ContentSpec::Empty)
    } else if bytes_starts_with(content, &[0x41, 0x4E, 0x59]) {
        Ok(ContentSpec::Any)
    } else if content.len() > 0 && content[0] == 0x28 {
        let inner = &content[1..content.len()];
        assert(inner@ =~= content@.drop_first());
        let inner_ws = skip_ws(inner);
        if bytes_starts_with(inner_ws, &[0x23, 0x50, 0x43, 0x44, 0x41, 0x54, 0x41]) {
            // Mixed content - extract element names
            let names = parse_mixed_names(inner);
            Ok(ContentSpec::Mixed(names))
        } else {
            // Children content model - store raw for now
            Ok(ContentSpec::Children(slice_to_vec(content)))
        }
    } else {
        assert(!has_prefix(content@, seq![0x45u8, 0x4D, 0x50, 0x54, 0x59]));
        assert(!has_prefix(content@, seq![0x41u8, 0x4E, 0x59]));
        Err("Invalid content specification")
    }
}

/// Names listed in mixed content `(#PCDATA|a|b)*`, read from after the `(`: the names
/// that follow each `|` before the first `)`.
pub open spec fn mixed_names(content: Seq<u8>) -> Seq<Seq<u8>> {
    mixed_names_from(content, skip_to_bar_or_close(content, 0))
}

pub open spec fn skip_to_bar_or_close(c: Seq<u8>, p: int) -> int
    decreases c.len() - p,
{
    if p < 0 || p >= c.len() || c[p] == 0x7C || c[p] == 0x29 {
        p
    } else {
        skip_to_bar_or_close(c, p + 1)
    }
}

pub open spec fn spec_dtd_name_char(b: u8) -> bool {
    (0x41 <= b && b <= 0x5A) || (0x61 <= b && b <= 0x7A) || (0x30 <= b && b <= 0x39) || b == 0x5F
        || b == 0x2D || b == 0x2E || b == 0x3A || b >= 0x80
}

pub open spec fn name_end_from(c: Seq<u8>, p: int) -> int
    decreases c.len() - p,
{
    if p < 0 || p >= c.len() || !spec_dtd_name_char(c[p]) {
        p
    } else {
        name_end_from(c, p + 1)
    }
}

pub open spec fn ws_end_from(c: Seq<u8>, p: int) -> int
    decreases c.len() - p,
{
    if p < 0 || p >= c.len() || !is_ws(c[p]) {
        p
    } else {
        ws_end_from(c, p + 1)
    }
}

pub open spec fn mixed_names_from(c: Seq<u8>, p: int) -> Seq<Seq<u8>>
    decreases c.len() - p, 0int,
{
    if p < 0 || p >= c.len() {
        seq![]
    } else if c[p] == 0x7C {
        let s = ws_end_from(c, p + 1);
        let e = name_end_from(c, s);
        proof {
            lemma_ws_end_from(c, p + 1);
            lemma_name_end_from(c, s);
        }
        if e > s {
            seq![c.subrange(s, e)] + mixed_names_from(c, e)
        } else {
            mixed_names_from(c, e)
        }
    } else if c[p] == 0x29 {
        seq![]
    } else {
        mixed_names_from(c, p + 1)
    }
}

pub proof fn lemma_ws_end_from(c: Seq<u8>, p: int)
    requires
        0 <= p,
    ensures
        p <= ws_end_from(c, p),
        ws_end_from(c, p) <= c.len() || ws_end_from(c, p) == p,
    decreases c.len() - p,
{
    if p < c.len() && is_ws(c[p]) {
        lemma_ws_end_from(c, p + 1);
    }
}

pub proof fn lemma_name_end_from(c: Seq<u8>, p: int)
    requires
        0 <= p,
    ensures
        p <= name_end_from(c, p),
        name_end_from(c, p) <= c.len() || name_end_from(c, p) == p,
    decreases c.len() - p,
{
    if p < c.len() && spec_dtd_name_char(c[p]) {
        lemma_name_end_from(c, p + 1);
    }
}

/// Extract element names from mixed content: (#PCDATA|a|b)*
fn parse_mixed_names(content: &[u8]) -> (r: Vec<Vec<u8>>)
    ensures
        names(r@) == mixed_names(content@),
{
    let mut names_v: Vec<Vec<u8>> = Vec::new();
    let mut pos: usize = 0;
    let len = content.len();
    // Skip past #PCDATA
    while pos < len && content[pos] != 0x7C && content[pos] != 0x29
        invariant
            len == content@.len(),
            pos <= len,
            skip_to_bar_or_close(content@, 0) == skip_to_bar_or_close(content@, pos as int),
        decreases len - pos,
    {
        pos += 1;
    }
    while pos < len
        invariant
            len == content@.len(),
            pos <= len,
            mixed_names(content@) == names(names_v@) + mixed_names_from(content@, pos as int),
        decreases len - pos,
    {
        let ghost old_names = names_v@;
        if content[pos] == 0x7C {
            let ghost p0 = pos as int;
            pos += 1;
            // Skip whitespace
            while pos < len && is_ws_dtd(content[pos])
                invariant
                    len == content@.len(),
                    p0 + 1 <= pos <= len,
                    ws_end_from(content@, p0 + 1) == ws_end_from(content@, pos as int),
                decreases len - pos,
            {
                pos += 1;
            }
            // Read name
            let start = pos;
            while pos < len && is_name_char(content[pos])
                invariant
                    len == content@.len(),
                    start <= pos <= len,
                    name_end_from(content@, start as int) == name_end_from(content@, pos as int),
                decreases len - pos,
            {
                pos += 1;
            }
            if pos > start {
                names_v.push(slice_to_vec(&content[start..pos]));
                proof {
                    assert(names(names_v@) =~= names(old_names).push(content@.subrange(start as int, pos as int)));
                    assert(names(old_names) + (seq![content@.subrange(start as int, pos as int)] + mixed_names_from(content@, pos as int)) =~= names(names_v@) + mixed_names_from(content@, pos as int));
                }
            }
        } else if content[pos] == 0x29 {
            proof {
                assert(names(names_v@) + Seq::<Seq<u8>>::empty() =~= names(names_v@));
            }
            return names_v;
        } else {
            pos += 1;
        }
    }
    proof {
        assert(names(names_v@) + Seq::<Seq<u8>>::empty() =~= names(names_v@));
    }
    names_v
}

fn is_ws_dtd(b: u8) -> (r: bool)
    ensures
        r == is_ws(b),
{
    b == 0x20 || b == 0x09 || b == 0x0A || b == 0x0D
}

/// Skip leading whitespace
fn skip_ws(content: &[u8]) -> (r: &[u8])
    ensures
        r@ == content@.skip(ws_prefix_len(content@)),
{
    let mut pos: usize = 0;
    assert(content@.skip(0) =~= content@);
    while pos < content.len() && is_ws_dtd(content[pos])
        invariant
            pos <= content@.len(),
            ws_prefix_len(content@) == pos + ws_prefix_len(content@.skip(pos as int)),
        decreases content.len() - pos,
    {
        assert(content@.skip(pos as int).drop_first() =~= content@.skip(pos + 1));
        pos += 1;
    }
    proof {
        if pos < content@.len() {
            assert(content@.skip(pos as int)[0] == content@[pos as int]);
        }
        assert(content@.skip(0) =~= content@);
    }
    &content[pos..content.len()]
}

#[inline]
fn is_name_char(b: u8) -> (r: bool)
    ensures
        r == spec_dtd_name_char(b),
{
    (0x41 <= b && b <= 0x5A) || (0x61 <= b && b <= 0x7A) || (0x30 <= b && b <= 0x39) || b == 0x5F
        || b == 0x2D || b == 0x2E || b == 0x3A || b >= 0x80
}

} // verus!
