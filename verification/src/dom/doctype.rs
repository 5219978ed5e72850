//! Entity declarations of a DOCTYPE, collected for validation.

use vstd::prelude::*;

use crate::xml_core::dtd::{
    dtd_wf, entity_refs_from, ref_path, refs_of, self_referencing, extract_entity_references, keys, lemma_name_end_from,
    lemma_ws_end_from, name_end_from, names, spec_dtd_name_char, ws_end_from, DtdDeclarations,
    EntityDecl,
};
use crate::xml_core::entities::{builtin_entity_cp, unknown_ref_at, SEMI};
use crate::xml_core::primitives::{bytes_eq, has_prefix, is_ws, is_ws_byte, starts_with};

verus! {

// =============================================================================
// Model
// =============================================================================
/// An entity declaration found in a DOCTYPE: its name, whether it is a parameter
/// entity, whether it is external, and its literal value.
pub struct FoundEntity {
    pub name: Seq<u8>,
    pub pe: bool,
    pub external: bool,
    pub value: Option<Seq<u8>>,
}

/// An entity declaration as values.
pub struct EntView {
    pub external: bool,
    pub value: Option<Seq<u8>>,
    pub system_id: Option<Seq<u8>>,
    pub public_id: Option<Seq<u8>>,
    pub ndata: Option<Seq<u8>>,
    pub refs: Seq<Seq<u8>>,
}

pub open spec fn opt_vec(v: Option<Vec<u8>>) -> Option<Seq<u8>> {
    match v {
        Some(x) => Some(x@),
        None => None,
    }
}

/// A stored (name, declaration) pair as values.
pub open spec fn ent_view(e: (Vec<u8>, EntityDecl)) -> (Seq<u8>, EntView) {
    (
        e.0@,
        EntView {
            external: e.1.is_external,
            value: opt_vec(e.1.value),
            system_id: opt_vec(e.1.system_id),
            public_id: opt_vec(e.1.public_id),
            ndata: opt_vec(e.1.ndata),
            refs: names(e.1.references@),
        },
    )
}

pub open spec fn ents_view(v: Seq<(Vec<u8>, EntityDecl)>) -> Seq<(Seq<u8>, EntView)> {
    v.map_values(|e: (Vec<u8>, EntityDecl)| ent_view(e))
}

/// The declaration that a found entity is stored as.
pub open spec fn found_view(f: FoundEntity) -> EntView {
    EntView {
        external: f.external,
        value: f.value,
        system_id: None,
        public_id: None,
        ndata: None,
        refs: match f.value {
            Some(v) => entity_refs_from(v, 0),
            None => seq![],
        },
    }
}

/// The names of a table of declarations.
pub open spec fn view_keys(tab: Seq<(Seq<u8>, EntView)>) -> Seq<Seq<u8>> {
    tab.map_values(|e: (Seq<u8>, EntView)| e.0)
}

/// A table of declarations after the found ones of one kind (`pe`) are added in order:
/// the first declaration of a name wins.
pub open spec fn add_found(tab: Seq<(Seq<u8>, EntView)>, found: Seq<FoundEntity>, pe: bool) -> Seq<
    (Seq<u8>, EntView),
>
    decreases found.len(),
{
    if found.len() == 0 {
        tab
    } else {
        let prev = add_found(tab, found.drop_last(), pe);
        let f = found.last();
        if f.pe == pe && !view_keys(prev).contains(f.name) {
            prev.push((f.name, found_view(f)))
        } else {
            prev
        }
    }
}

/// Adding two lists of declarations one after the other is adding them together.
pub proof fn lemma_add_found_concat(
    tab: Seq<(Seq<u8>, EntView)>,
    a: Seq<FoundEntity>,
    b: Seq<FoundEntity>,
    pe: bool,
)
    ensures
        add_found(tab, a + b, pe) == add_found(add_found(tab, a, pe), b, pe),
    decreases b.len(),
{
    if b.len() == 0 {
        assert(a + b =~= a);
    } else {
        assert((a + b).drop_last() =~= a + b.drop_last());
        assert((a + b).last() == b.last());
        lemma_add_found_concat(tab, a, b.drop_last(), pe);
    }
}

/// `<!ENTITY`, `SYSTEM`, `PUBLIC`.
pub open spec fn lit_entity_open() -> Seq<u8> {
    seq![0x3Cu8, 0x21u8, 0x45u8, 0x4Eu8, 0x54u8, 0x49u8, 0x54u8, 0x59u8]
}

pub open spec fn lit_system() -> Seq<u8> {
    seq![0x53u8, 0x59u8, 0x53u8, 0x54u8, 0x45u8, 0x4Du8]
}

pub open spec fn lit_public() -> Seq<u8> {
    seq![0x50u8, 0x55u8, 0x42u8, 0x4Cu8, 0x49u8, 0x43u8]
}

/// The position of the first `q` at or after `p`, or the end.
pub open spec fn quote_end(c: Seq<u8>, p: int, q: u8) -> int
    decreases c.len() - p,
{
    if p < 0 || p >= c.len() || c[p] == q {
        p
    } else {
        quote_end(c, p + 1, q)
    }
}

/// The position just after the first `>` at or after `p`, or the end.
pub open spec fn past_gt(c: Seq<u8>, p: int) -> int
    decreases c.len() - p,
{
    if p < 0 || p >= c.len() {
        p
    } else if c[p] == 0x3E {
        p + 1
    } else {
        past_gt(c, p + 1)
    }
}

/// The declaration read at `p`, just after `<!ENTITY`: the entity found, if it has a
/// name, and where reading goes on.
pub open spec fn entity_at(c: Seq<u8>, p: int) -> (Option<FoundEntity>, int) {
    let p1 = ws_end_from(c, p);
    let pe = p1 < c.len() && c[p1] == 0x25;
    let p2 = if pe {
        ws_end_from(c, p1 + 1)
    } else {
        p1
    };
    let ne = name_end_from(c, p2);
    if ne == p2 {
        (None, p2 + 1)
    } else {
        let p3 = ws_end_from(c, ne);
        let quoted = p3 < c.len() && (c[p3] == 0x22 || c[p3] == 0x27);
        let ve = quote_end(c, p3 + 1, if quoted { c[p3] } else { 0 });
        let value = if quoted {
            Some(c.subrange(p3 + 1, ve))
        } else {
            None
        };
        let external = !quoted && p3 + 6 <= c.len() && (c.subrange(p3, p3 + 6) == lit_system()
            || c.subrange(p3, p3 + 6) == lit_public());
        let p4 = if quoted {
            if ve < c.len() {
                ve + 1
            } else {
                ve
            }
        } else {
            p3
        };
        (
            Some(FoundEntity { name: c.subrange(p2, ne), pe, external, value }),
            past_gt(c, p4),
        )
    }
}

pub proof fn lemma_quote_end(c: Seq<u8>, p: int, q: u8)
    requires
        0 <= p <= c.len(),
    ensures
        p <= quote_end(c, p, q) <= c.len(),
    decreases c.len() - p,
{
    if p < c.len() && c[p] != q {
        lemma_quote_end(c, p + 1, q);
    }
}

pub proof fn lemma_past_gt(c: Seq<u8>, p: int)
    requires
        0 <= p <= c.len(),
    ensures
        p <= past_gt(c, p) <= c.len(),
    decreases c.len() - p,
{
    if p < c.len() && c[p] != 0x3E {
        lemma_past_gt(c, p + 1);
    }
}

/// Reading a declaration moves forward and stays within one past the end.
pub proof fn lemma_entity_at(c: Seq<u8>, p: int)
    requires
        0 <= p <= c.len(),
    ensures
        p < entity_at(c, p).1 <= c.len() + 1,
{
    lemma_ws_end_from(c, p);
    let p1 = ws_end_from(c, p);
    if p1 < c.len() {
        lemma_ws_end_from(c, p1 + 1);
    }
    let pe = p1 < c.len() && c[p1] == 0x25;
    let p2 = if pe {
        ws_end_from(c, p1 + 1)
    } else {
        p1
    };
    lemma_name_end_from(c, p2);
    let ne = name_end_from(c, p2);
    if ne != p2 {
        lemma_ws_end_from(c, ne);
        let p3 = ws_end_from(c, ne);
        let quoted = p3 < c.len() && (c[p3] == 0x22 || c[p3] == 0x27);
        if quoted {
            lemma_quote_end(c, p3 + 1, c[p3]);
            let ve = quote_end(c, p3 + 1, c[p3]);
            if ve < c.len() {
                lemma_past_gt(c, ve + 1);
            } else {
                lemma_past_gt(c, ve);
            }
        } else {
            lemma_past_gt(c, p3);
        }
    }
}

/// The entity declarations of a DOCTYPE's content, read from `pos`.
pub open spec fn dtd_scan(c: Seq<u8>, pos: int) -> Seq<FoundEntity>
    decreases c.len() + 1 - pos,
{
    if pos < 0 || pos >= c.len() {
        seq![]
    } else {
        proof {
            lemma_ws_end_from(c, pos);
        }
        let p = ws_end_from(c, pos);
        if p >= c.len() {
            seq![]
        } else if p + 8 <= c.len() && c.subrange(p, p + 8) == lit_entity_open() {
            proof {
                lemma_entity_at(c, p + 8);
            }
            let r = entity_at(c, p + 8);
            match r.0 {
                Some(e) => seq![e] + dtd_scan(c, r.1),
                None => dtd_scan(c, r.1),
            }
        } else {
            dtd_scan(c, p + 1)
        }
    }
}

// =============================================================================
// Reading
// =============================================================================
/// A byte of an entity name.
fn is_name_char(b: u8) -> (r: bool)
    ensures
        r == spec_dtd_name_char(b),
{
    (0x41 <= b && b <= 0x5A) || (0x61 <= b && b <= 0x7A) || (0x30 <= b && b <= 0x39) || b == 0x5F
        || b == 0x2D || b == 0x2E || b == 0x3A || b >= 0x80
}

fn skip_ws_at(c: &[u8], p: usize) -> (r: usize)
    requires
        p <= c@.len(),
    ensures
        r == ws_end_from(c@, p as int),
        p <= r <= c@.len(),
{
    let mut i = p;
    while i < c.len() && is_ws_byte(c[i])
        invariant
            p <= i <= c@.len(),
            ws_end_from(c@, i as int) == ws_end_from(c@, p as int),
        decreases c.len() - i,
    {
        i += 1;
    }
    i
}

fn name_end_at(c: &[u8], p: usize) -> (r: usize)
    requires
        p <= c@.len(),
    ensures
        r == name_end_from(c@, p as int),
        p <= r <= c@.len(),
{
    let mut i = p;
    while i < c.len() && is_name_char(c[i])
        invariant
            p <= i <= c@.len(),
            name_end_from(c@, i as int) == name_end_from(c@, p as int),
        decreases c.len() - i,
    {
        i += 1;
    }
    i
}

fn quote_end_at(c: &[u8], p: usize, q: u8) -> (r: usize)
    requires
        p <= c@.len(),
    ensures
        r == quote_end(c@, p as int, q),
        p <= r <= c@.len(),
{
    let mut i = p;
    while i < c.len() && c[i] != q
        invariant
            p <= i <= c@.len(),
            quote_end(c@, i as int, q) == quote_end(c@, p as int, q),
        decreases c.len() - i,
    {
        i += 1;
    }
    i
}

fn past_gt_at(c: &[u8], p: usize) -> (r: usize)
    requires
        p <= c@.len(),
    ensures
        r == past_gt(c@, p as int),
        p <= r <= c@.len(),
{
    let mut i = p;
    while i < c.len() && c[i] != 0x3E
        invariant
            p <= i <= c@.len(),
            past_gt(c@, i as int) == past_gt(c@, p as int),
        decreases c.len() - i,
    {
        i += 1;
    }
    if i < c.len() {
        i + 1
    } else {
        i
    }
}

/// The declaration at `p` (just after `<!ENTITY`): its name, declaration and kind if
/// it has a name, and where reading goes on (at most the end).
fn read_entity(c: &[u8], p: usize) -> (r: (Option<(Vec<u8>, EntityDecl, bool)>, usize))
    requires
        p <= c@.len(),
    ensures
        ({
            let e = entity_at(c@, p as int);
            &&& r.1 == (if e.1 > c@.len() { c@.len() as int } else { e.1 })
            &&& match (r.0, e.0) {
                (None, None) => true,
                (Some((n, d, pe)), Some(f)) => n@ == f.name && pe == f.pe && ent_view((n, d))
                    == (f.name, found_view(f)),
                _ => false,
            }
        }),
{
    let len = c.len();
    let p1 = skip_ws_at(c, p);
    let pe = p1 < len && c[p1] == 0x25;
    let p2 = if pe {
        skip_ws_at(c, p1 + 1)
    } else {
        p1
    };
    let ne = name_end_at(c, p2);
    if ne == p2 {
        let next = if p2 < len {
            p2 + 1
        } else {
            len
        };
        return (None, next);
    }
    let name = vstd::slice::slice_to_vec(&c[p2..ne]);
    assert(name@ =~= c@.subrange(p2 as int, ne as int));
    let p3 = skip_ws_at(c, ne);
    let quoted = p3 < len && (c[p3] == 0x22 || c[p3] == 0x27);
    let mut decl = EntityDecl {
        is_external: false,
        value: None,
        system_id: None,
        public_id: None,
        ndata: None,
        references: Vec::new(),
    };
    let p4 = if quoted {
        let ve = quote_end_at(c, p3 + 1, c[p3]);
        let value = vstd::slice::slice_to_vec(&c[p3 + 1..ve]);
        assert(value@ =~= c@.subrange(p3 + 1, ve as int));
        decl.references = extract_entity_references(value.as_slice());
        decl.value = Some(value);
        if ve < len {
            ve + 1
        } else {
            ve
        }
    } else {
        let system: &[u8] = &[0x53u8, 0x59u8, 0x53u8, 0x54u8, 0x45u8, 0x4Du8];
        let public: &[u8] = &[0x50u8, 0x55u8, 0x42u8, 0x4Cu8, 0x49u8, 0x43u8];
        assert(system@ =~= lit_system());
        assert(public@ =~= lit_public());
        if len - p3 >= 6 {
            let word = &c[p3..p3 + 6];
            assert(word@ =~= c@.subrange(p3 as int, p3 + 6));
            assert(has_prefix(word@, system@) == (word@ == system@)) by {
                assert(word@.subrange(0, 6) =~= word@);
            }
            assert(has_prefix(word@, public@) == (word@ == public@)) by {
                assert(word@.subrange(0, 6) =~= word@);
            }
            if starts_with(word, system) || starts_with(word, public) {
                decl.is_external = true;
            }
        }
        p3
    };
    let next = past_gt_at(c, p4);
    proof {
        assert(names(decl.references@) =~= match decl.value {
            Some(v) => entity_refs_from(v@, 0),
            None => Seq::<Seq<u8>>::empty(),
        });
    }
    (Some((name, decl, pe)), next)
}

/// The keys of a table are the names of its view.
pub proof fn lemma_keys_view(v: Seq<(Vec<u8>, EntityDecl)>)
    ensures
        keys(v) == view_keys(ents_view(v)),
{
    assert(keys(v) =~= view_keys(ents_view(v)));
}

pub proof fn lemma_view_push(v: Seq<(Vec<u8>, EntityDecl)>, e: (Vec<u8>, EntityDecl))
    ensures
        ents_view(v.push(e)) == ents_view(v).push(ent_view(e)),
{
    assert(ents_view(v.push(e)) =~= ents_view(v).push(ent_view(e)));
}

/// Parse DTD declarations from DOCTYPE content for validation: each entity
/// declaration is added, the first declaration of a name winning
pub fn parse_dtd_declarations(content: &[u8], decls: &mut DtdDeclarations) -> (r: Result<(), String>)
    requires
        dtd_wf(old(decls)),
    ensures
        r is Ok,
        dtd_wf(final(decls)),
        ents_view(final(decls).entities@) == add_found(
            ents_view(old(decls).entities@),
            dtd_scan(content@, 0),
            false,
        ),
        ents_view(final(decls).pe_entities@) == add_found(
            ents_view(old(decls).pe_entities@),
            dtd_scan(content@, 0),
            true,
        ),
        final(decls).elements@ == old(decls).elements@,
        final(decls).attlists@ == old(decls).attlists@,
        final(decls).notations@ == old(decls).notations@,
{
    let ghost c = content@;
    let ghost mut done: Seq<FoundEntity> = seq![];
    let len = content.len();
    let mut pos: usize = 0;
    let entity_open: &[u8] = &[0x3Cu8, 0x21u8, 0x45u8, 0x4Eu8, 0x54u8, 0x49u8, 0x54u8, 0x59u8];
    assert(entity_open@ =~= lit_entity_open());
    while pos < len
        invariant
            len == c.len(),
            c == content@,
            entity_open@ == lit_entity_open(),
            pos <= len,
            done + dtd_scan(c, pos as int) == dtd_scan(c, 0),
            dtd_wf(decls),
            ents_view(decls.entities@) == add_found(ents_view(old(decls).entities@), done, false),
            ents_view(decls.pe_entities@) == add_found(
                ents_view(old(decls).pe_entities@),
                done,
                true,
            ),
            decls.elements@ == old(decls).elements@,
            decls.attlists@ == old(decls).attlists@,
            decls.notations@ == old(decls).notations@,
        decreases len - pos,
    {
        let p = skip_ws_at(content, pos);
        if p >= len {
            pos = p;
            assert(done + dtd_scan(c, pos as int) =~= dtd_scan(c, 0));
        } else if len - p >= 8 && starts_with(&content[p..len], entity_open) {
            proof {
                assert(content@.subrange(p as int, len as int).subrange(0, 8) =~= c.subrange(
                    p as int,
                    p + 8,
                ));
                lemma_entity_at(c, p + 8);
            }
            let (found, next) = read_entity(content, p + 8);
            let ghost e = entity_at(c, p + 8);
            match found {
                Some((name, decl, is_pe)) => {
                    let ghost f = e.0->0;
                    proof {
                        lemma_keys_view(decls.entities@);
                        lemma_keys_view(decls.pe_entities@);
                        lemma_view_push(decls.entities@, (name, decl));
                        lemma_view_push(decls.pe_entities@, (name, decl));
                        assert((done + seq![f]).drop_last() =~= done);
                    }
                    let _ = decls.add_entity(name, decl, is_pe);
                    proof {
                        assert(done + dtd_scan(c, pos as int) =~= (done + seq![f]) + dtd_scan(
                            c,
                            e.1,
                        ));
                        done = done + seq![f];
                    }
                },
                None => {
                    assert(dtd_scan(c, pos as int) == dtd_scan(c, e.1));
                    assert(dtd_scan(c, e.1) == dtd_scan(c, next as int));
                },
            }
            pos = next;
        } else {
            proof {
                if p + 8 <= len {
                    assert(content@.subrange(p as int, len as int).subrange(0, 8) =~= c.subrange(
                        p as int,
                        p + 8,
                    ));
                }
            }
            assert(dtd_scan(c, pos as int) == dtd_scan(c, p + 1));
            pos = p + 1;
        }
    }
    Ok(())
}

// =============================================================================
// Reference cycles over the table's values
// =============================================================================
/// The names that entity `a` references in a table of declarations.
pub open spec fn view_refs(tab: Seq<(Seq<u8>, EntView)>, a: Seq<u8>) -> Seq<Seq<u8>>
    decreases tab.len(),
{
    if tab.len() == 0 {
        seq![]
    } else if tab[0].0 == a {
        tab[0].1.refs
    } else {
        view_refs(tab.drop_first(), a)
    }
}

/// A path of exactly `n` references from `a` to `b`.
pub open spec fn view_path(tab: Seq<(Seq<u8>, EntView)>, a: Seq<u8>, b: Seq<u8>, n: nat) -> bool
    decreases n,
{
    if n == 0 {
        a == b
    } else {
        exists|m: Seq<u8>| #[trigger] view_refs(tab, a).contains(m) && view_path(tab, m, b, (n - 1) as nat)
    }
}

/// Entity `a` references itself, directly or through others.
pub open spec fn view_cyclic(tab: Seq<(Seq<u8>, EntView)>, a: Seq<u8>) -> bool {
    exists|n: nat| n >= 1 && #[trigger] view_path(tab, a, a, n)
}

/// No declared general entity of the table references itself.
pub open spec fn acyclic(tab: Seq<(Seq<u8>, EntView)>) -> bool {
    forall|i: int| 0 <= i < tab.len() ==> !view_cyclic(tab, #[trigger] tab[i].0)
}

proof fn lemma_refs_view(ents: Seq<(Vec<u8>, EntityDecl)>, a: Seq<u8>)
    ensures
        refs_of(ents, a) == view_refs(ents_view(ents), a),
    decreases ents.len(),
{
    if ents.len() > 0 {
        assert(ents_view(ents).drop_first() =~= ents_view(ents.drop_first()));
        lemma_refs_view(ents.drop_first(), a);
    }
}

proof fn lemma_path_view(ents: Seq<(Vec<u8>, EntityDecl)>, a: Seq<u8>, b: Seq<u8>, n: nat)
    ensures
        ref_path(ents, a, b, n) == view_path(ents_view(ents), a, b, n),
    decreases n,
{
    if n > 0 {
        let tab = ents_view(ents);
        lemma_refs_view(ents, a);
        if ref_path(ents, a, b, n) {
            let m = choose|m: Seq<u8>|
                #[trigger] refs_of(ents, a).contains(m) && ref_path(ents, m, b, (n - 1) as nat);
            lemma_path_view(ents, m, b, (n - 1) as nat);
            assert(view_refs(tab, a).contains(m));
        }
        if view_path(tab, a, b, n) {
            let m = choose|m: Seq<u8>|
                #[trigger] view_refs(tab, a).contains(m) && view_path(tab, m, b, (n - 1) as nat);
            lemma_path_view(ents, m, b, (n - 1) as nat);
            assert(refs_of(ents, a).contains(m));
        }
    }
}

/// Whether an entity references itself depends only on the table's values.
pub proof fn lemma_cyclic_view(ents: Seq<(Vec<u8>, EntityDecl)>, a: Seq<u8>)
    ensures
        self_referencing(ents, a) == view_cyclic(ents_view(ents), a),
{
    if self_referencing(ents, a) {
        let n = choose|n: nat| n >= 1 && #[trigger] ref_path(ents, a, a, n);
        lemma_path_view(ents, a, a, n);
    }
    if view_cyclic(ents_view(ents), a) {
        let n = choose|n: nat| n >= 1 && #[trigger] view_path(ents_view(ents), a, a, n);
        lemma_path_view(ents, a, a, n);
    }
}

// =============================================================================
// Entity references in attribute values
// =============================================================================
/// The table declares `name` as an external (`external`) or internal entity.
pub open spec fn declared_with(tab: Seq<(Seq<u8>, EntView)>, name: Seq<u8>, external: bool) -> bool {
    exists|j: int| 0 <= j < tab.len() && tab[j].0 == name && tab[j].1.external == external
}

/// At `i` to `k` stands a reference to an entity that is neither built in nor declared.
pub open spec fn undeclared_at(s: Seq<u8>, tab: Seq<(Seq<u8>, EntView)>, i: int, k: int) -> bool {
    &&& unknown_ref_at(s, i, k)
    &&& !declared_with(tab, s.subrange(i + 1, k), false)
    &&& !declared_with(tab, s.subrange(i + 1, k), true)
}

/// At `i` to `k` stands a reference to an entity declared external (and not internal).
pub open spec fn external_at(s: Seq<u8>, tab: Seq<(Seq<u8>, EntView)>, i: int, k: int) -> bool {
    &&& unknown_ref_at(s, i, k)
    &&& !declared_with(tab, s.subrange(i + 1, k), false)
    &&& declared_with(tab, s.subrange(i + 1, k), true)
}

/// What the references in the attribute text `s` make wrong, given the entities that
/// the DOCTYPE declares: a reference to an undeclared entity, else one to an external
/// entity; none where every reference is built in, numeric or to an internal entity.
pub open spec fn attr_ref_problem(s: Seq<u8>, tab: Seq<(Seq<u8>, EntView)>) -> Option<&'static str> {
    if exists|i: int, k: int| undeclared_at(s, tab, i, k) {
        Some("Undefined entity reference in attribute value")
    } else if exists|i: int, k: int| external_at(s, tab, i, k) {
        Some("External entity reference not allowed in attribute value")
    } else {
        None
    }
}

/// Whether `name` is declared as an internal entity, and whether as an external one.
fn declared_kinds(ents: &Vec<(Vec<u8>, EntityDecl)>, name: &[u8]) -> (r: (bool, bool))
    ensures
        r.0 == declared_with(ents_view(ents@), name@, false),
        r.1 == declared_with(ents_view(ents@), name@, true),
{
    let ghost tab = ents_view(ents@);
    let mut internal = false;
    let mut external = false;
    let mut j: usize = 0;
    while j < ents.len()
        invariant
            j <= ents@.len(),
            tab == ents_view(ents@),
            tab.len() == ents@.len(),
            internal == exists|a: int| 0 <= a < j && tab[a].0 == name@ && tab[a].1.external == false,
            external == exists|a: int| 0 <= a < j && tab[a].0 == name@ && tab[a].1.external == true,
        decreases ents.len() - j,
    {
        assert(tab[j as int] == ent_view(ents@[j as int]));
        if bytes_eq(ents[j].0.as_slice(), name) {
            if ents[j].1.is_external {
                external = true;
            } else {
                internal = true;
            }
        }
        j += 1;
    }
    (internal, external)
}

/// What the entity references in the attribute text `s` make wrong, given the
/// declared general entities (`attr_ref_problem`).
pub fn find_attr_ref_problem(s: &[u8], ents: &Vec<(Vec<u8>, EntityDecl)>) -> (r: Option<&'static str>)
    ensures
        r == attr_ref_problem(s@, ents_view(ents@)),
{
    let ghost tab = ents_view(ents@);
    let mut und = false;
    let mut ext = false;
    let mut i: usize = 0;
    while i < s.len()
        invariant
            i <= s@.len(),
            tab == ents_view(ents@),
            und ==> exists|a: int, k: int| undeclared_at(s@, tab, a, k),
            !und ==> forall|a: int, k: int| 0 <= a < i ==> !#[trigger] undeclared_at(s@, tab, a, k),
            ext ==> exists|a: int, k: int| external_at(s@, tab, a, k),
            !ext ==> forall|a: int, k: int| 0 <= a < i ==> !#[trigger] external_at(s@, tab, a, k),
        decreases s.len() - i,
    {
        if s[i] == 0x26 {
            let mut k: usize = i + 1;
            while k < s.len() && s[k] != 0x3B
                invariant
                    i < k <= s@.len(),
                    forall|j: int| i < j < k ==> s@[j] != SEMI(),
                decreases s.len() - k,
            {
                k += 1;
            }
            let mut hit = false;
            if k < s.len() && k > i + 1 && s[i + 1] != 0x23 {
                let name = &s[i + 1..k];
                assert(name@ =~= s@.subrange(i + 1, k as int));
                if builtin_entity_cp(name).is_none() {
                    assert(unknown_ref_at(s@, i as int, k as int));
                    hit = true;
                    let (internal, external) = declared_kinds(ents, name);
                    if !internal && !external {
                        assert(undeclared_at(s@, tab, i as int, k as int));
                        und = true;
                    } else if !internal && external {
                        assert(external_at(s@, tab, i as int, k as int));
                        ext = true;
                    }
                }
            }
            assert forall|k2: int| k2 != k implies !#[trigger] unknown_ref_at(s@, i as int, k2) by {
                if unknown_ref_at(s@, i as int, k2) {
                    if k2 < k {
                        assert(s@[k2] != SEMI());
                    } else {
                        assert(s@[k as int] != SEMI());
                    }
                }
            }
            if !hit {
                assert(!unknown_ref_at(s@, i as int, k as int));
            }
        }
        i += 1;
    }
    if und {
        Some("Undefined entity reference in attribute value")
    } else if ext {
        Some("External entity reference not allowed in attribute value")
    } else {
        None
    }
}

} // verus!
