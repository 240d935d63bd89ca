//! What reading a type schema promises: registering types never replaces a
//! known one, and a type read from an `RFTY` body only has fields that fit.
use vstd::prelude::*;

use crate::container::{SpecBody, SpecChunk};
use crate::reflect::tag;
use crate::reflect_type::{
    add_types, bases_at, field_at, fields_at, member_name, name_at, spec_parse_type, SpecField, SpecType,
    MAX_COUNT,
};
use crate::text::ascii_chars;

verus! {

/// The type a chunk defines: an `RFTY` data chunk whose body reads as one.
pub open spec fn rfty_type(c: SpecChunk) -> Option<SpecType> {
    match c.body {
        SpecBody::Data(d) => if c.name == tag(0x52, 0x46, 0x54, 0x59) {
            spec_parse_type(d)
        } else {
            None
        },
        SpecBody::Folder(_) => None,
    }
}

/// The chunk defines a type with hash `h`.
pub open spec fn defines_hash(c: SpecChunk, h: u64) -> bool {
    rfty_type(c) matches Some(t) && t.hash == h
}

/// Chunk `i` of `cs` is the first to define a type with hash `h`.
pub open spec fn first_definition(cs: Seq<SpecChunk>, h: u64, i: int) -> bool {
    &&& 0 <= i < cs.len()
    &&& defines_hash(cs[i], h)
    &&& forall|j: int| 0 <= j < i ==> !defines_hash(#[trigger] cs[j], h)
}

proof fn lemma_add_types_step(m: Map<u64, SpecType>, cs: Seq<SpecChunk>)
    requires
        cs.len() > 0,
    ensures
        add_types(m, cs) == (match rfty_type(cs.last()) {
            Some(t) => if add_types(m, cs.drop_last()).contains_key(t.hash) {
                add_types(m, cs.drop_last())
            } else {
                add_types(m, cs.drop_last()).insert(t.hash, t)
            },
            None => add_types(m, cs.drop_last()),
        }),
{
}

/// Adding the types that the `RFTY` chunks `cs` define, in order, to the
/// known types `m`: every known hash keeps its type; the hashes known after
/// are those known before and those the chunks define; a new hash gets the
/// type of the first chunk that defines it.
#[verifier::spinoff_prover]
#[verifier::rlimit(40)]
pub proof fn law_add_types(m: Map<u64, SpecType>, cs: Seq<SpecChunk>)
    ensures
        forall|h: u64| m.contains_key(h) ==> #[trigger] add_types(m, cs).contains_key(h) && add_types(m, cs)[h] == m[h],
        forall|h: u64|
            #[trigger] add_types(m, cs).contains_key(h) <==> (m.contains_key(h) || exists|i: int|
                0 <= i < cs.len() && defines_hash(#[trigger] cs[i], h)),
        forall|h: u64, i: int|
            !m.contains_key(h) && #[trigger] first_definition(cs, h, i) ==> add_types(m, cs)[h] == rfty_type(
                cs[i],
            )->Some_0,
    decreases cs.len(),
{
    if cs.len() > 0 {
        let p = cs.drop_last();
        let c = cs.last();
        let n = cs.len() - 1;
        law_add_types(m, p);
        lemma_add_types_step(m, cs);
        let m1 = add_types(m, p);
        let m2 = add_types(m, cs);
        assert forall|h: u64| m.contains_key(h) implies #[trigger] m2.contains_key(h) && m2[h] == m[h] by {
            assert(m1.contains_key(h));
        }
        assert forall|h: u64|
            #[trigger] m2.contains_key(h) <==> (m.contains_key(h) || exists|i: int|
                0 <= i < cs.len() && defines_hash(#[trigger] cs[i], h)) by {
            if m2.contains_key(h) {
                if !m.contains_key(h) {
                    if m1.contains_key(h) {
                        let i = choose|i: int| 0 <= i < p.len() && defines_hash(#[trigger] p[i], h);
                        assert(cs[i] == p[i]);
                    } else {
                        assert(defines_hash(cs[n], h));
                    }
                }
            }
            if exists|i: int| 0 <= i < cs.len() && defines_hash(#[trigger] cs[i], h) {
                let i = choose|i: int| 0 <= i < cs.len() && defines_hash(#[trigger] cs[i], h);
                if i < n {
                    assert(p[i] == cs[i]);
                    assert(m1.contains_key(h));
                } else {
                    assert(c == cs[i]);
                }
            }
        }
        assert forall|h: u64, i: int|
            !m.contains_key(h) && #[trigger] first_definition(cs, h, i) implies m2[h] == rfty_type(cs[i])->Some_0 by {
            if i < n {
                assert(p[i] == cs[i]);
                assert forall|j: int| 0 <= j < i implies !defines_hash(#[trigger] p[j], h) by {
                    assert(p[j] == cs[j]);
                }
                assert(first_definition(p, h, i));
                assert(m1.contains_key(h));
            } else {
                assert(c == cs[i]);
                if m1.contains_key(h) {
                    let k = choose|k: int| 0 <= k < p.len() && defines_hash(#[trigger] p[k], h);
                    assert(p[k] == cs[k]);
                    assert(!defines_hash(cs[k], h));
                }
            }
        }
    }
}

/// A field that fits its type: a member name (`m_...`), an offset inside
/// the type and a size of at least one byte and at most the type's.
pub open spec fn field_fits(f: SpecField, type_size: u32) -> bool {
    &&& f.name.len() >= 2
    &&& f.name[0] == 'm'
    &&& f.name[1] == '_'
    &&& f.offset < type_size
    &&& 0 < f.size <= type_size
}

proof fn lemma_field_at_fits(b: Seq<u8>, pos: int, type_size: u32)
    ensures
        field_at(b, pos, type_size) matches Some((f, p)) ==> field_fits(f, type_size),
{
    if let Some((f, p)) = field_at(b, pos, type_size) {
        let (name, p1) = name_at(b, pos)->Some_0;
        assert(member_name(name));
        assert(f.name == ascii_chars(name));
        assert(f.name[0] == (name[0] as char));
        assert(f.name[1] == (name[1] as char));
    }
}

proof fn lemma_fields_at_fit(b: Seq<u8>, pos: int, k: nat, type_size: u32)
    ensures
        fields_at(b, pos, k, type_size) matches Some(fs) ==> fs.len() == k && forall|i: int|
            0 <= i < fs.len() ==> field_fits(#[trigger] fs[i], type_size),
    decreases k,
{
    if k > 0 {
        lemma_field_at_fits(b, pos, type_size);
        if let Some((f, p)) = field_at(b, pos, type_size) {
            lemma_fields_at_fit(b, p, (k - 1) as nat, type_size);
            if let Some(rest) = fields_at(b, p, (k - 1) as nat, type_size) {
                let fs = seq![f] + rest;
                assert forall|i: int| 0 <= i < fs.len() implies field_fits(#[trigger] fs[i], type_size) by {
                    if i > 0 {
                        assert(fs[i] == rest[i - 1]);
                    }
                }
            }
        }
    }
}

/// Where the base count of an `RFTY` body stands: after the name, the hash,
/// the size, the trailer and the padding around it.
pub open spec fn base_count_pos(b: Seq<u8>) -> Option<int> {
    match name_at(b, 0) {
        Some((_, p)) => if p + 48 + 8 <= b.len() {
            Some(p + 48)
        } else {
            None
        },
        None => None,
    }
}

/// The field count of an `RFTY` body whose base count is at most
/// `MAX_COUNT`: it stands after the base entries and their padding.
pub open spec fn declared_field_count(b: Seq<u8>) -> Option<int> {
    match base_count_pos(b) {
        Some(q) => {
            let n = crate::le::le64(b, q);
            let r = q + 8 + 12 * n + 24;
            if n <= MAX_COUNT && r + 8 <= b.len() {
                Some(crate::le::le64(b, r))
            } else {
                None
            }
        },
        None => None,
    }
}

/// A type read from an `RFTY` body has at most `MAX_COUNT` bases, and each
/// of its fields has a member name and lies inside the type. A declared
/// base count above `MAX_COUNT` gives neither bases nor fields; otherwise
/// the type has as many bases as declared, and either no fields (one
/// record refused, or more than `MAX_COUNT` declared) or exactly as many
/// as declared.
pub proof fn law_parsed_type_shape(b: Seq<u8>)
    ensures
        spec_parse_type(b) matches Some(t) ==> t.bases.len() <= MAX_COUNT && forall|i: int|
            0 <= i < t.fields.len() ==> field_fits(#[trigger] t.fields[i], t.size),
        spec_parse_type(b) matches Some(t) ==> base_count_pos(b) is Some,
        spec_parse_type(b) matches Some(t) ==> (crate::le::le64(b, base_count_pos(b)->Some_0) > MAX_COUNT
            ==> t.bases.len() == 0 && t.fields.len() == 0),
        spec_parse_type(b) matches Some(t) ==> (crate::le::le64(b, base_count_pos(b)->Some_0) <= MAX_COUNT
            ==> t.bases.len() == crate::le::le64(b, base_count_pos(b)->Some_0) && (declared_field_count(b) matches Some(
            n,
        ) && (t.fields.len() == 0 || t.fields.len() == n))),
{
    if let Some(t) = spec_parse_type(b) {
        let (name, p) = name_at(b, 0)->Some_0;
        let q = p + 8 + 4 + 12 + 4 + 20;
        let base_count = crate::le::le64(b, q);
        if base_count <= MAX_COUNT {
            let r = q + 8 + 12 * base_count + 24;
            let field_count = crate::le::le64(b, r);
            if field_count <= MAX_COUNT {
                lemma_fields_at_fit(b, r + 8, field_count as nat, t.size);
            }
            assert(t.bases == bases_at(b, q + 8, base_count as nat));
        }
    }
}

} // verus!
