//! What happens to a scalar on its way through the formats: the `.rdo`
//! text of a scalar reads back to the same scalar, a `Float` property holds
//! the float reader's bits, and a compiled scalar or flag field decompiles
//! to the property's value cut to the field's width.
use vstd::prelude::*;

use crate::decompile::{at_u32, at_u64, at_u8, kind_of, spec_base_of, spec_build_property, BuildState, ObjectRef, SpecDecompiled};
use crate::le::{bytes32, bytes64, lemma_bytes32_low, lemma_le32_bytes32, lemma_le64_bytes64};
use crate::place_laws::holds_at;
use crate::rdo::{ScalarType, SpecRdoValue};
use crate::rdo_parse::{parsed_value, scalar_bits, scalar_type_named};
use crate::rdo_xml::{scalar_text, signed_decimal};
use crate::reflect_type::{FieldKind, SpecField};
use crate::reflect_write::{flag_or_false, is_leaf, leaf_bytes, scalar_or0};
use crate::text::{ascii_chars, decimal, decimal_bytes};
use crate::xml::{all_digits, digits_value, is_digit, spec_parse_int};

verus! {

proof fn lemma_decimal_digits(n: nat)
    ensures
        decimal(n).len() >= 1,
        all_digits(decimal(n)),
        digits_value(decimal(n)) == n,
        is_digit(decimal(n)[0]),
    decreases n,
{
    if n < 10 {
        assert(decimal(n) =~= seq![((48 + n) as u8) as char]);
        assert(decimal(n).drop_last() =~= Seq::<char>::empty());
        assert(digits_value(Seq::<char>::empty()) == 0);
        let c = ((48 + n) as u8) as char;
        assert(c as int == 48 + n);
        assert(digits_value(decimal(n)) == 10 * digits_value(decimal(n).drop_last()) + (c as int - '0' as int));
    } else {
        lemma_decimal_digits(n / 10);
        let b = (48 + n % 10) as u8;
        assert(decimal(n) =~= decimal(n / 10).push(b as char)) by {
            assert(decimal_bytes(n) == decimal_bytes(n / 10).push(b));
            assert(ascii_chars(decimal_bytes(n / 10).push(b)) =~= ascii_chars(decimal_bytes(n / 10)).push(
                b as char,
            ));
        }
        assert(decimal(n).drop_last() =~= decimal(n / 10));
        assert(decimal(n)[0] == decimal(n / 10)[0]);
        assert((b as char) as int == 48 + n % 10);
        assert(digits_value(decimal(n)) == 10 * digits_value(decimal(n / 10)) + ((b as char) as int - '0' as int));
    }
}

/// The decimal text of `n` reads back as `n` in any range that holds it.
proof fn lemma_parse_decimal(n: nat, lo: int, hi: int)
    requires
        lo <= n <= hi,
    ensures
        spec_parse_int(decimal(n), lo, hi) == Some(n as int),
{
    lemma_decimal_digits(n);
}

/// The signed decimal text of `v` reads back as `v` in any range that holds
/// it; a negative one does not read in a range without negatives.
proof fn lemma_parse_signed(v: int, lo: int, hi: int)
    ensures
        lo <= v <= hi ==> spec_parse_int(signed_decimal(v), lo, hi) == Some(v),
        v < 0 && lo >= 0 ==> spec_parse_int(signed_decimal(v), lo, hi) is None,
{
    if v < 0 {
        reveal_strlit("-");
        let m = (-v) as nat;
        lemma_decimal_digits(m);
        let s = signed_decimal(v);
        assert(s =~= seq!['-'] + decimal(m));
        assert(s.drop_first() =~= decimal(m));
    } else {
        lemma_decimal_digits(v as nat);
    }
}

proof fn lemma_type_names()
    ensures
        "Bool"@.len() == 4 && "Bool"@[0] == 'B',
        "String"@.len() == 6 && "String"@[0] == 'S',
        "Bytes"@.len() == 5 && "Bytes"@[0] == 'B',
        "Float"@.len() == 5 && "Float"@[0] == 'F',
        "Int32"@.len() == 5 && "Int32"@[0] == 'I' && "Int32"@[3] == '3',
        "Int64"@.len() == 5 && "Int64"@[0] == 'I' && "Int64"@[3] == '6',
        "UInt32"@.len() == 6 && "UInt32"@[0] == 'U' && "UInt32"@[4] == '3',
        "UInt64"@.len() == 6 && "UInt64"@[0] == 'U' && "UInt64"@[4] == '6',
        "UInt8"@.len() == 5 && "UInt8"@[0] == 'U',
{
    reveal_strlit("Bool");
    reveal_strlit("String");
    reveal_strlit("Bytes");
    reveal_strlit("Float");
    reveal_strlit("Int32");
    reveal_strlit("UInt32");
    reveal_strlit("Int64");
    reveal_strlit("UInt64");
    reveal_strlit("UInt8");
}

/// A scalar whose bits fit its type.
pub open spec fn fits(t: ScalarType, bits: u64) -> bool {
    match t {
        ScalarType::Float | ScalarType::Int32 | ScalarType::UInt32 => bits < 0x1_0000_0000,
        ScalarType::UInt8 => bits < 256,
        _ => true,
    }
}

/// Writing a scalar into a `<DataProperty>` (its type's name as `Type`, its
/// text as `Value`) and reading that property back gives the same scalar,
/// strict reading or not, when the float reader `g` reads back the float
/// writer `h`'s text.
pub proof fn law_scalar_text_reads_back(
    t: ScalarType,
    bits: u64,
    attrs: Seq<(Seq<u8>, Seq<u8>)>,
    h: spec_fn(u32) -> Seq<char>,
    g: spec_fn(Seq<char>) -> Option<u32>,
    strict: bool,
)
    requires
        fits(t, bits),
        forall|b: u32| #[trigger] g(h(b)) == Some(b),
    ensures
        parsed_value(t.spec_name(), scalar_text(t, bits, h), attrs, g, strict) == SpecRdoValue::Scalar(t, bits),
{
    lemma_type_names();
    let name = t.spec_name();
    assert(name != "Bool"@ && name != "String"@ && name != "Bytes"@);
    assert(scalar_type_named(name) == t);
    let text = scalar_text(t, bits, h);
    match t {
        ScalarType::Float => {
            assert(g(h(bits as u32)) == Some(bits as u32));
        },
        ScalarType::Int32 => {
            let x = bits as u32;
            let v = #[verifier::truncate] (x as i32);
            lemma_parse_signed(v as int, i32::MIN as int, i32::MAX as int);
            assert((v as u32) == x) by (bit_vector)
                requires
                    v == x as i32,
            ;
        },
        ScalarType::UInt32 => {
            lemma_parse_decimal((bits as u32) as nat, 0, u64::MAX as int);
        },
        ScalarType::Int64 => {
            let v = #[verifier::truncate] (bits as i64);
            assert((v as u64) == bits) by (bit_vector)
                requires
                    v == bits as i64,
            ;
            lemma_parse_signed(v as int, i64::MIN as int, i64::MAX as int);
            lemma_parse_signed(v as int, 0, u64::MAX as int);
            if v >= 0 {
                assert(v as int == bits as int) by (bit_vector)
                    requires
                        v == bits as i64,
                        v >= 0,
                ;
            }
        },
        ScalarType::UInt64 => {
            lemma_parse_decimal(bits as nat, 0, u64::MAX as int);
        },
        ScalarType::UInt8 => {
            lemma_parse_decimal((bits as u8) as nat, 0, u64::MAX as int);
        },
    }
}

/// A self-closing property typed `Float` holds a `Float` scalar: the bits
/// the float reader gives its `Value`, 0 when it reads no number.
pub proof fn law_float_property(
    value: Seq<char>,
    attrs: Seq<(Seq<u8>, Seq<u8>)>,
    g: spec_fn(Seq<char>) -> Option<u32>,
    strict: bool,
)
    ensures
        parsed_value("Float"@, value, attrs, g, strict) == SpecRdoValue::Scalar(
            ScalarType::Float,
            match g(value) {
                Some(b) => b as u64,
                None => 0,
            },
        ),
{
    lemma_type_names();
    assert("Float"@ != "Bool"@ && "Float"@ != "String"@ && "Float"@ != "Bytes"@);
}

/// A 4-byte scalar field whose schema type is `float` decompiles to a
/// `Float` property holding the field's four little-endian bytes (0 when
/// they lie outside the data).
pub proof fn law_float_field_decompiles_as_float(
    d: SpecDecompiled,
    parent: ObjectRef,
    f: SpecField,
    st: BuildState,
    props: Seq<(Seq<char>, SpecRdoValue)>,
    fuel: nat,
)
    requires
        kind_of(d, f.ty_name) == FieldKind::Scalar,
        f.ty_name == "float"@,
    ensures
        spec_build_property(d, parent, f, st, props, fuel) == (
            st,
            props.push(
                (
                    f.name,
                    SpecRdoValue::Scalar(
                        ScalarType::Float,
                        match at_u32(d.data, spec_base_of(d, parent) + f.offset) {
                            Some(v) => v as u64,
                            None => 0,
                        },
                    ),
                ),
            ),
        ),
{
}

/// The decompiler's reading of the compiled bytes of a scalar or flag.
proof fn lemma_leaf_read(data: Seq<u8>, pos: int, p: Seq<(Seq<char>, SpecRdoValue)>, name: Seq<char>, k: FieldKind)
    requires
        is_leaf(k),
        holds_at(data, pos, leaf_bytes(p, name, k)),
    ensures
        k == FieldKind::Scalar ==> at_u32(data, pos) == Some((scalar_or0(p, name) % 0x1_0000_0000) as u32),
        k == FieldKind::Scalar64 ==> at_u64(data, pos) == Some(scalar_or0(p, name)),
        k == FieldKind::Scalar8 ==> at_u8(data, pos) == Some((scalar_or0(p, name) % 256) as u8),
        k == FieldKind::Bool ==> at_u8(data, pos) == Some(
            if flag_or_false(p, name) {
                1u8
            } else {
                0u8
            },
        ),
{
    reveal(leaf_bytes);
    let v = scalar_or0(p, name) as int;
    let b = leaf_bytes(p, name, k);
    if k == FieldKind::Scalar {
        let w = v % 0x1_0000_0000;
        lemma_bytes32_low(v);
        assert(b == bytes32(v));
        assert(b.len() == 4);
        assert(data.subrange(pos, pos + 4) =~= b) by {
            assert forall|i: int| 0 <= i < 4 implies #[trigger] data.subrange(pos, pos + 4)[i] == b[i] by {
                assert(data[pos + i] == b[i]);
            }
        }
        assert(bytes32(w) == bytes32(v));
        lemma_le32_bytes32(w, data, pos);
    } else if k == FieldKind::Scalar64 {
        assert(b == bytes64(v));
        assert(b.len() == 8);
        assert(data.subrange(pos, pos + 8) =~= b) by {
            assert forall|i: int| 0 <= i < 8 implies #[trigger] data.subrange(pos, pos + 8)[i] == b[i] by {
                assert(data[pos + i] == b[i]);
            }
        }
        lemma_le64_bytes64(v, data, pos);
    } else {
        assert(b.len() == 1);
        assert(data[pos + 0] == b[0]);
    }
}

/// Unsigned C types decompile to unsigned scalars: a 4-byte field of type
/// `unsigned int` to a `UInt32`, an 8-byte field of type
/// `unsigned long long` to a `UInt64`.
pub proof fn law_unsigned_fields_decompile_unsigned(
    d: SpecDecompiled,
    parent: ObjectRef,
    f: SpecField,
    st: BuildState,
    props: Seq<(Seq<char>, SpecRdoValue)>,
    fuel: nat,
)
    ensures
        kind_of(d, f.ty_name) == FieldKind::Scalar && f.ty_name == "unsigned int"@ ==> (spec_build_property(
            d,
            parent,
            f,
            st,
            props,
            fuel,
        ).1.last().1 matches SpecRdoValue::Scalar(t, _) && t == ScalarType::UInt32),
        kind_of(d, f.ty_name) == FieldKind::Scalar64 && f.ty_name == "unsigned long long"@ ==> (spec_build_property(
            d,
            parent,
            f,
            st,
            props,
            fuel,
        ).1.last().1 matches SpecRdoValue::Scalar(t, _) && t == ScalarType::UInt64),
{
    reveal_strlit("float");
    reveal_strlit("unsigned int");
    reveal_strlit("unsigned long long");
    reveal_strlit("unsigned");
    assert("unsigned int"@ != "float"@) by {
        assert("unsigned int"@.len() != "float"@.len());
    }
    assert("unsigned long long"@.subrange(0, 8) =~= "unsigned"@);
}

/// A scalar or flag field compiled from the properties `p` decompiles to
/// the property's value: a 4-byte scalar to its low 32 bits (a `float`
/// field as a `Float`), an 8-byte scalar to all its bits, a 1-byte scalar
/// to its low byte, a flag to the flag.
#[verifier::rlimit(60)]
pub proof fn law_leaf_field_round_trip(
    d: SpecDecompiled,
    parent: ObjectRef,
    f: SpecField,
    st: BuildState,
    props: Seq<(Seq<char>, SpecRdoValue)>,
    fuel: nat,
    p: Seq<(Seq<char>, SpecRdoValue)>,
)
    requires
        is_leaf(kind_of(d, f.ty_name)),
        holds_at(d.data, spec_base_of(d, parent) + f.offset, leaf_bytes(p, f.name, kind_of(d, f.ty_name))),
    ensures
        ({
            let k = kind_of(d, f.ty_name);
            let v = scalar_or0(p, f.name);
            let r = spec_build_property(d, parent, f, st, props, fuel);
            &&& r.0 == st
            &&& r.1.drop_last() == props
            &&& r.1.len() == props.len() + 1
            &&& r.1.last().0 == f.name
            &&& k == FieldKind::Scalar8 ==> r.1.last().1 == SpecRdoValue::Scalar(ScalarType::UInt8, v % 256)
            &&& k == FieldKind::Scalar ==> (r.1.last().1 matches SpecRdoValue::Scalar(ty, b) && b == v
                % 0x1_0000_0000 && (f.ty_name == "float"@ ==> ty == ScalarType::Float))
            &&& k == FieldKind::Scalar64 ==> (r.1.last().1 matches SpecRdoValue::Scalar(_, b) && b == v)
            &&& k == FieldKind::Bool ==> r.1.last().1 == SpecRdoValue::Bool(flag_or_false(p, f.name))
        }),
{
    let k = kind_of(d, f.ty_name);
    let pos = spec_base_of(d, parent) + f.offset;
    lemma_leaf_read(d.data, pos, p, f.name, k);
    let r = spec_build_property(d, parent, f, st, props, fuel);
    assert(r.1.drop_last() =~= props);
}

} // verus!
