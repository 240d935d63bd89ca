//! Turning bytes into text.
use vstd::prelude::*;

verus! {

/// What `String::from_utf8_lossy` makes of `bytes`: their UTF-8 decoding,
/// with each invalid sequence replaced by U+FFFD.
pub uninterp spec fn utf8_lossy(bytes: Seq<u8>) -> Seq<char>;

/// The characters of bytes that are all ASCII.
pub open spec fn ascii_chars(bytes: Seq<u8>) -> Seq<char> {
    bytes.map_values(|b: u8| b as char)
}

pub open spec fn all_ascii(bytes: Seq<u8>) -> bool {
    forall|i: int| 0 <= i < bytes.len() ==> #[trigger] bytes[i] < 128
}

/// ASCII bytes are valid UTF-8 and decode to one character per byte.
pub proof fn lemma_ascii_decodes(bytes: Seq<u8>)
    requires
        all_ascii(bytes),
    ensures
        vstd::utf8::valid_utf8(bytes),
        vstd::utf8::decode_utf8(bytes) == ascii_chars(bytes),
    decreases bytes.len(),
{
    if bytes.len() > 0 {
        let rest = bytes.subrange(1, bytes.len() as int);
        let b0: u8 = bytes[0];
        assert(b0 < 128);
        assert(b0 & 0x7f == b0) by (bit_vector)
            requires
                b0 < 128,
        ;
        assert(vstd::utf8::decode_first_scalar(bytes) == b0 as u32);
        assert(vstd::utf8::pop_first_scalar(bytes) =~= rest);
        lemma_ascii_decodes(rest);
        assert(vstd::utf8::decode_utf8(bytes) =~= ascii_chars(bytes));
    } else {
        assert(vstd::utf8::decode_utf8(bytes) =~= ascii_chars(bytes));
    }
}

/// Calls `String::from_utf8_lossy(bytes).into_owned()`. Its documentation
/// promises that valid UTF-8 comes back decoded as it is; for invalid input
/// this contract only names the result.
#[verifier::external_body]
pub(crate) fn lossy_string(bytes: &[u8]) -> (s: String)
    ensures
        s@ == utf8_lossy(bytes@),
        vstd::utf8::valid_utf8(bytes@) ==> s@ == vstd::utf8::decode_utf8(bytes@),
{
    String::from_utf8_lossy(bytes).into_owned()
}

} // verus!

verus! {

/// What `String::from_utf8_lossy` gives: valid UTF-8 decoded, anything
/// else as the library names it.
pub open spec fn utf8_text(bytes: Seq<u8>) -> Seq<char> {
    if vstd::utf8::valid_utf8(bytes) {
        vstd::utf8::decode_utf8(bytes)
    } else {
        utf8_lossy(bytes)
    }
}

/// What `String::from_utf16_lossy` makes of `units`: their UTF-16 decoding,
/// with each unpaired surrogate replaced by U+FFFD.
pub uninterp spec fn utf16_lossy(units: Seq<u16>) -> Seq<char>;

/// The UTF-16 code units of a character.
pub open spec fn utf16_char(c: char) -> Seq<u16> {
    let v = c as u32;
    if v < 0x10000 {
        seq![v as u16]
    } else {
        seq![(0xD800 + ((v - 0x10000) / 1024)) as u16, (0xDC00 + ((v - 0x10000) % 1024)) as u16]
    }
}

/// The UTF-16 code units of a text, as `str::encode_utf16` gives them.
pub open spec fn utf16_of(s: Seq<char>) -> Seq<u16>
    decreases s.len(),
{
    if s.len() == 0 {
        Seq::empty()
    } else {
        utf16_of(s.drop_last()) + utf16_char(s.last())
    }
}

/// What `String::from_utf16_lossy` gives: the text whose UTF-16 units these
/// are, when there is one, else the result as the library names it.
pub open spec fn utf16_text(units: Seq<u16>) -> Seq<char> {
    if exists|s: Seq<char>| utf16_of(s) == units {
        choose|s: Seq<char>| utf16_of(s) == units
    } else {
        utf16_lossy(units)
    }
}

/// Calls `String::from_utf16_lossy(units)`: units that are the UTF-16
/// encoding of a text come back as that text, as its documentation promises;
/// of other units the result is only named.
#[verifier::external_body]
pub(crate) fn lossy_string16(units: &[u16]) -> (s: String)
    ensures
        s@ == utf16_lossy(units@),
        forall|t: Seq<char>| utf16_of(t) == units@ ==> s@ == t,
{
    String::from_utf16_lossy(units)
}

/// The units of one character: a single unit outside the surrogate range,
/// or a high surrogate followed by a low one.
pub proof fn lemma_utf16_char(c: char)
    ensures
        (c as u32) < 0x10000 ==> utf16_char(c).len() == 1 && !(0xDC00 <= utf16_char(c)[0] <= 0xDFFF)
            && utf16_char(c)[0] == c as u32,
        (c as u32) >= 0x10000 ==> utf16_char(c).len() == 2 && 0xD800 <= utf16_char(c)[0] <= 0xDBFF
            && 0xDC00 <= utf16_char(c)[1] <= 0xDFFF && (c as u32) == 0x10000 + (utf16_char(c)[0]
            - 0xD800) * 1024 + (utf16_char(c)[1] - 0xDC00),
{
    vstd::utf8::char_is_scalar(c);
    let v = c as u32;
    if v >= 0x10000 {
        assert(v <= 0x10FFFF);
        let q = (v - 0x10000) / 1024;
        let r = (v - 0x10000) % 1024;
        assert(q < 1024 && r < 1024 && v == 0x10000 + q * 1024 + r) by (nonlinear_arith)
            requires
                0x10000 <= v <= 0x10FFFF,
                q == (v - 0x10000) / 1024,
                r == (v - 0x10000) % 1024,
        ;
    }
}

proof fn lemma_utf16_len(s: Seq<char>)
    ensures
        utf16_of(s).len() >= s.len(),
    decreases s.len(),
{
    if s.len() > 0 {
        lemma_utf16_len(s.drop_last());
        lemma_utf16_char(s.last());
    }
}

/// Different texts have different UTF-16 units.
pub proof fn lemma_utf16_injective(s: Seq<char>, t: Seq<char>)
    requires
        utf16_of(s) == utf16_of(t),
    ensures
        s == t,
    decreases s.len() + t.len(),
{
    if s.len() == 0 || t.len() == 0 {
        lemma_utf16_len(s);
        lemma_utf16_len(t);
        assert(s =~= t);
    } else {
        let (a, b) = (s.last(), t.last());
        let (ua, ub) = (utf16_char(a), utf16_char(b));
        let (pa, pb) = (utf16_of(s.drop_last()), utf16_of(t.drop_last()));
        let u = utf16_of(s);
        lemma_utf16_char(a);
        lemma_utf16_char(b);
        assert(u == pa + ua);
        assert(u == pb + ub);
        assert(u.last() == ua.last());
        assert(u.last() == ub.last());
        assert(ua.len() == ub.len());
        if ua.len() == 2 {
            assert(u[u.len() - 2] == ua[0]);
            assert(u[u.len() - 2] == ub[0]);
        }
        assert((a as u32) == (b as u32));
        vstd::utf8::char_u32_cast(a, a as u32);
        vstd::utf8::char_u32_cast(b, b as u32);
        assert(pa =~= u.subrange(0, u.len() - ua.len()));
        assert(pb =~= u.subrange(0, u.len() - ub.len()));
        lemma_utf16_injective(s.drop_last(), t.drop_last());
        assert(s =~= s.drop_last().push(a));
        assert(t =~= t.drop_last().push(b));
    }
}

/// A text's UTF-16 units decode back to it.
pub proof fn lemma_utf16_text(s: Seq<char>)
    ensures
        utf16_text(utf16_of(s)) == s,
{
    let u = utf16_of(s);
    assert(utf16_of(s) == u);
    let t = choose|t: Seq<char>| utf16_of(t) == u;
    lemma_utf16_injective(s, t);
}

/// The decimal digits of `n`, most significant first, as ASCII bytes.
pub open spec fn decimal_bytes(n: nat) -> Seq<u8>
    decreases n,
{
    if n < 10 {
        seq![(48 + n) as u8]
    } else {
        decimal_bytes(n / 10).push((48 + n % 10) as u8)
    }
}

/// The decimal text of `n`.
pub open spec fn decimal(n: nat) -> Seq<char> {
    ascii_chars(decimal_bytes(n))
}

proof fn lemma_decimal_ascii(n: nat)
    ensures
        all_ascii(decimal_bytes(n)),
    decreases n,
{
    if n >= 10 {
        lemma_decimal_ascii(n / 10);
    }
}

fn push_decimal(out: &mut Vec<u8>, n: u64)
    ensures
        final(out)@ == old(out)@ + decimal_bytes(n as nat),
    decreases n,
{
    if n >= 10 {
        push_decimal(out, n / 10);
    }
    out.push((48 + n % 10) as u8);
    proof {
        if n >= 10 {
            assert(final(out)@ =~= old(out)@ + decimal_bytes(n as nat));
        } else {
            assert(final(out)@ =~= old(out)@ + decimal_bytes(n as nat));
        }
    }
}

/// The decimal text of `n`, as `n.to_string()` writes it.
pub fn decimal_string(n: u64) -> (s: String)
    ensures
        s@ == decimal(n as nat),
{
    let mut digits: Vec<u8> = Vec::new();
    push_decimal(&mut digits, n);
    proof {
        assert(digits@ =~= decimal_bytes(n as nat));
        lemma_decimal_ascii(n as nat);
        lemma_ascii_decodes(digits@);
    }
    lossy_string(digits.as_slice())
}

} // verus!

verus! {

/// What `format!("{:?}", s)` writes for a string: it in double quotes, with
/// quotes, backslashes and non-printing characters escaped.
pub uninterp spec fn debug_text(s: Seq<char>) -> Seq<char>;

/// Formats `s` with `{:?}`; the text depends on `s` alone.
#[verifier::external_body]
pub(crate) fn debug_quoted(s: &str) -> (r: String)
    ensures
        r@ == debug_text(s@),
{
    format!("{:?}", s)
}

/// The hex digit of a value below 16, in lower case.
pub open spec fn hex_digit(d: u64) -> u8 {
    if d < 10 {
        (48 + d) as u8
    } else {
        (87 + d) as u8
    }
}

/// The `i`-th of the sixteen hex digits of `n`, most significant first.
pub open spec fn nibble(n: u64, i: int) -> u64 {
    (n >> ((60 - 4 * i) as u64)) & 15
}

/// The sixteen hex digits of `n`, zero-padded, in lower case.
pub open spec fn hex16(n: u64) -> Seq<char> {
    ascii_chars(Seq::new(16, |i: int| hex_digit(nibble(n, i))))
}

/// `n` as sixteen lower-case hex digits, as `{:016x}` writes it.
pub fn hex16_string(n: u64) -> (s: String)
    ensures
        s@ == hex16(n),
{
    let mut digits: Vec<u8> = Vec::new();
    let mut i: u64 = 0;
    while i < 16
        invariant
            i <= 16,
            digits@ == Seq::new(i as nat, |k: int| hex_digit(nibble(n, k))),
        decreases 16 - i,
    {
        let sh: u64 = 60 - 4 * i;
        let x: u64 = n >> sh;
        let d: u64 = x & 15;
        assert(x & 15 < 16) by (bit_vector);
        let c: u8 = if d < 10 {
            (48 + d) as u8
        } else {
            (87 + d) as u8
        };
        digits.push(c);
        i += 1;
        proof {
            assert(d == nibble(n, (i - 1) as int));
            assert(digits@ =~= Seq::new(i as nat, |k: int| hex_digit(nibble(n, k))));
        }
    }
    proof {
        assert forall|k: int| 0 <= k < digits@.len() implies #[trigger] digits@[k] < 128 by {
            let x: u64 = n >> ((60 - 4 * k) as u64);
            assert(x & 15 < 16) by (bit_vector);
        }
        lemma_ascii_decodes(digits@);
    }
    lossy_string(digits.as_slice())
}

} // verus!
