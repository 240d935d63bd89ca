//! Little-endian integer fields inside byte buffers.
use vstd::prelude::*;

verus! {

/// The unsigned value of the two bytes at `off`, little-endian.
pub open spec fn le16(b: Seq<u8>, off: int) -> int {
    b[off] + 256 * b[off + 1]
}

/// The unsigned value of the four bytes at `off`, little-endian.
pub open spec fn le32(b: Seq<u8>, off: int) -> int {
    b[off] + 256 * b[off + 1] + 65536 * b[off + 2] + 16777216 * b[off + 3]
}

/// The unsigned value of the eight bytes at `off`, little-endian.
pub open spec fn le64(b: Seq<u8>, off: int) -> int {
    le32(b, off) + 4294967296 * le32(b, off + 4)
}

/// The two little-endian bytes of `v` (taken modulo 2^16).
pub open spec fn bytes16(v: int) -> Seq<u8> {
    seq![(v % 256) as u8, ((v / 256) % 256) as u8]
}

/// The four little-endian bytes of `v` (taken modulo 2^32).
pub open spec fn bytes32(v: int) -> Seq<u8> {
    seq![
        (v % 256) as u8,
        ((v / 256) % 256) as u8,
        ((v / 65536) % 256) as u8,
        ((v / 16777216) % 256) as u8,
    ]
}

/// The eight little-endian bytes of `v` (taken modulo 2^64).
pub open spec fn bytes64(v: int) -> Seq<u8> {
    bytes32(v % 4294967296) + bytes32(v / 4294967296)
}

pub proof fn lemma_le32_bytes32(v: int, b: Seq<u8>, off: int)
    requires
        0 <= v < 4294967296,
        0 <= off,
        off + 4 <= b.len(),
        b.subrange(off, off + 4) == bytes32(v),
    ensures
        le32(b, off) == v,
{
    assert(b[off] == bytes32(v)[0]);
    assert(b[off + 1] == bytes32(v)[1]);
    assert(b[off + 2] == bytes32(v)[2]);
    assert(b[off + 3] == bytes32(v)[3]);
    assert(v == v % 256 + 256 * ((v / 256) % 256) + 65536 * ((v / 65536) % 256) + 16777216 * ((v
        / 16777216) % 256)) by (nonlinear_arith)
        requires
            0 <= v < 4294967296,
    ;
}

pub proof fn lemma_le16_bytes16(v: int, b: Seq<u8>, off: int)
    requires
        0 <= v < 65536,
        0 <= off,
        off + 2 <= b.len(),
        b.subrange(off, off + 2) == bytes16(v),
    ensures
        le16(b, off) == v,
{
    assert(b[off] == bytes16(v)[0]);
    assert(b[off + 1] == bytes16(v)[1]);
    assert(v == v % 256 + 256 * ((v / 256) % 256)) by (nonlinear_arith)
        requires
            0 <= v < 65536,
    ;
}

pub proof fn lemma_le64_bytes64(v: int, b: Seq<u8>, off: int)
    requires
        0 <= v < 0x1_0000_0000_0000_0000,
        0 <= off,
        off + 8 <= b.len(),
        b.subrange(off, off + 8) == bytes64(v),
    ensures
        le64(b, off) == v,
{
    let lo: int = v % 4294967296;
    let hi: int = v / 4294967296;
    assert(0 <= lo < 4294967296 && 0 <= hi < 4294967296 && v == lo + 4294967296 * hi)
        by (nonlinear_arith)
        requires
            0 <= v < 0x1_0000_0000_0000_0000,
            lo == v % 4294967296,
            hi == v / 4294967296,
    ;
    assert(b.subrange(off, off + 4) == bytes32(lo)) by {
        assert(b.subrange(off, off + 4) =~= b.subrange(off, off + 8).subrange(0, 4));
        assert(bytes64(v).subrange(0, 4) =~= bytes32(lo));
    }
    assert(b.subrange(off + 4, off + 8) == bytes32(hi)) by {
        assert(b.subrange(off + 4, off + 8) =~= b.subrange(off, off + 8).subrange(4, 8));
        assert(bytes64(v).subrange(4, 8) =~= bytes32(hi));
    }
    lemma_le32_bytes32(lo, b, off);
    lemma_le32_bytes32(hi, b, off + 4);
}

/// The `u16` at `off`, if two bytes are there.
pub fn read_u16(b: &[u8], off: usize) -> (r: Option<u16>)
    ensures
        r == (if off + 2 <= b@.len() {
            Some(le16(b@, off as int) as u16)
        } else {
            None::<u16>
        }),
        r matches Some(v) ==> v as int == le16(b@, off as int),
{
    if off > b.len() || b.len() - off < 2 {
        return None;
    }
    let v: u16 = b[off] as u16 + (b[off + 1] as u16) * 256;
    Some(v)
}

/// The `u32` at `off`, if four bytes are there.
pub fn read_u32(b: &[u8], off: usize) -> (r: Option<u32>)
    ensures
        r == (if off + 4 <= b@.len() {
            Some(le32(b@, off as int) as u32)
        } else {
            None::<u32>
        }),
        r matches Some(v) ==> v as int == le32(b@, off as int),
{
    if off > b.len() || b.len() - off < 4 {
        return None;
    }
    let v: u32 = b[off] as u32 + (b[off + 1] as u32) * 256 + (b[off + 2] as u32) * 65536 + (b[off
        + 3] as u32) * 16777216;
    Some(v)
}

/// The `u64` at `off`, if eight bytes are there.
pub fn read_u64(b: &[u8], off: usize) -> (r: Option<u64>)
    ensures
        r == (if off + 8 <= b@.len() {
            Some(le64(b@, off as int) as u64)
        } else {
            None::<u64>
        }),
        r matches Some(v) ==> v as int == le64(b@, off as int),
{
    if off > b.len() || b.len() - off < 8 {
        return None;
    }
    let lo: u32 = read_u32(b, off).unwrap();
    let hi: u32 = read_u32(b, off + 4).unwrap();
    let v: u64 = lo as u64 + (hi as u64) * 4294967296;
    Some(v)
}

/// Appends the two little-endian bytes of `x`.
pub fn push_u16(out: &mut Vec<u8>, x: u16)
    ensures
        final(out)@ == old(out)@ + bytes16(x as int),
{
    out.push((x % 256) as u8);
    out.push((x / 256) as u8);
    assert(final(out)@ =~= old(out)@ + bytes16(x as int));
}

/// Appends the four little-endian bytes of `x`.
pub fn push_u32(out: &mut Vec<u8>, x: u32)
    ensures
        final(out)@ == old(out)@ + bytes32(x as int),
{
    out.push((x % 256) as u8);
    out.push(((x / 256) % 256) as u8);
    out.push(((x / 65536) % 256) as u8);
    out.push((x / 16777216) as u8);
    assert(final(out)@ =~= old(out)@ + bytes32(x as int));
}

/// Appends the eight little-endian bytes of `x`.
pub fn push_u64(out: &mut Vec<u8>, x: u64)
    ensures
        final(out)@ == old(out)@ + bytes64(x as int),
{
    push_u32(out, (x % 4294967296) as u32);
    push_u32(out, (x / 4294967296) as u32);
    assert(final(out)@ =~= old(out)@ + bytes64(x as int));
}

pub proof fn lemma_bytes32_low(v: int)
    requires
        v >= 0,
    ensures
        bytes32(v % 4294967296) == bytes32(v),
{
    assert((v % 4294967296) % 256 == v % 256) by (nonlinear_arith)
        requires
            v >= 0,
    ;
    assert(((v % 4294967296) / 256) % 256 == (v / 256) % 256) by (nonlinear_arith)
        requires
            v >= 0,
    ;
    assert(((v % 4294967296) / 65536) % 256 == (v / 65536) % 256) by (nonlinear_arith)
        requires
            v >= 0,
    ;
    assert(((v % 4294967296) / 16777216) % 256 == (v / 16777216) % 256) by (nonlinear_arith)
        requires
            v >= 0,
    ;
}

/// Appends the low 32 bits of a length, little-endian.
pub fn push_len32(out: &mut Vec<u8>, n: usize)
    ensures
        final(out)@ == old(out)@ + bytes32(n as int),
{
    proof {
        lemma_bytes32_low(n as int);
    }
    push_u32(out, ((n as u64) % 4294967296) as u32);
}

/// Appends every byte of `bytes`.
pub fn push_all(out: &mut Vec<u8>, bytes: &[u8])
    ensures
        final(out)@ == old(out)@ + bytes@,
{
    let mut i: usize = 0;
    let ghost start = out@;
    while i < bytes.len()
        invariant
            i <= bytes@.len(),
            out@ == start + bytes@.subrange(0, i as int),
        decreases bytes.len() - i,
    {
        out.push(bytes[i]);
        i += 1;
        assert(out@ =~= start + bytes@.subrange(0, i as int));
    }
    assert(bytes@.subrange(0, i as int) =~= bytes@);
}

} // verus!

verus! {

/// Whether two byte strings are equal.
pub fn same_bytes(a: &[u8], b: &[u8]) -> (r: bool)
    ensures
        r == (a@ == b@),
{
    if a.len() != b.len() {
        return false;
    }
    let mut i: usize = 0;
    while i < a.len()
        invariant
            i <= a@.len(),
            a@.len() == b@.len(),
            forall|k: int| 0 <= k < i ==> a@[k] == b@[k],
        decreases a.len() - i,
    {
        if a[i] != b[i] {
            return false;
        }
        i += 1;
    }
    assert(a@ =~= b@);
    true
}

/// Whether a zero byte occurs in `s`.
pub fn has_zero(s: &[u8]) -> (r: bool)
    ensures
        r == (exists|k: int| 0 <= k < s@.len() && s@[k] == 0),
{
    let mut i: usize = 0;
    while i < s.len()
        invariant
            i <= s@.len(),
            forall|k: int| 0 <= k < i ==> s@[k] != 0,
        decreases s.len() - i,
    {
        if s[i] == 0 {
            return true;
        }
        i += 1;
    }
    false
}

} // verus!
