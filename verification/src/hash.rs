//! CityHash64, the engine's string hash. It interns reflection enum and string
//! values and keys Relic game-data (`.rgd`) dictionaries, for inputs of any
//! length.
use vstd::prelude::*;

use crate::le::{le32, le64, read_u32, read_u64};
use vstd::string::StringSliceAdditionalSpecFns;

verus! {

pub const K0: u64 = 0xc3a5c85c97cb3127;

pub const K1: u64 = 0xb492b66fbe98f273;

pub const K2: u64 = 0x9ae16a3b2f90404f;

pub const KMUL: u64 = 0x9ddfea08eb382d69;

/// `v` rotated right by `k` bits, `0 < k < 64`.
pub open spec fn rotr(v: u64, k: u64) -> u64 {
    (v >> k) | (v << ((64 - k) as u64))
}

/// `v` with its eight bytes in reverse order.
pub open spec fn bswap(v: u64) -> u64 {
    ((v & 0xff) << 56u64) | (((v >> 8u64) & 0xff) << 48u64) | (((v >> 16u64) & 0xff) << 40u64) | ((
    (v >> 24u64) & 0xff) << 32u64) | (((v >> 32u64) & 0xff) << 24u64) | (((v >> 40u64) & 0xff)
        << 16u64) | (((v >> 48u64) & 0xff) << 8u64) | ((v >> 56u64) & 0xff)
}

pub open spec fn fetch64(s: Seq<u8>, o: int) -> u64 {
    le64(s, o) as u64
}

pub open spec fn fetch32(s: Seq<u8>, o: int) -> u64 {
    le32(s, o) as u64
}

pub open spec fn spec_shift_mix(v: u64) -> u64 {
    v ^ (v >> 47u64)
}

pub open spec fn spec_hash_len_16_mul(u: u64, v: u64, mul: u64) -> u64 {
    let a0 = (u ^ v).wrapping_mul(mul);
    let a = a0 ^ (a0 >> 47u64);
    let b = (v ^ a).wrapping_mul(mul);
    (b ^ (b >> 47u64)).wrapping_mul(mul)
}

pub open spec fn spec_hash_128_to_64(low: u64, high: u64) -> u64 {
    spec_hash_len_16_mul(low, high, KMUL)
}

pub open spec fn spec_weak_hash_len_32(w: u64, x: u64, y: u64, z: u64, a: u64, b: u64) -> (
    u64,
    u64,
) {
    let a1 = a.wrapping_add(w);
    let b1 = rotr(b.wrapping_add(a1).wrapping_add(z), 21);
    let c = a1;
    let a2 = a1.wrapping_add(x).wrapping_add(y);
    let b2 = b1.wrapping_add(rotr(a2, 44));
    (a2.wrapping_add(z), b2.wrapping_add(c))
}

pub open spec fn spec_weak_hash_at(s: Seq<u8>, o: int, a: u64, b: u64) -> (u64, u64) {
    spec_weak_hash_len_32(
        fetch64(s, o),
        fetch64(s, o + 8),
        fetch64(s, o + 16),
        fetch64(s, o + 24),
        a,
        b,
    )
}

pub open spec fn spec_hash_len_0_16(s: Seq<u8>) -> u64 {
    let len = s.len();
    if len >= 8 {
        let mul = K2.wrapping_add((2 * len) as u64);
        let a = fetch64(s, 0).wrapping_add(K2);
        let b = fetch64(s, len - 8);
        let u = rotr(b, 37).wrapping_mul(mul).wrapping_add(a);
        let v = rotr(a, 25).wrapping_add(b).wrapping_mul(mul);
        spec_hash_len_16_mul(u, v, mul)
    } else if len >= 4 {
        let mul = K2.wrapping_add((2 * len) as u64);
        let a = fetch32(s, 0);
        spec_hash_len_16_mul((len as u64).wrapping_add(a << 3u64), fetch32(s, len - 4), mul)
    } else if len > 0 {
        let a = s[0] as u64;
        let b = s[(len / 2) as int] as u64;
        let c = s[len - 1] as u64;
        let y = a.wrapping_add(b << 8u64);
        let z = (len as u64).wrapping_add(c << 2u64);
        spec_shift_mix(y.wrapping_mul(K2) ^ z.wrapping_mul(K0)).wrapping_mul(K2)
    } else {
        K2
    }
}

pub open spec fn spec_hash_len_17_32(s: Seq<u8>) -> u64 {
    let len = s.len();
    let mul = K2.wrapping_add((2 * len) as u64);
    let a = fetch64(s, 0).wrapping_mul(K1);
    let b = fetch64(s, 8);
    let c = fetch64(s, len - 8).wrapping_mul(mul);
    let d = fetch64(s, len - 16).wrapping_mul(K2);
    spec_hash_len_16_mul(
        rotr(a.wrapping_add(b), 43).wrapping_add(rotr(c, 30)).wrapping_add(d),
        a.wrapping_add(rotr(b.wrapping_add(K2), 18)).wrapping_add(c),
        mul,
    )
}

pub open spec fn spec_hash_len_33_64(s: Seq<u8>) -> u64 {
    let len = s.len();
    let mul = K2.wrapping_add((2 * len) as u64);
    let a = fetch64(s, 0).wrapping_mul(K2);
    let b = fetch64(s, 8);
    let c = fetch64(s, len - 24);
    let d = fetch64(s, len - 32);
    let e = fetch64(s, 16).wrapping_mul(K2);
    let f = fetch64(s, 24).wrapping_mul(9);
    let g = fetch64(s, len - 8);
    let h = fetch64(s, len - 16).wrapping_mul(mul);
    let n10 = rotr(a.wrapping_add(g), 43).wrapping_add(
        rotr(b, 30).wrapping_add(c).wrapping_mul(9),
    );
    let n11 = (a.wrapping_add(g) ^ d).wrapping_add(f).wrapping_add(1);
    let n12 = bswap(n10.wrapping_add(n11).wrapping_mul(mul)).wrapping_add(h);
    let n13 = rotr(e.wrapping_add(f), 42).wrapping_add(c);
    let n14 = bswap(n11.wrapping_add(n12).wrapping_mul(mul)).wrapping_add(g).wrapping_mul(mul);
    let n15 = e.wrapping_add(f).wrapping_add(c);
    let a2 = bswap(n13.wrapping_add(n15).wrapping_mul(mul).wrapping_add(n14)).wrapping_add(b);
    let b2 = spec_shift_mix(n15.wrapping_add(a2).wrapping_mul(mul).wrapping_add(d).wrapping_add(h),
    ).wrapping_mul(mul);
    b2.wrapping_add(n13)
}

/// State of the long-input loop: `(x, y, z, v, w)`.
pub type CityState = (u64, u64, u64, (u64, u64), (u64, u64));

/// One 64-byte round of the long-input loop at `pos`.
#[verifier::opaque]
pub open spec fn spec_city_round(s: Seq<u8>, pos: int, st: CityState) -> CityState {
    let (x0, y0, z0, v0, w0) = st;
    let x1 = rotr(
        x0.wrapping_add(y0).wrapping_add(v0.0).wrapping_add(fetch64(s, pos + 8)),
        37,
    ).wrapping_mul(K1);
    let y1 = rotr(y0.wrapping_add(v0.1).wrapping_add(fetch64(s, pos + 48)), 42).wrapping_mul(K1);
    let x2 = x1 ^ w0.1;
    let y2 = y1.wrapping_add(v0.0).wrapping_add(fetch64(s, pos + 40));
    let z1 = rotr(z0.wrapping_add(w0.0), 33).wrapping_mul(K1);
    let v1 = spec_weak_hash_at(s, pos, v0.1.wrapping_mul(K1), x2.wrapping_add(w0.0));
    let w1 = spec_weak_hash_at(s, pos + 32, z1.wrapping_add(w0.1), y2.wrapping_add(fetch64(s, pos + 16)));
    (z1, y2, x2, v1, w1)
}

/// The long-input loop run over the `n` bytes starting at `pos`, `n` a
/// positive multiple of 64.
pub open spec fn spec_city_rounds(s: Seq<u8>, pos: int, n: int, st: CityState) -> CityState
    decreases n,
{
    let next = spec_city_round(s, pos, st);
    if n <= 64 {
        next
    } else {
        spec_city_rounds(s, pos + 64, n - 64, next)
    }
}

pub open spec fn spec_city_hash64(s: Seq<u8>) -> u64 {
    let n = s.len();
    if n <= 16 {
        spec_hash_len_0_16(s)
    } else if n <= 32 {
        spec_hash_len_17_32(s)
    } else if n <= 64 {
        spec_hash_len_33_64(s)
    } else {
        let x = fetch64(s, n - 40);
        let y = fetch64(s, n - 16).wrapping_add(fetch64(s, n - 56));
        let z = spec_hash_128_to_64(fetch64(s, n - 48).wrapping_add(n as u64), fetch64(s, n - 24));
        let v = spec_weak_hash_at(s, n - 64, n as u64, z);
        let w = spec_weak_hash_at(s, n - 32, y.wrapping_add(K1), x);
        let x1 = x.wrapping_mul(K1).wrapping_add(fetch64(s, 0));
        let rounds = ((n - 1) as u64 & !63u64) as int;
        let (xf, yf, zf, vf, wf) = spec_city_rounds(s, 0, rounds, (x1, y, z, v, w));
        spec_hash_128_to_64(
            spec_hash_128_to_64(vf.0, wf.0).wrapping_add(spec_shift_mix(yf).wrapping_mul(K1)).wrapping_add(zf),
            spec_hash_128_to_64(vf.1, wf.1).wrapping_add(xf),
        )
    }
}

/// ASCII `A`..`Z` mapped to lower case; every other byte kept.
pub open spec fn ascii_lower(b: u8) -> u8 {
    if 65 <= b <= 90 {
        (b + 32) as u8
    } else {
        b
    }
}

pub open spec fn spec_dictionary_hash(key: Seq<u8>) -> u64 {
    spec_city_hash64(key.map_values(|b: u8| ascii_lower(b)))
}

fn rotate_right(v: u64, k: u64) -> (r: u64)
    requires
        0 < k < 64,
    ensures
        r == rotr(v, k),
{
    (v >> k) | (v << (64 - k))
}

fn swap_bytes(v: u64) -> (r: u64)
    ensures
        r == bswap(v),
{
    ((v & 0xff) << 56u64) | (((v >> 8u64) & 0xff) << 48u64) | (((v >> 16u64) & 0xff) << 40u64) | ((
    (v >> 24u64) & 0xff) << 32u64) | (((v >> 32u64) & 0xff) << 24u64) | (((v >> 40u64) & 0xff)
        << 16u64) | (((v >> 48u64) & 0xff) << 8u64) | ((v >> 56u64) & 0xff)
}

fn u64_le(s: &[u8], o: usize) -> (r: u64)
    requires
        o + 8 <= s@.len(),
    ensures
        r == fetch64(s@, o as int),
{
    read_u64(s, o).unwrap()
}

fn u32_le(s: &[u8], o: usize) -> (r: u64)
    requires
        o + 4 <= s@.len(),
    ensures
        r == fetch32(s@, o as int),
{
    read_u32(s, o).unwrap() as u64
}

fn shift_mix(v: u64) -> (r: u64)
    ensures
        r == spec_shift_mix(v),
{
    v ^ (v >> 47u64)
}

fn hash_len_16_mul(u: u64, v: u64, mul: u64) -> (r: u64)
    ensures
        r == spec_hash_len_16_mul(u, v, mul),
{
    let mut a: u64 = (u ^ v).wrapping_mul(mul);
    a = a ^ (a >> 47u64);
    let b: u64 = (v ^ a).wrapping_mul(mul);
    (b ^ (b >> 47u64)).wrapping_mul(mul)
}

fn hash_128_to_64(low: u64, high: u64) -> (r: u64)
    ensures
        r == spec_hash_128_to_64(low, high),
{
    hash_len_16_mul(low, high, KMUL)
}

fn hash_len_16(u: u64, v: u64) -> (r: u64)
    ensures
        r == spec_hash_128_to_64(u, v),
{
    hash_128_to_64(u, v)
}

fn weak_hash_len_32(w: u64, x: u64, y: u64, z: u64, a: u64, b: u64) -> (r: (u64, u64))
    ensures
        r == spec_weak_hash_len_32(w, x, y, z, a, b),
{
    let a1: u64 = a.wrapping_add(w);
    let b1: u64 = rotate_right(b.wrapping_add(a1).wrapping_add(z), 21);
    let c: u64 = a1;
    let a2: u64 = a1.wrapping_add(x).wrapping_add(y);
    let b2: u64 = b1.wrapping_add(rotate_right(a2, 44));
    (a2.wrapping_add(z), b2.wrapping_add(c))
}

fn weak_hash_at(s: &[u8], o: usize, a: u64, b: u64) -> (r: (u64, u64))
    requires
        o + 32 <= s@.len(),
    ensures
        r == spec_weak_hash_at(s@, o as int, a, b),
{
    let _len: usize = s.len();
    weak_hash_len_32(u64_le(s, o), u64_le(s, o + 8), u64_le(s, o + 16), u64_le(s, o + 24), a, b)
}

fn hash_len_0_16(s: &[u8]) -> (r: u64)
    requires
        s@.len() <= 16,
    ensures
        r == spec_hash_len_0_16(s@),
{
    let len: usize = s.len();
    if len >= 8 {
        let mul: u64 = K2.wrapping_add(2 * len as u64);
        let a: u64 = u64_le(s, 0).wrapping_add(K2);
        let b: u64 = u64_le(s, len - 8);
        let u: u64 = rotate_right(b, 37).wrapping_mul(mul).wrapping_add(a);
        let v: u64 = rotate_right(a, 25).wrapping_add(b).wrapping_mul(mul);
        hash_len_16_mul(u, v, mul)
    } else if len >= 4 {
        let mul: u64 = K2.wrapping_add(2 * len as u64);
        let a: u64 = u32_le(s, 0);
        hash_len_16_mul((len as u64).wrapping_add(a << 3u64), u32_le(s, len - 4), mul)
    } else if len > 0 {
        let a: u64 = s[0] as u64;
        let b: u64 = s[len / 2] as u64;
        let c: u64 = s[len - 1] as u64;
        let y: u64 = a.wrapping_add(b << 8u64);
        let z: u64 = (len as u64).wrapping_add(c << 2u64);
        shift_mix(y.wrapping_mul(K2) ^ z.wrapping_mul(K0)).wrapping_mul(K2)
    } else {
        K2
    }
}

fn hash_len_17_32(s: &[u8]) -> (r: u64)
    requires
        17 <= s@.len() <= 32,
    ensures
        r == spec_hash_len_17_32(s@),
{
    let len: usize = s.len();
    let mul: u64 = K2.wrapping_add(2 * len as u64);
    let a: u64 = u64_le(s, 0).wrapping_mul(K1);
    let b: u64 = u64_le(s, 8);
    let c: u64 = u64_le(s, len - 8).wrapping_mul(mul);
    let d: u64 = u64_le(s, len - 16).wrapping_mul(K2);
    hash_len_16_mul(
        rotate_right(a.wrapping_add(b), 43).wrapping_add(rotate_right(c, 30)).wrapping_add(d),
        a.wrapping_add(rotate_right(b.wrapping_add(K2), 18)).wrapping_add(c),
        mul,
    )
}

fn hash_len_33_64(s: &[u8]) -> (r: u64)
    requires
        33 <= s@.len() <= 64,
    ensures
        r == spec_hash_len_33_64(s@),
{
    let len: usize = s.len();
    let mul: u64 = K2.wrapping_add(2 * len as u64);
    let a: u64 = u64_le(s, 0).wrapping_mul(K2);
    let b: u64 = u64_le(s, 8);
    let c: u64 = u64_le(s, len - 24);
    let d: u64 = u64_le(s, len - 32);
    let e: u64 = u64_le(s, 16).wrapping_mul(K2);
    let f: u64 = u64_le(s, 24).wrapping_mul(9);
    let g: u64 = u64_le(s, len - 8);
    let h: u64 = u64_le(s, len - 16).wrapping_mul(mul);
    let n10: u64 = rotate_right(a.wrapping_add(g), 43).wrapping_add(
        rotate_right(b, 30).wrapping_add(c).wrapping_mul(9),
    );
    let n11: u64 = (a.wrapping_add(g) ^ d).wrapping_add(f).wrapping_add(1);
    let n12: u64 = swap_bytes(n10.wrapping_add(n11).wrapping_mul(mul)).wrapping_add(h);
    let n13: u64 = rotate_right(e.wrapping_add(f), 42).wrapping_add(c);
    let n14: u64 = swap_bytes(n11.wrapping_add(n12).wrapping_mul(mul)).wrapping_add(g).wrapping_mul(
        mul,
    );
    let n15: u64 = e.wrapping_add(f).wrapping_add(c);
    let a2: u64 = swap_bytes(n13.wrapping_add(n15).wrapping_mul(mul).wrapping_add(n14)).wrapping_add(
        b,
    );
    let b2: u64 = shift_mix(
        n15.wrapping_add(a2).wrapping_mul(mul).wrapping_add(d).wrapping_add(h),
    ).wrapping_mul(mul);
    b2.wrapping_add(n13)
}

fn city_round(s: &[u8], pos: usize, st: CityState) -> (r: CityState)
    requires
        pos + 64 <= s@.len(),
    ensures
        r == spec_city_round(s@, pos as int, st),
{
    let _len: usize = s.len();
    reveal(spec_city_round);
    let (x0, y0, z0, v0, w0) = st;
    let x1: u64 = rotate_right(
        x0.wrapping_add(y0).wrapping_add(v0.0).wrapping_add(u64_le(s, pos + 8)),
        37,
    ).wrapping_mul(K1);
    let y1: u64 = rotate_right(y0.wrapping_add(v0.1).wrapping_add(u64_le(s, pos + 48)), 42).wrapping_mul(K1);
    let x2: u64 = x1 ^ w0.1;
    let y2: u64 = y1.wrapping_add(v0.0).wrapping_add(u64_le(s, pos + 40));
    let z1: u64 = rotate_right(z0.wrapping_add(w0.0), 33).wrapping_mul(K1);
    let v1: (u64, u64) = weak_hash_at(s, pos, v0.1.wrapping_mul(K1), x2.wrapping_add(w0.0));
    let w1: (u64, u64) = weak_hash_at(s, pos + 32, z1.wrapping_add(w0.1), y2.wrapping_add(u64_le(s, pos + 16)));
    (z1, y2, x2, v1, w1)
}

/// CityHash64 over the given bytes, for keys and interned strings of any length.
pub fn city_hash64(s: &[u8]) -> (h: u64)
    ensures
        h == spec_city_hash64(s@),
{
    let len: usize = s.len();
    if len <= 16 {
        return hash_len_0_16(s);
    }
    if len <= 32 {
        return hash_len_17_32(s);
    }
    if len <= 64 {
        return hash_len_33_64(s);
    }
    let mut x: u64 = u64_le(s, len - 40);
    let mut y: u64 = u64_le(s, len - 16).wrapping_add(u64_le(s, len - 56));
    let mut z: u64 = hash_len_16(u64_le(s, len - 48).wrapping_add(len as u64), u64_le(s, len - 24));
    let mut v: (u64, u64) = weak_hash_at(s, len - 64, len as u64, z);
    let mut w: (u64, u64) = weak_hash_at(s, len - 32, y.wrapping_add(K1), x);
    x = x.wrapping_mul(K1).wrapping_add(u64_le(s, 0));
    let m: u64 = (len - 1) as u64;
    let rounds: u64 = m & !63u64;
    assert(rounds % 64 == 0 && rounds <= m && rounds >= 64) by (bit_vector)
        requires
            rounds == m & !63u64,
            m >= 64,
    ;
    let mut n: usize = rounds as usize;
    let mut pos: usize = 0;
    let mut st: CityState = (x, y, z, v, w);
    let ghost goal = spec_city_rounds(s@, 0, rounds as int, st);
    loop
        invariant_except_break
            n % 64 == 0,
            n >= 64,
            pos + n <= len - 1,
            spec_city_rounds(s@, pos as int, n as int, st) == goal,
        invariant
            len == s@.len(),
        ensures
            st == goal,
        decreases n,
    {
        st = city_round(s, pos, st);
        if n == 64 {
            break;
        }
        pos = pos + 64;
        n = n - 64;
    }
    let (x, y, z, v, w) = st;
    hash_len_16(
        hash_len_16(v.0, w.0).wrapping_add(shift_mix(y).wrapping_mul(K1)).wrapping_add(z),
        hash_len_16(v.1, w.1).wrapping_add(x),
    )
}

/// The engine's dictionary hash: CityHash64 of the key with ASCII letters
/// lower-cased. Keys `.rgd` dictionaries.
pub fn dictionary_hash(key: &str) -> (h: u64)
    ensures
        h == spec_dictionary_hash(key.spec_bytes()),
{
    let bytes: &[u8] = key.as_bytes();
    let mut lower: Vec<u8> = Vec::with_capacity(bytes.len());
    let mut i: usize = 0;
    while i < bytes.len()
        invariant
            i <= bytes@.len(),
            lower@.len() == i,
            forall|j: int| 0 <= j < i ==> lower@[j] == ascii_lower(#[trigger] bytes@[j]),
        decreases bytes.len() - i,
    {
        let b: u8 = bytes[i];
        if 65 <= b && b <= 90 {
            lower.push(b + 32);
        } else {
            lower.push(b);
        }
        i += 1;
    }
    assert(lower@ =~= bytes@.map_values(|b: u8| ascii_lower(b)));
    city_hash64(lower.as_slice())
}

} // verus!
