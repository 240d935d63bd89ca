//! Flat, count-prefixed reflection tables: the object table (`ROBJ`), the
//! interned-string table (`RSHI`) and the game-data key dictionary (`KEYS`).
//! One definition of each layout drives both reading and writing.
use vstd::prelude::*;

use crate::le::{bytes32, bytes64, le32, le64, push_all, push_len32, push_u32, push_u64, read_u32, read_u64};
use crate::text::{lossy_string, utf8_text};

verus! {

/// One `ROBJ` record (36 bytes): an object's id, its type hash, the offset of
/// its data within the `RFCI` blob, a reserved word, its owning object's id, and
/// the type's trailer word.
#[derive(Debug, Clone, Copy, PartialEq, Eq)]
pub struct ObjectRecord {
    pub id: u64,
    pub type_hash: u64,
    pub data_offset: u32,
    pub owner_id: u64,
    pub trailer: u32,
}

/// The `ROBJ` chunk body: a `u32` record count, a reserved `u32`, then the
/// records.
#[derive(Debug, Clone, PartialEq, Eq)]
pub struct ObjectTable {
    pub records: Vec<ObjectRecord>,
}

/// A `(u64 hash, length-prefixed string)` pair: the record shape of both the
/// reflection `RSHI` table and the RGD `KEYS` dictionary.
#[derive(Debug, Clone, PartialEq, Eq)]
pub struct HashedString {
    pub hash: u64,
    pub value: String,
}

/// The `RSHI` chunk body: a `u32` count, a reserved `u32`, then the records.
#[derive(Debug, Clone, PartialEq, Eq, Default)]
pub struct InternedStringTable {
    pub strings: Vec<HashedString>,
}

/// The RGD `KEYS` chunk body: a `u32` count then the records (no reserved word).
#[derive(Debug, Clone, PartialEq, Eq, Default)]
pub struct KeyTable {
    pub keys: Vec<HashedString>,
}

/// The size of one object record.
pub const OBJECT_RECORD_LEN: usize = 36;

/// The record at `off`, when 36 bytes are there.
pub open spec fn record_at(b: Seq<u8>, off: int) -> ObjectRecord {
    ObjectRecord {
        id: le64(b, off) as u64,
        type_hash: le64(b, off + 8) as u64,
        data_offset: le32(b, off + 16) as u32,
        owner_id: le64(b, off + 24) as u64,
        trailer: le32(b, off + 32) as u32,
    }
}

/// The object table in `b`: `None` when the count promises more records than
/// there are bytes.
pub open spec fn parse_object_table(b: Seq<u8>) -> Option<Seq<ObjectRecord>> {
    if b.len() < 8 {
        None
    } else if 8 + 36 * le32(b, 0) > b.len() {
        None
    } else {
        Some(Seq::new(le32(b, 0) as nat, |i: int| record_at(b, 8 + 36 * i)))
    }
}

pub open spec fn record_bytes(r: ObjectRecord) -> Seq<u8> {
    bytes64(r.id as int) + bytes64(r.type_hash as int) + bytes32(r.data_offset as int) + bytes32(0)
        + bytes64(r.owner_id as int) + bytes32(r.trailer as int)
}

pub open spec fn records_bytes(rs: Seq<ObjectRecord>) -> Seq<u8>
    decreases rs.len(),
{
    if rs.len() == 0 {
        Seq::empty()
    } else {
        records_bytes(rs.drop_last()) + record_bytes(rs.last())
    }
}

/// The written table: count, reserved word, records.
pub open spec fn object_table_bytes(rs: Seq<ObjectRecord>) -> Seq<u8> {
    bytes32(rs.len() as int) + bytes32(0) + records_bytes(rs)
}

/// A hashed string record at `off`: `(hash, raw bytes, offset after it)`.
pub open spec fn hashed_at(b: Seq<u8>, off: int) -> Option<(u64, Seq<u8>, int)> {
    if off + 12 > b.len() {
        None
    } else if off + 12 + le32(b, off + 8) > b.len() {
        None
    } else {
        Some(
            (
                le64(b, off) as u64,
                b.subrange(off + 12, off + 12 + le32(b, off + 8)),
                off + 12 + le32(b, off + 8),
            ),
        )
    }
}

/// `n` hashed-string records read from `off`, each as `(hash, raw bytes)`;
/// `None` when one runs past the end.
pub open spec fn hashed_records(b: Seq<u8>, off: int, n: nat) -> Option<Seq<(u64, Seq<u8>)>>
    decreases n,
{
    if n == 0 {
        Some(Seq::empty())
    } else {
        match hashed_at(b, off) {
            None => None,
            Some((h, raw, next)) => match hashed_records(b, next, (n - 1) as nat) {
                None => None,
                Some(rest) => Some(seq![(h, raw)] + rest),
            },
        }
    }
}

pub open spec fn view_hashed(v: Seq<HashedString>) -> Seq<(u64, Seq<char>)> {
    v.map_values(|h: HashedString| (h.hash, h.value@))
}

pub open spec fn lossy_records(v: Seq<(u64, Seq<u8>)>) -> Seq<(u64, Seq<char>)> {
    v.map_values(|h: (u64, Seq<u8>)| (h.0, utf8_text(h.1)))
}

pub open spec fn hashed_bytes(h: (u64, Seq<char>)) -> Seq<u8> {
    bytes64(h.0 as int) + bytes32(vstd::utf8::encode_utf8(h.1).len() as int) + vstd::utf8::encode_utf8(h.1)
}

pub open spec fn hashed_list_bytes(v: Seq<(u64, Seq<char>)>) -> Seq<u8>
    decreases v.len(),
{
    if v.len() == 0 {
        Seq::empty()
    } else {
        hashed_list_bytes(v.drop_last()) + hashed_bytes(v.last())
    }
}

fn read_hashed_records(b: &[u8], off: usize, n: u64) -> (r: Option<Vec<HashedString>>)
    ensures
        match hashed_records(b@, off as int, n as nat) {
            None => r is None,
            Some(v) => r matches Some(x) && view_hashed(x@) == lossy_records(v),
        },
{
    let mut out: Vec<HashedString> = Vec::new();
    let mut pos: usize = off;
    let mut i: u64 = 0;
    let blen: usize = b.len();
    let ghost whole = hashed_records(b@, off as int, n as nat);
    proof {
        assert(view_hashed(out@) =~= Seq::<(u64, Seq<char>)>::empty());
    }
    while i < n
        invariant
            i <= n,
            blen == b@.len(),
            pos <= b@.len() || i == 0,
            whole == hashed_records(b@, off as int, n as nat),
            match hashed_records(b@, pos as int, (n - i) as nat) {
                None => whole is None,
                Some(rest) => whole matches Some(w) && w == Seq::new(i as nat, |k: int| w[k])
                    + rest && lossy_records(Seq::new(i as nat, |k: int| w[k])) == view_hashed(
                    out@,
                ),
            },
        decreases n - i,
    {
        let hash: u64 = match read_u64(b, pos) {
            Some(h) => h,
            None => {
                return None;
            },
        };
        let len: u32 = match read_u32(b, pos + 8) {
            Some(l) => l,
            None => {
                return None;
            },
        };
        if len as usize > b.len() - (pos + 12) {
            return None;
        }
        let start: usize = pos + 12;
        let end: usize = start + len as usize;
        let raw: &[u8] = vstd::slice::slice_subrange(b, start, end);
        let value: String = lossy_string(raw);
        let ghost before = out@;
        out.push(HashedString { hash, value });
        proof {
            assert(hashed_at(b@, pos as int) == Some((hash, raw@, end as int)));
            if hashed_records(b@, end as int, (n - i - 1) as nat) is Some {
            let rest = hashed_records(b@, pos as int, (n - i) as nat)->Some_0;
            let rest2 = hashed_records(b@, end as int, (n - i - 1) as nat)->Some_0;
            let w = whole->Some_0;
            assert(rest == seq![(hash, raw@)] + rest2);
            assert(w[i as int] == rest[0]);
            assert(w[i as int] == (hash, raw@));
            assert(Seq::new((i + 1) as nat, |k: int| w[k]) =~= Seq::new(i as nat, |k: int| w[k])
                .push((hash, raw@)));
            assert(view_hashed(out@) =~= view_hashed(before).push((hash, value@)));
            assert(lossy_records(Seq::new((i + 1) as nat, |k: int| w[k])) =~= lossy_records(
                Seq::new(i as nat, |k: int| w[k]),
            ).push((hash, utf8_text(raw@))));
            assert(w =~= Seq::new((i + 1) as nat, |k: int| w[k]) + rest2);
            }
        }
        pos = end;
        i += 1;
    }
    proof {
        let w = whole->Some_0;
        assert(hashed_records(b@, pos as int, 0) == Some(Seq::<(u64, Seq<u8>)>::empty()));
        assert(Seq::new(n as nat, |k: int| w[k]) =~= w);
    }
    Some(out)
}

fn read_record(b: &[u8], off: usize) -> (r: ObjectRecord)
    requires
        off + 36 <= b@.len(),
    ensures
        r == record_at(b@, off as int),
{
    let _len: usize = b.len();
    ObjectRecord {
        id: read_u64(b, off).unwrap(),
        type_hash: read_u64(b, off + 8).unwrap(),
        data_offset: read_u32(b, off + 16).unwrap(),
        owner_id: read_u64(b, off + 24).unwrap(),
        trailer: read_u32(b, off + 32).unwrap(),
    }
}

fn write_hashed_list(out: &mut Vec<u8>, v: &Vec<HashedString>)
    ensures
        final(out)@ == old(out)@ + hashed_list_bytes(view_hashed(v@)),
{
    let ghost start = out@;
    let mut i: usize = 0;
    proof {
        assert(view_hashed(v@).subrange(0, 0) =~= Seq::<(u64, Seq<char>)>::empty());
    }
    while i < v.len()
        invariant
            i <= v@.len(),
            view_hashed(v@).len() == v@.len(),
            out@ == start + hashed_list_bytes(view_hashed(v@).subrange(0, i as int)),
        decreases v.len() - i,
    {
        let h: &HashedString = &v[i];
        let ghost before = out@;
        push_u64(out, h.hash);
        let bs: &[u8] = h.value.as_str().as_bytes();
        push_len32(out, bs.len());
        push_all(out, bs);
        proof {
            let part = view_hashed(v@).subrange(0, i + 1);
            assert(part.drop_last() =~= view_hashed(v@).subrange(0, i as int));
            assert(part.last() == (h.hash, h.value@));
            assert(out@ =~= before + hashed_bytes((h.hash, h.value@)));
        }
        i += 1;
    }
    assert(view_hashed(v@).subrange(0, i as int) =~= view_hashed(v@));
}

fn push_record(out: &mut Vec<u8>, r: ObjectRecord)
    ensures
        final(out)@ == old(out)@ + record_bytes(r),
{
    let ghost before = out@;
    push_u64(out, r.id);
    push_u64(out, r.type_hash);
    push_u32(out, r.data_offset);
    push_u32(out, 0);
    push_u64(out, r.owner_id);
    push_u32(out, r.trailer);
    assert(out@ =~= before + record_bytes(r));
}

impl ObjectTable {
    /// Reads the table; `None` when the count promises more records than the
    /// bytes hold.
    pub fn read(bytes: &[u8]) -> (r: Option<ObjectTable>)
        ensures
            match parse_object_table(bytes@) {
                None => r is None,
                Some(v) => r matches Some(t) && t.records@ == v,
            },
    {
        let count: u32 = match read_u32(bytes, 0) {
            Some(c) => c,
            None => {
                return None;
            },
        };
        if bytes.len() < 8 {
            return None;
        }
        if (count as u64) * 36 > (bytes.len() - 8) as u64 {
            return None;
        }
        let mut records: Vec<ObjectRecord> = Vec::new();
        let mut i: usize = 0;
        let blen: usize = bytes.len();
        while i < count as usize
            invariant
                i <= count,
                blen == bytes@.len(),
                count == le32(bytes@, 0),
                8 + 36 * count <= bytes@.len(),
                records@.len() == i,
                forall|k: int| 0 <= k < i ==> records@[k] == record_at(bytes@, 8 + 36 * k),
            decreases count - i,
        {
            records.push(read_record(bytes, 8 + 36 * i));
            i += 1;
        }
        proof {
            assert(records@ =~= parse_object_table(bytes@)->Some_0);
        }
        Some(ObjectTable { records })
    }

    /// The table's bytes: count, a reserved zero word, then the records.
    pub fn write(&self) -> (out: Vec<u8>)
        ensures
            out@ == object_table_bytes(self.records@),
    {
        let mut out: Vec<u8> = Vec::new();
        push_len32(&mut out, self.records.len());
        push_u32(&mut out, 0);
        let ghost head = out@;
        let mut i: usize = 0;
        proof {
            assert(self.records@.subrange(0, 0) =~= Seq::<ObjectRecord>::empty());
        }
        while i < self.records.len()
            invariant
                i <= self.records@.len(),
                out@ == head + records_bytes(self.records@.subrange(0, i as int)),
            decreases self.records.len() - i,
        {
            let r: ObjectRecord = self.records[i];
            push_record(&mut out, r);
            proof {
                let part = self.records@.subrange(0, i + 1);
                assert(part.drop_last() =~= self.records@.subrange(0, i as int));
            }
            i += 1;
        }
        assert(self.records@.subrange(0, i as int) =~= self.records@);
        out
    }
}

/// The `RSHI` table in `b`, as `(hash, raw bytes)` records.
pub open spec fn parse_interned_table(b: Seq<u8>) -> Option<Seq<(u64, Seq<u8>)>> {
    if b.len() < 8 {
        None
    } else {
        hashed_records(b, 8, le32(b, 0) as nat)
    }
}

/// The `KEYS` table in `b`, as `(hash, raw bytes)` records.
pub open spec fn parse_key_table(b: Seq<u8>) -> Option<Seq<(u64, Seq<u8>)>> {
    if b.len() < 4 {
        None
    } else {
        hashed_records(b, 4, le32(b, 0) as nat)
    }
}

impl InternedStringTable {
    /// Reads the table; `None` when it is cut short.
    pub fn read(bytes: &[u8]) -> (r: Option<InternedStringTable>)
        ensures
            match parse_interned_table(bytes@) {
                None => r is None,
                Some(v) => r matches Some(t) && view_hashed(t.strings@) == lossy_records(v),
            },
    {
        if bytes.len() < 8 {
            return None;
        }
        let count: u32 = read_u32(bytes, 0).unwrap();
        match read_hashed_records(bytes, 8, count as u64) {
            Some(strings) => Some(InternedStringTable { strings }),
            None => None,
        }
    }

    /// The table's bytes: count, a reserved zero word, then the records.
    pub fn write(&self) -> (out: Vec<u8>)
        ensures
            out@ == bytes32(self.strings@.len() as int) + bytes32(0) + hashed_list_bytes(
                view_hashed(self.strings@),
            ),
    {
        let mut out: Vec<u8> = Vec::new();
        push_len32(&mut out, self.strings.len());
        push_u32(&mut out, 0);
        write_hashed_list(&mut out, &self.strings);
        out
    }
}

impl KeyTable {
    /// Reads the table; `None` when it is cut short.
    pub fn read(bytes: &[u8]) -> (r: Option<KeyTable>)
        ensures
            match parse_key_table(bytes@) {
                None => r is None,
                Some(v) => r matches Some(t) && view_hashed(t.keys@) == lossy_records(v),
            },
    {
        if bytes.len() < 4 {
            return None;
        }
        let count: u32 = read_u32(bytes, 0).unwrap();
        match read_hashed_records(bytes, 4, count as u64) {
            Some(keys) => Some(KeyTable { keys }),
            None => None,
        }
    }

    /// The table's bytes: count, then the records.
    pub fn write(&self) -> (out: Vec<u8>)
        ensures
            out@ == bytes32(self.keys@.len() as int) + hashed_list_bytes(view_hashed(self.keys@)),
    {
        let mut out: Vec<u8> = Vec::new();
        push_len32(&mut out, self.keys.len());
        write_hashed_list(&mut out, &self.keys);
        out
    }
}

} // verus!
