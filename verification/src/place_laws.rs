//! Where placement puts what a slot points at: a string behind its slot,
//! and each target of a pointer block at the offset its slot holds.
use vstd::prelude::*;

use crate::le::{bytes32, bytes64};
use crate::reflect_write::{
    grow, grown, i64_bits, index_of, max_int, place_str, put, rel32, spec_pointers, PlaceError, SpecCtx,
    SpecPlacement,
};

verus! {

/// `bytes` stand in `blob` from `at`.
pub open spec fn holds_at(blob: Seq<u8>, at: int, bytes: Seq<u8>) -> bool {
    &&& 0 <= at
    &&& at + bytes.len() <= blob.len()
    &&& forall|k: int| 0 <= k < bytes.len() ==> #[trigger] blob[at + k] == bytes[k]
}

proof fn lemma_grow(st: SpecPlacement, end: int)
    ensures
        grow(st, end) matches Ok(s) ==> s.blob.len() >= end && s.blob.len() >= st.blob.len() && forall|k: int|
            0 <= k < st.blob.len() ==> #[trigger] s.blob[k] == st.blob[k],
{
    if let Ok(s) = grow(st, end) {
        assert(s.blob == grown(st.blob, end));
    }
}

/// A write puts its bytes where it says and keeps every other byte that
/// the blob already had.
proof fn lemma_put(st: SpecPlacement, off: int, bytes: Seq<u8>)
    requires
        0 <= off,
    ensures
        put(st, off, bytes) matches Ok(s) ==> holds_at(s.blob, off, bytes) && s.blob.len() >= st.blob.len() && forall|
            k: int,
        | 0 <= k < st.blob.len() && !(off <= k < off + bytes.len()) ==> #[trigger] s.blob[k] == st.blob[k],
{
    lemma_grow(st, off + bytes.len());
    if let Ok(s) = put(st, off, bytes) {
        let g = grow(st, off + bytes.len())->Ok_0;
        assert(s.blob == g.blob.subrange(0, off) + bytes + g.blob.subrange(off + bytes.len(), g.blob.len() as int));
        assert forall|k: int| 0 <= k < bytes.len() implies #[trigger] s.blob[off + k] == bytes[k] by {}
        assert forall|k: int| 0 <= k < st.blob.len() && !(off <= k < off + bytes.len()) implies #[trigger] s.blob[k]
            == st.blob[k] by {
            assert(g.blob[k] == st.blob[k]);
        }
    }
}

/// The bytes held at `at` survive a write that lies clear of them.
proof fn lemma_put_keeps(st: SpecPlacement, off: int, bytes: Seq<u8>, at: int, b: Seq<u8>)
    requires
        0 <= off,
        holds_at(st.blob, at, b),
        off + bytes.len() <= at || at + b.len() <= off,
    ensures
        put(st, off, bytes) matches Ok(s) ==> holds_at(s.blob, at, b),
{
    lemma_put(st, off, bytes);
    if let Ok(s) = put(st, off, bytes) {
        assert forall|k: int| 0 <= k < b.len() implies #[trigger] s.blob[at + k] == b[k] by {
            assert(st.blob[at + k] == b[k]);
        }
    }
}

/// A string placed for the slot at `fpos`, a slot that ends before the free
/// end of the blob: its UTF-8 bytes stand at that free end with one more
/// byte reserved behind them, the slot's first four bytes hold the 32-bit
/// offset from the slot to them, and the four bytes 8 on hold their length.
pub proof fn law_string_placement(st: SpecPlacement, fpos: int, val: Seq<char>)
    requires
        0 <= fpos,
        fpos + 12 <= max_int(st.next, st.blob.len() as int),
    ensures
        place_str(st, fpos, val) matches Ok(s) ==> {
            let at = max_int(st.next, st.blob.len() as int);
            let b = vstd::utf8::encode_utf8(val);
            &&& holds_at(s.blob, at, b)
            &&& s.blob.len() >= at + b.len() + 1
            &&& holds_at(s.blob, fpos, rel32(at, fpos))
            &&& holds_at(s.blob, fpos + 8, bytes32(b.len() as int))
        },
{
    reveal(place_str);
    let at = max_int(st.next, st.blob.len() as int);
    let b = vstd::utf8::encode_utf8(val);
    let s0 = SpecPlacement { next: at, ..st };
    let s1 = if b.len() > 0 {
        put(s0, at, b)
    } else {
        Ok(s0)
    };
    if let Ok(s) = place_str(st, fpos, val) {
        let t1 = s1->Ok_0;
        if b.len() > 0 {
            lemma_put(s0, at, b);
            assert(holds_at(t1.blob, at, b));
        }
        lemma_grow(t1, at + b.len() + 1);
        let t2 = grow(t1, at + b.len() + 1)->Ok_0;
        assert forall|k: int| 0 <= k < b.len() implies #[trigger] t2.blob[at + k] == b[k] by {
            assert(t1.blob[at + k] == b[k]);
        }
        assert(holds_at(t2.blob, at, b));
        let r4 = rel32(at, fpos);
        let n4 = bytes32(b.len() as int);
        assert(r4.len() == 4 && n4.len() == 4);
        lemma_put(t2, fpos, r4);
        lemma_put_keeps(t2, fpos, r4, at, b);
        let t3 = put(t2, fpos, r4)->Ok_0;
        lemma_put(t3, fpos + 8, n4);
        lemma_put_keeps(t3, fpos + 8, n4, at, b);
        lemma_put_keeps(t3, fpos + 8, n4, fpos, r4);
        assert(s == put(t3, fpos + 8, n4)->Ok_0);
    }
}

/// Bytes held clear of the slots from `j` on survive writing them.
proof fn lemma_pointers_keep(
    ctx: SpecCtx,
    st: SpecPlacement,
    children: Seq<u64>,
    ts: Seq<int>,
    block: int,
    j: int,
    at: int,
    b: Seq<u8>,
)
    requires
        0 <= block,
        holds_at(st.blob, at, b),
        at + b.len() <= block + 8 * j || at >= block + 8 * children.len(),
    ensures
        spec_pointers(ctx, st, children, ts, block, j) matches Ok(s) ==> holds_at(s.blob, at, b),
    decreases children.len() - j,
{
    if 0 <= j < children.len() {
        let ptr = block + 8 * j;
        let bytes = bytes64(i64_bits(ts[j] - ptr));
        assert(bytes.len() == 8);
        lemma_put_keeps(st, ptr, bytes, at, b);
        if let Ok(s1) = put(st, ptr, bytes) {
            if let Some(ci) = index_of(ctx.objects, children[j]) {
                let s2 = SpecPlacement {
                    pointers: s1.pointers.push(
                        crate::reflect_write::PointerRecord {
                            file_off: (crate::reflect_write::RFCI_FILE_OFFSET + ptr) as u32,
                            target: ci as usize,
                            target_off: ts[j] as u32,
                        },
                    ),
                    ..s1
                };
                lemma_pointers_keep(ctx, s2, children, ts, block, j + 1, at, b);
            }
        }
    }
}

/// The slot of child `j` of a pointer block at `block`: its 8 bytes hold
/// the 64-bit two's complement offset from the slot to the child's target.
pub open spec fn slot_points_at(blob: Seq<u8>, block: int, j: int, target: int) -> bool {
    holds_at(blob, block + 8 * j, bytes64(i64_bits(target - (block + 8 * j))))
}

/// Writing the pointer block from slot `j0` on: when it succeeds, slot `j`
/// of each child from `j0` on points at that child's target `ts[j]`; a
/// child id that names no object is refused.
pub proof fn law_pointer_slots(
    ctx: SpecCtx,
    st: SpecPlacement,
    children: Seq<u64>,
    ts: Seq<int>,
    block: int,
    j0: int,
)
    requires
        0 <= block,
        0 <= j0,
    ensures
        spec_pointers(ctx, st, children, ts, block, j0) matches Ok(s) ==> forall|j: int|
            j0 <= j < children.len() ==> #[trigger] slot_points_at(s.blob, block, j, ts[j]),
        (exists|j: int| j0 <= j < children.len() && #[trigger] index_of(ctx.objects, children[j]) is None)
            ==> spec_pointers(ctx, st, children, ts, block, j0) is Err,
    decreases children.len() - j0,
{
    if j0 < children.len() {
        let ptr = block + 8 * j0;
        let bytes = bytes64(i64_bits(ts[j0] - ptr));
        assert(bytes.len() == 8);
        lemma_put(st, ptr, bytes);
        if let Ok(s1) = put(st, ptr, bytes) {
            if let Some(ci) = index_of(ctx.objects, children[j0]) {
                let s2 = SpecPlacement {
                    pointers: s1.pointers.push(
                        crate::reflect_write::PointerRecord {
                            file_off: (crate::reflect_write::RFCI_FILE_OFFSET + ptr) as u32,
                            target: ci as usize,
                            target_off: ts[j0] as u32,
                        },
                    ),
                    ..s1
                };
                law_pointer_slots(ctx, s2, children, ts, block, j0 + 1);
                lemma_pointers_keep(ctx, s2, children, ts, block, j0 + 1, ptr, bytes);
                if let Ok(s) = spec_pointers(ctx, st, children, ts, block, j0) {
                    assert forall|j: int| j0 <= j < children.len() implies #[trigger] slot_points_at(
                        s.blob,
                        block,
                        j,
                        ts[j],
                    ) by {
                        if j == j0 {
                            assert(holds_at(s.blob, ptr, bytes));
                        }
                    }
                }
                if exists|j: int| j0 <= j < children.len() && #[trigger] index_of(ctx.objects, children[j]) is None {
                    let j = choose|j: int| j0 <= j < children.len() && #[trigger] index_of(ctx.objects, children[j]) is None;
                    assert(j != j0);
                }
            }
        }
    }
}

} // verus!
