//! Placing an object with everything it points at: the pending pieces that
//! writing it in place set aside, one by one.
use vstd::prelude::*;

use vstd::string::{StrSliceExecFns, StringExecFns};

use crate::le::{bytes32, bytes64};
use crate::reflect_write::{
    placed_as, spec_offset_pointer, spec_pointer_array, next_item, rest_items, align_of, SpecCtx,
    and_then, append, bounded_items, grow, i64_bits, index_of, item_pos, lift, place_empty, place_raw, place_str,
    put, rel32, size_in, size_or8, spec_array_children, spec_drain, spec_inline_write, spec_place, spec_pointers,
    spec_process, spec_targets, view_item, view_items, wf_placement, Ctx, Item, PlaceError, Placement,
    PointerRecord, SpecItem, SpecPlacement, BLOB_LIMIT, RFCI_FILE_OFFSET, STEP_LIMIT,
};

verus! {

pub open spec fn settled(r: Result<(), PlaceError>, spec: Result<SpecPlacement, PlaceError>, st: SpecPlacement) -> bool {
    match spec {
        Ok(s) => r is Ok && st == s && wf_placement(s),
        Err(e) => r matches Err(x) && x == e,
    }
}

impl Placement {
    #[verifier::rlimit(60)]
    fn place_str(&mut self, fpos: u64, val: &String) -> (r: Result<(), PlaceError>)
        requires
            wf_placement(old(self)@),
            fpos < 0x4_0000_0000,
        ensures
            settled(r, place_str(old(self)@, fpos as int, val@), final(self)@),
    {
        proof {
            reveal(place_str);
        }
        let at: u32 = if self.next < self.blob.len() as u32 {
            self.blob.len() as u32
        } else {
            self.next
        };
        self.next = at;
        let bytes: &[u8] = val.as_str().as_bytes();
        if bytes.len() > 0 {
            match self.put(at as u64, bytes) {
                Err(e) => {
                    return Err(e);
                },
                Ok(()) => {},
            }
        }
        if bytes.len() as u64 > BLOB_LIMIT as u64 {
            return Err(PlaceError::TooLarge);
        }
        match self.grow(at as u64 + bytes.len() as u64 + 1) {
            Err(e) => {
                return Err(e);
            },
            Ok(()) => {},
        }
        match self.put_rel32(fpos, at as u64) {
            Err(e) => {
                return Err(e);
            },
            Ok(()) => {},
        }
        self.put32(fpos + 8, bytes.len() as u32)
    }

    fn place_empty(&mut self, reified: bool, fpos: u64) -> (r: Result<(), PlaceError>)
        requires
            wf_placement(old(self)@),
            fpos < 0x4_0000_0000,
        ensures
            settled(r, place_empty(reified, old(self)@, fpos as int), final(self)@),
    {
        proof {
            reveal(place_empty);
        }
        if reified {
            let at: u32 = match self.append(8) {
                Err(e) => {
                    return Err(e);
                },
                Ok(a) => a,
            };
            match self.put_rel32(fpos, at as u64) {
                Err(e) => {
                    return Err(e);
                },
                Ok(()) => {},
            }
        } else {
            match self.put32(fpos, 0) {
                Err(e) => {
                    return Err(e);
                },
                Ok(()) => {},
            }
        }
        self.put32(fpos + 8, 0)
    }

    fn place_raw(&mut self, fpos: u64, count: u32, bytes: &Vec<u8>) -> (r: Result<(), PlaceError>)
        requires
            wf_placement(old(self)@),
            fpos < 0x4_0000_0000,
        ensures
            settled(r, place_raw(old(self)@, fpos as int, count, bytes@), final(self)@),
    {
        proof {
            reveal(place_raw);
        }
        let at: u32 = match self.append(8) {
            Err(e) => {
                return Err(e);
            },
            Ok(a) => a,
        };
        match self.put(at as u64, bytes.as_slice()) {
            Err(e) => {
                return Err(e);
            },
            Ok(()) => {},
        }
        match self.put_rel32(fpos, at as u64) {
            Err(e) => {
                return Err(e);
            },
            Ok(()) => {},
        }
        self.put32(fpos + 8, count)
    }

    #[verifier::rlimit(60)]
    fn write_pointers(&mut self, ctx: &Ctx, children: &Vec<u64>, ts: &Vec<u32>, block: u32) -> (r: Result<
        (),
        PlaceError,
    >)
        requires
            wf_placement(old(self)@),
            ctx.wf(),
            ts@.len() == children@.len(),
            block <= BLOB_LIMIT,
            forall|i: int| 0 <= i < ts@.len() ==> ts@[i] <= BLOB_LIMIT,
        ensures
            settled(
                r,
                spec_pointers(ctx.spec_ctx(), old(self)@, children@, ts@.map_values(|t: u32| t as int), block as int, 0),
                final(self)@,
            ),
    {
        let ghost tv = ts@.map_values(|t: u32| t as int);
        let ghost goal = spec_pointers(ctx.spec_ctx(), self@, children@, tv, block as int, 0);
        let mut j: usize = 0;
        while j < children.len()
            invariant
                j <= children@.len(),
                ts@.len() == children@.len(),
                tv == ts@.map_values(|t: u32| t as int),
                block <= BLOB_LIMIT,
                forall|i: int| 0 <= i < ts@.len() ==> ts@[i] <= BLOB_LIMIT,
                wf_placement(self@),
                ctx.wf(),
                spec_pointers(ctx.spec_ctx(), self@, children@, tv, block as int, j as int) == goal,
                goal == spec_pointers(ctx.spec_ctx(), old(self)@, children@, tv, block as int, 0),
            decreases children.len() - j,
        {
            if j > 0x1000_0000 {
                return Err(PlaceError::TooLarge);
            }
            let ptr: u64 = block as u64 + 8 * j as u64;
            let t: u32 = ts[j];
            let d: i128 = t as i128 - ptr as i128;
            let v: u64 = if d >= 0 {
                d as u64
            } else {
                (d + 0x1_0000_0000_0000_0000i128) as u64
            };
            match self.put64(ptr, v) {
                Err(e) => {
                    return Err(e);
                },
                Ok(()) => {},
            }
            let ci: usize = match ctx.get(children[j]) {
                Err(e) => {
                    return Err(e);
                },
                Ok(i) => i,
            };
            let ghost before = self@;
            self.pointers.push(
                PointerRecord { file_off: (RFCI_FILE_OFFSET as u64 + ptr) as u32, target: ci, target_off: t },
            );
            proof {
                assert(self@.pointers == before.pointers.push(
                    PointerRecord { file_off: (RFCI_FILE_OFFSET + ptr) as u32, target: ci as usize, target_off: tv[j as int] as u32 },
                ));
            }
            j += 1;
        }
        Ok(())
    }
}


proof fn lemma_count_bytes(n: usize)
    ensures
        bytes32((n as u64 % 4294967296) as int) == bytes32(n as int),
{
    crate::le::lemma_bytes32_low(n as int);
}

impl Placement {
    /// Object `idx` placed at `off` with everything it points at.
    pub(crate) fn place(&mut self, ctx: &Ctx, idx: usize, off: u64, fuel: usize) -> (r: Result<(), PlaceError>)
        requires
            wf_placement(old(self)@),
            ctx.wf(),
            idx < ctx.objects@.len(),
            off <= BLOB_LIMIT,
        ensures
            settled(r, spec_place(ctx.spec_ctx(), old(self)@, idx as int, off as int, fuel as nat), final(self)@),
        decreases fuel, 4int,
    {
        if fuel == 0 {
            return Err(PlaceError::TooDeep);
        }
        let mut out: Vec<Item> = Vec::new();
        proof {
            assert(view_items(out@) =~= Seq::<SpecItem>::empty());
        }
        match self.inline_write(ctx, idx, off, &mut out, fuel) {
            Err(e) => {
                return Err(e);
            },
            Ok(()) => {},
        }
        let ghost goal = spec_drain(ctx.spec_ctx(), self@, view_items(out@), fuel as nat, STEP_LIMIT as nat);
        let mut steps: u64 = STEP_LIMIT;
        while out.len() > 0
            invariant
                wf_placement(self@),
                ctx.wf(),
                fuel > 0,
                bounded_items(view_items(out@)),
                spec_drain(ctx.spec_ctx(), self@, view_items(out@), fuel as nat, steps as nat) == goal,
                goal == spec_place(ctx.spec_ctx(), old(self)@, idx as int, off as int, fuel as nat),
            decreases steps,
        {
            if steps == 0 {
                return Err(PlaceError::TooDeep);
            }
            let ghost ov = view_items(out@);
            let item: Item = if ctx.reified {
                out.remove(0)
            } else {
                out.pop().unwrap()
            };
            proof {
                if ctx.reified {
                    assert(view_items(out@) =~= ov.subrange(1, ov.len() as int));
                    assert(view_item(item) == ov[0]);
                } else {
                    assert(view_items(out@) =~= ov.drop_last());
                    assert(view_item(item) == ov.last());
                }
                assert(view_items(out@) == rest_items(ctx.reified, ov));
                assert(view_item(item) == next_item(ctx.reified, ov));
                assert(bounded_items(view_items(out@)));
            }
            match self.process(ctx, &mut out, item, fuel) {
                Err(e) => {
                    return Err(e);
                },
                Ok(()) => {},
            }
            steps -= 1;
        }
        Ok(())
    }

    fn process(&mut self, ctx: &Ctx, out: &mut Vec<Item>, item: Item, fuel: usize) -> (r: Result<(), PlaceError>)
        requires
            wf_placement(old(self)@),
            ctx.wf(),
            fuel > 0,
            bounded_items(view_items(old(out)@)),
            item_pos(view_item(item)) < 0x4_0000_0000,
        ensures
            placed_as(
                r,
                spec_process(ctx.spec_ctx(), old(self)@, view_items(old(out)@), view_item(item), fuel as nat),
                final(self)@,
                final(out)@,
            ),
        decreases fuel, 2int,
    {
        match item {
            Item::Str { fpos, val } => self.place_str(fpos, &val),
            Item::RawArray { fpos, count, bytes } => self.place_raw(fpos, count, &bytes),
            Item::Array { fpos, children } => {
                if children.len() == 0 {
                    self.place_empty(ctx.reified, fpos)
                } else {
                    self.place_array(ctx, out, fpos, &children, fuel)
                }
            },
            Item::Pointers { fpos, children } => {
                if children.len() == 0 {
                    self.place_empty(ctx.reified, fpos)
                } else {
                    self.place_pointers(ctx, fpos, &children, fuel)
                }
            },
            Item::OffsetPointer { fpos, children } => {
                if children.len() == 0 {
                    self.put32(fpos, 0)
                } else {
                    self.place_offset(ctx, fpos, &children, fuel)
                }
            },
        }
    }

    #[verifier::rlimit(100)]
    #[verifier::spinoff_prover]
    fn place_array(&mut self, ctx: &Ctx, out: &mut Vec<Item>, fpos: u64, children: &Vec<u64>, fuel: usize) -> (r:
        Result<(), PlaceError>)
        requires
            wf_placement(old(self)@),
            ctx.wf(),
            fuel > 0,
            bounded_items(view_items(old(out)@)),
            fpos < 0x4_0000_0000,
            children@.len() > 0,
        ensures
            placed_as(
                r,
                spec_process(ctx.spec_ctx(), old(self)@, view_items(old(out)@), SpecItem::Array(fpos as int, children@), fuel as nat),
                final(self)@,
                final(out)@,
            ),
    {
        let a: u32 = match ctx.align_of(children[0]) {
            Err(e) => {
                return Err(e);
            },
            Ok(a) => a,
        };
        let first: u32 = match self.append(a) {
            Err(e) => {
                return Err(e);
            },
            Ok(p) => p,
        };
        let ghost s1 = self@;
        let ghost out1 = view_items(out@);
        let ghost goal = spec_array_children(ctx.spec_ctx(), s1, out1, children@, first as int, fuel as nat);
        let ghost st0 = old(self)@;
        let mut at: u64 = first as u64;
        let mut j: usize = 0;
        proof {
            assert(children@.subrange(0, children@.len() as int) =~= children@);
        }
        while j < children.len()
            invariant
                j <= children@.len(),
                at < 0x4_0000_0000,
                fuel > 0,
                wf_placement(self@),
                ctx.wf(),
                bounded_items(view_items(out@)),
                spec_array_children(
                    ctx.spec_ctx(),
                    self@,
                    view_items(out@),
                    children@.subrange(j as int, children@.len() as int),
                    at as int,
                    fuel as nat,
                ) == goal,
                goal == spec_array_children(ctx.spec_ctx(), s1, out1, children@, first as int, fuel as nat),
                st0 == old(self)@,
                out1 == view_items(old(out)@),
                align_of(ctx.spec_ctx(), children@[0]) == Ok::<int, PlaceError>(a as int),
                append(st0, a as int) == Ok::<SpecPlacement, PlaceError>(s1),
                s1.next == first,
                first <= BLOB_LIMIT,
                fpos < 0x4_0000_0000,
                children@.len() > 0,
            decreases children.len() - j,
        {
            let ghost rest = children@.subrange(j as int, children@.len() as int);
            proof {
                assert(rest[0] == children@[j as int]);
                assert(rest.subrange(1, rest.len() as int) =~= children@.subrange(j + 1, children@.len() as int));
                lemma_array_step(ctx.spec_ctx(), self@, view_items(out@), rest, at as int, fuel as nat);
            }
            let ci: usize = match ctx.get(children[j]) {
                Err(e) => {
                    return Err(e);
                },
                Ok(i) => i,
            };
            if at > BLOB_LIMIT as u64 {
                proof {
                    reveal(crate::reflect_write::size_or8);
                }
                return Err(PlaceError::TooLarge);
            }
            match self.inline_write(ctx, ci, at, out, fuel) {
                Err(e) => {
                    return Err(e);
                },
                Ok(()) => {},
            }
            let size: u32 = size_in(ctx.registry, ctx.objects[ci].ty_name.as_str());
            proof {
                assert(ctx.spec_ctx().objects[ci as int].ty_name == ctx.objects@[ci as int].ty_name@);
            }
            at = at + size as u64;
            j += 1;
        }
        match self.put_rel32(fpos, first as u64) {
            Err(e) => {
                return Err(e);
            },
            Ok(()) => {},
        }
        proof {
            lemma_count_bytes(children@.len() as usize);
        }
        self.put32(fpos + 8, (children.len() as u64 % 4294967296) as u32)
    }

    #[verifier::rlimit(100)]
    #[verifier::spinoff_prover]
    fn place_pointers(&mut self, ctx: &Ctx, fpos: u64, children: &Vec<u64>, fuel: usize) -> (r: Result<(), PlaceError>)
        requires
            wf_placement(old(self)@),
            ctx.wf(),
            fuel > 0,
            fpos < 0x4_0000_0000,
        ensures
            settled(r, spec_pointer_array(ctx.spec_ctx(), old(self)@, fpos as int, children@, fuel as nat), final(self)@),
        decreases fuel, 1int,
    {
        let block: u32 = match self.append(8) {
            Err(e) => {
                return Err(e);
            },
            Ok(p) => p,
        };
        let n: usize = children.len();
        if n > 0x1000_0000 {
            return Err(PlaceError::TooLarge);
        }
        let nxt: u64 = block as u64 + 8 * n as u64;
        if nxt > BLOB_LIMIT as u64 {
            return Err(PlaceError::TooLarge);
        }
        self.next = nxt as u32;
        match self.grow(nxt) {
            Err(e) => {
                return Err(e);
            },
            Ok(()) => {},
        }
        let ghost s2 = self@;
        let ghost goal = spec_targets(ctx.spec_ctx(), s2, children@, n as nat, Seq::empty(), fuel as nat);
        let mut targets: Vec<u32> = Vec::new();
        while targets.len() < n
            invariant
                targets@.len() <= n,
                forall|i: int| 0 <= i < targets@.len() ==> targets@[i] == 0,
            decreases n - targets@.len(),
        {
            targets.push(0);
        }
        let mut k: usize = n;
        let ghost mut acc: Seq<int> = Seq::empty();
        while k > 0
            invariant
                k <= n == children@.len(),
                targets@.len() == n,
                fuel > 0,
                wf_placement(self@),
                ctx.wf(),
                acc.len() == n - k,
                forall|i: int| k <= i < n ==> (#[trigger] targets@[i]) as int == acc[i - k],
                forall|i: int| 0 <= i < n ==> (#[trigger] targets@[i]) <= BLOB_LIMIT,
                spec_targets(ctx.spec_ctx(), self@, children@, k as nat, acc, fuel as nat) == goal,
                goal == spec_targets(ctx.spec_ctx(), s2, children@, n as nat, Seq::empty(), fuel as nat),
                append(old(self)@, 8) matches Ok(s) && s.next == block && grow(
                    SpecPlacement { next: block + 8 * n, ..s },
                    block + 8 * n,
                ) == Ok::<SpecPlacement, PlaceError>(s2),
                block <= BLOB_LIMIT,
                fpos < 0x4_0000_0000,
            decreases k,
        {
            proof {
                lemma_targets_step(ctx.spec_ctx(), self@, children@, k as nat, acc, fuel as nat);
            }
            let c: u64 = children[k - 1];
            let a: u32 = match ctx.align_of(c) {
                Err(e) => {
                    return Err(e);
                },
                Ok(a) => a,
            };
            let at: u32 = match self.append(a) {
                Err(e) => {
                    return Err(e);
                },
                Ok(p) => p,
            };
            let ci: usize = match ctx.get(c) {
                Err(e) => {
                    return Err(e);
                },
                Ok(i) => i,
            };
            match self.place(ctx, ci, at as u64, fuel - 1) {
                Err(e) => {
                    return Err(e);
                },
                Ok(()) => {},
            }
            targets.set(k - 1, at);
            proof {
                acc = seq![at as int] + acc;
            }
            k -= 1;
        }
        proof {
            assert(targets@.map_values(|t: u32| t as int) =~= acc);
        }
        match self.write_pointers(ctx, children, &targets, block) {
            Err(e) => {
                return Err(e);
            },
            Ok(()) => {},
        }
        match self.put_rel32(fpos, block as u64) {
            Err(e) => {
                return Err(e);
            },
            Ok(()) => {},
        }
        proof {
            lemma_count_bytes(n);
        }
        self.put32(fpos + 8, (n as u64 % 4294967296) as u32)
    }

    fn place_offset(&mut self, ctx: &Ctx, fpos: u64, children: &Vec<u64>, fuel: usize) -> (r: Result<(), PlaceError>)
        requires
            wf_placement(old(self)@),
            ctx.wf(),
            fuel > 0,
            fpos < 0x4_0000_0000,
            children@.len() > 0,
        ensures
            settled(r, spec_offset_pointer(ctx.spec_ctx(), old(self)@, fpos as int, children@, fuel as nat), final(self)@),
        decreases fuel, 1int,
    {
        let a: u32 = match ctx.align_of(children[0]) {
            Err(e) => {
                return Err(e);
            },
            Ok(a) => a,
        };
        let at: u32 = match self.append(a) {
            Err(e) => {
                return Err(e);
            },
            Ok(p) => p,
        };
        let ci: usize = match ctx.get(children[0]) {
            Err(e) => {
                return Err(e);
            },
            Ok(i) => i,
        };
        match self.place(ctx, ci, at as u64, fuel - 1) {
            Err(e) => {
                return Err(e);
            },
            Ok(()) => {},
        }
        self.put_rel32(fpos, at as u64)
    }
}


proof fn lemma_array_step(ctx: SpecCtx, st: SpecPlacement, out: Seq<SpecItem>, cs: Seq<u64>, at: int, fuel: nat)
    requires
        cs.len() > 0,
    ensures
        spec_array_children(ctx, st, out, cs, at, fuel) == match index_of(ctx.objects, cs[0]) {
            None => Err(PlaceError::MissingChild(cs[0])),
            Some(ci) => match spec_inline_write(ctx, st, out, ci, at, fuel) {
                Err(e) => Err(e),
                Ok((s, o)) => spec_array_children(
                    ctx,
                    s,
                    o,
                    cs.subrange(1, cs.len() as int),
                    at + size_or8(ctx.types, ctx.objects[ci].ty_name),
                    fuel,
                ),
            },
        },
{
}

proof fn lemma_targets_step(ctx: SpecCtx, st: SpecPlacement, cs: Seq<u64>, k: nat, acc: Seq<int>, fuel: nat)
    requires
        0 < k <= cs.len(),
        fuel > 0,
    ensures
        spec_targets(ctx, st, cs, k, acc, fuel) == match align_of(ctx, cs[k - 1]) {
            Err(e) => Err(e),
            Ok(a) => match append(st, a) {
                Err(e) => Err(e),
                Ok(s1) => match index_of(ctx.objects, cs[k - 1]) {
                    None => Err(PlaceError::MissingChild(cs[k - 1])),
                    Some(ci) => match spec_place(ctx, s1, ci, s1.next, (fuel - 1) as nat) {
                        Err(e) => Err(e),
                        Ok(s2) => spec_targets(ctx, s2, cs, (k - 1) as nat, seq![s1.next] + acc, fuel),
                    },
                },
            },
        },
{
}

} // verus!
