//! Writing objects into the blob: an object's inline data in place, its
//! embedded objects inside it, its out-of-line pieces set aside.
use vstd::prelude::*;

use vstd::string::{StrSliceExecFns, StringExecFns};

use crate::rdo::RdoObject;
use crate::reflect_type::{FieldDef, FieldKind, SpecField};
use crate::reflect_write::{
    add_item, array_item_of, get_children, get_raw, get_scalar, get_text, kind_in, leaf_bytes_of, field_piece_of,
    lemma_fields_err, placed_as, size_in, spec_inline_write, spec_write_field, spec_write_fields, view_items,
    wf_placement, write_enum, bounded_items, Ctx, FieldStep, Item, ObjectStep, PlaceError, Placement, SpecItem, SpecPlacement, BLOB_LIMIT,
};

verus! {

impl Placement {
    pub(crate) fn write_enum(&mut self, o: &RdoObject, off: u64, Ghost(out): Ghost<Seq<SpecItem>>) -> (r: Result<
        (),
        PlaceError,
    >)
        requires
            wf_placement(old(self)@),
            off < 0x1_0000_0000_0000,
        ensures
            match write_enum(old(self)@, out, crate::rdo::view_rdo_object(*o), off as int) {
                Ok((s, o2)) => r is Ok && final(self)@ == s && o2 == out && wf_placement(s),
                Err(e) => r matches Err(x) && x == e,
            },
    {
        proof {
            reveal(write_enum);
        }
        match get_scalar(&o.props, "m_hashValue") {
            Some(h) => self.put64(off, h),
            None => {
                let name: String = get_text(&o.props, "m_enumName");
                let low: String = crate::paths::lower(name.as_str());
                let h: u64 = crate::hash::city_hash64(low.as_str().as_bytes());
                match self.put64(off, h) {
                    Err(e) => {
                        return Err(e);
                    },
                    Ok(()) => {},
                }
                self.intern(h, name);
                Ok(())
            },
        }
    }

    #[verifier::rlimit(60)]
    pub(crate) fn inline_write(&mut self, ctx: &Ctx, idx: usize, off: u64, out: &mut Vec<Item>, fuel: usize) -> (r: Result<
        (),
        PlaceError,
    >)
        requires
            wf_placement(old(self)@),
            ctx.wf(),
            idx < ctx.objects@.len(),
            off < 0x100_0000_0000,
            bounded_items(view_items(old(out)@)),
        ensures
            placed_as(
                r,
                spec_inline_write(ctx.spec_ctx(), old(self)@, view_items(old(out)@), idx as int, off as int, fuel as nat),
                final(self)@,
                final(out)@,
            ),
        decreases fuel, 3int,
    {
        if fuel == 0 {
            return Err(PlaceError::TooDeep);
        }
        let o: &RdoObject = &ctx.objects[idx];
        proof {
            assert(ctx.spec_ctx().objects[idx as int] == crate::rdo::view_rdo_object(*o));
        }
        let size: u32 = size_in(ctx.registry, o.ty_name.as_str());
        match self.grow(off + size as u64) {
            Err(e) => {
                return Err(e);
            },
            Ok(()) => {},
        }
        self.order.push((idx, off as u32));
        match ctx.object_plan_of(o, off) {
            ObjectStep::Enum => self.write_enum(o, off, Ghost(view_items(out@))),
            ObjectStep::Piece(it) => {
                add_item(out, it);
                Ok(())
            },
            ObjectStep::Write(b) => self.put(off, b.as_slice()),
            ObjectStep::Fields(fields) => self.write_fields(ctx, idx, off, fields, out, fuel),
            ObjectStep::Skip => Ok(()),
        }
    }

    #[verifier::rlimit(100)]
    #[verifier::spinoff_prover]
    fn write_fields(
        &mut self,
        ctx: &Ctx,
        idx: usize,
        off: u64,
        fields: &Vec<FieldDef>,
        out: &mut Vec<Item>,
        fuel: usize,
    ) -> (r: Result<(), PlaceError>)
        requires
            wf_placement(old(self)@),
            ctx.wf(),
            idx < ctx.objects@.len(),
            off <= BLOB_LIMIT,
            bounded_items(view_items(old(out)@)),
        ensures
            placed_as(
                r,
                spec_write_fields(
                    ctx.spec_ctx(),
                    old(self)@,
                    view_items(old(out)@),
                    idx as int,
                    off as int,
                    fields@.map_values(|f: FieldDef| f.spec_view()),
                    fuel as nat,
                ),
                final(self)@,
                final(out)@,
            ),
        decreases fuel, 2int,
    {
        let ghost fs = fields@.map_values(|f: FieldDef| f.spec_view());
        let ghost st0 = self@;
        let ghost out0 = view_items(out@);
        let mut i: usize = 0;
        proof {
            assert(fs.subrange(0, 0) =~= Seq::<SpecField>::empty());
        }
        while i < fields.len()
            invariant
                i <= fields@.len(),
                fs == fields@.map_values(|f: FieldDef| f.spec_view()),
                st0 == old(self)@,
                out0 == view_items(old(out)@),
                wf_placement(self@),
                ctx.wf(),
                idx < ctx.objects@.len(),
                off <= BLOB_LIMIT,
                spec_write_fields(ctx.spec_ctx(), st0, out0, idx as int, off as int, fs.subrange(0, i as int), fuel as nat)
                    == Ok::<(SpecPlacement, Seq<SpecItem>), PlaceError>((self@, view_items(out@))),
                bounded_items(view_items(out@)),
            decreases fields.len() - i,
        {
            proof {
                let t = fs.subrange(0, i + 1);
                assert(t.drop_last() =~= fs.subrange(0, i as int));
                assert(t.last() == fields@[i as int].spec_view());
            }
            let ghost sti = self@;
            let ghost outi = view_items(out@);
            match self.write_field(ctx, idx, off, &fields[i], out, fuel) {
                Err(e) => {
                    proof {
                        let t = fs.subrange(0, i + 1);
                        assert(spec_write_fields(ctx.spec_ctx(), st0, out0, idx as int, off as int, t, fuel as nat)
                            == spec_write_field(ctx.spec_ctx(), sti, outi, idx as int, off as int, fields@[i as int].spec_view(), fuel as nat));
                        lemma_fields_err(ctx.spec_ctx(), st0, out0, idx as int, off as int, fs, i as int + 1, fuel as nat);
                    }
                    return Err(e);
                },
                Ok(()) => {},
            }
            i += 1;
        }
        proof {
            assert(fs.subrange(0, i as int) =~= fs);
        }
        Ok(())
    }

    #[verifier::rlimit(100)]
    #[verifier::spinoff_prover]
    pub(crate) fn write_field(&mut self, ctx: &Ctx, idx: usize, off: u64, f: &FieldDef, out: &mut Vec<Item>, fuel: usize) -> (r:
        Result<(), PlaceError>)
        requires
            wf_placement(old(self)@),
            ctx.wf(),
            idx < ctx.objects@.len(),
            off <= BLOB_LIMIT,
            bounded_items(view_items(old(out)@)),
        ensures
            placed_as(
                r,
                spec_write_field(
                    ctx.spec_ctx(),
                    old(self)@,
                    view_items(old(out)@),
                    idx as int,
                    off as int,
                    f.spec_view(),
                    fuel as nat,
                ),
                final(self)@,
                final(out)@,
            ),
        decreases fuel, 1int,
    {
        if fuel == 0 {
            return Err(PlaceError::TooDeep);
        }
        let o: &RdoObject = &ctx.objects[idx];
        proof {
            assert(ctx.spec_ctx().objects[idx as int] == crate::rdo::view_rdo_object(*o));
        }
        match ctx.field_plan_of(o, off, f) {
            FieldStep::Write(p, b) => self.put(p, b.as_slice()),
            FieldStep::Inline(ci, p) => self.inline_write(ctx, ci, p, out, fuel - 1),
            FieldStep::Piece(it) => {
                add_item(out, it);
                Ok(())
            },
            FieldStep::Skip => Ok(()),
        }
    }
}

} // verus!
