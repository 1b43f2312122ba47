//! Keeping saved registers out of the local variables: the stack slot a callee-saved register
//! is saved to holds that register, not a variable of the function.

use vstd::prelude::*;

use crate::fspec::{EffectKind, EffectRecord};
use crate::funcdata::{op_wf, Funcdata, OpId, VarnodeId};
use crate::opcode::OpCode;
use crate::space::{space_named, SpaceId, SpaceKind};

verus! {

/// Varnode `v` is the function input held in the register storage of `size` bytes at `offset`.
pub open spec fn is_reg_input(f: &Funcdata, v: int, offset: u64, size: u32) -> bool {
    let x = f.vns@[v];
    &&& x.input
    &&& x.size == size
    &&& x.loc.offset == offset
    &&& f.spaces@[x.loc.space.0 as int].kind == SpaceKind::Processor
}

/// The first varnode that is the input held at `(offset, size)`, if any.
pub open spec fn reg_input(f: &Funcdata, offset: u64, size: u32) -> Option<int> {
    if exists|v: int| 0 <= v < f.vns@.len() && #[trigger] is_reg_input(f, v, offset, size) {
        Some(
            choose|v: int|
                0 <= v < f.vns@.len() && #[trigger] is_reg_input(f, v, offset, size) && forall|u: int|
                    0 <= u < v ==> !is_reg_input(f, u, offset, size),
        )
    } else {
        None
    }
}

/// The reader `d` saves its input into the space `stack`: a COPY whose output lives there.
pub open spec fn saved_to(f: &Funcdata, d: OpId, stack: SpaceId) -> bool {
    let o = f.ops@[d.0 as int];
    &&& o.opc == OpCode::Copy
    &&& o.output matches Some(out) && f.vns@[out.0 as int].loc.space == stack
}

/// The slots that the first `n` readers in `ds` save into `stack`, in order.
pub open spec fn saves_upto(f: &Funcdata, ds: Seq<OpId>, stack: SpaceId, n: int) -> Seq<(SpaceId, u64, u32)>
    decreases n,
{
    if n <= 0 {
        Seq::empty()
    } else {
        let d = ds[n - 1];
        let out = f.ops@[d.0 as int].output.unwrap();
        saves_upto(f, ds, stack, n - 1) + if saved_to(f, d, stack) {
            seq![(stack, f.vns@[out.0 as int].loc.offset, f.vns@[out.0 as int].size)]
        } else {
            Seq::empty()
        }
    }
}

/// The stack slots carved out for one register the convention describes: none when calls
/// may overwrite it, or no input holds it, or that input is not preserved by calls; else the
/// slots its value is copied to on the stack.
#[verifier::opaque]
pub open spec fn effect_marks(f: &Funcdata, e: EffectRecord, stack: SpaceId) -> Seq<(SpaceId, u64, u32)> {
    if e.effect == EffectKind::KilledByCall {
        Seq::empty()
    } else {
        match reg_input(f, e.offset, e.size) {
            None => Seq::empty(),
            Some(v) => if !f.vns@[v].unaffected {
                Seq::empty()
            } else {
                let ds = f.descend_of(VarnodeId(v as usize));
                saves_upto(f, ds, stack, ds.len() as int)
            },
        }
    }
}

/// The slots carved out for the first `n` registers of `effs`, in order.
pub open spec fn marks_upto(f: &Funcdata, effs: Seq<EffectRecord>, stack: SpaceId, n: int) -> Seq<(SpaceId, u64, u32)>
    decreases n,
{
    if n <= 0 {
        Seq::empty()
    } else {
        marks_upto(f, effs, stack, n - 1) + effect_marks(f, effs[n - 1], stack)
    }
}

/// The first varnode that is the input at `(offset, size)`.
fn find_reg_input(f: &Funcdata, offset: u64, size: u32) -> (r: Option<VarnodeId>)
    requires
        f.wf(),
    ensures
        match reg_input(f, offset, size) {
            Some(v) => r == Some(VarnodeId(v as usize)),
            None => r is None,
        },
        r matches Some(x) ==> x.0 < f.vns@.len(),
        reg_input(f, offset, size) matches Some(v) ==> 0 <= v < f.vns@.len(),
{
    let mut v: usize = 0;
    while v < f.vns.len()
        invariant
            f.wf(),
            v <= f.vns@.len(),
            forall|u: int| 0 <= u < v ==> !is_reg_input(f, u, offset, size),
        decreases f.vns@.len() - v,
    {
        let x = f.vn(VarnodeId(v));
        proof {
            assert(f.vns@[v as int].loc.space.0 < f.spaces@.len());
        }
        if x.is_input() && x.size == size && x.loc.offset == offset && f.spaces.get(x.loc.space).kind == SpaceKind::Processor {
            proof {
                assert(is_reg_input(f, v as int, offset, size));
                let c = choose|c: int|
                    0 <= c < f.vns@.len() && #[trigger] is_reg_input(f, c, offset, size) && forall|u: int|
                        0 <= u < c ==> !is_reg_input(f, u, offset, size);
                assert(c == v) by {
                    if c < v {
                        assert(!is_reg_input(f, c, offset, size));
                    } else if c > v {
                        assert(!is_reg_input(f, v as int, offset, size));
                    }
                }
            }
            return Some(VarnodeId(v));
        }
        v += 1;
    }
    None
}

/// The slots carved out for the register of `e` (see [`effect_marks`]).
fn marks_for(f: &Funcdata, e: &EffectRecord, stack: SpaceId) -> (r: Vec<(SpaceId, u64, u32)>)
    requires
        f.wf(),
    ensures
        r@ == effect_marks(f, *e, stack),
{
    reveal(effect_marks);
    let mut res: Vec<(SpaceId, u64, u32)> = Vec::new();
    if e.effect == EffectKind::KilledByCall {
        return res;
    }
    let _nv = f.num_varnodes();
    let input = match find_reg_input(f, e.offset, e.size) {
        Some(v) => v,
        None => return res,
    };
    assert(reg_input(f, e.offset, e.size) == Some(input.0 as int));
    if !f.vn(input).is_unaffected() {
        return res;
    }
    let ds = f.descend(input);
    let _n = f.num_ops();
    let mut k: usize = 0;
    while k < ds.len()
        invariant
            f.wf(),
            f.ops@.len() <= usize::MAX,
            ds@ == f.descend_of(input),
            k <= ds@.len(),
            res@ == saves_upto(f, ds@, stack, k as int),
        decreases ds@.len() - k,
    {
        let d = ds[k];
        proof {
            crate::funcdata::lemma_descend_member(f.ops@, input, f.ops@.len() as int, k as int);
            assert(op_wf(f.ops@[d.0 as int], f.vns@.len(), f.ops@.len(), f.blocks@.len()));
        }
        let o = f.op(d);
        if o.code() == OpCode::Copy {
            if let Some(out) = o.output {
                if f.vn(out).loc.space == stack {
                    res.push((stack, f.vn(out).loc.offset, f.vn(out).size));
                }
            }
        }
        k += 1;
        assert(res@ =~= saves_upto(f, ds@, stack, k as int));
    }
    res
}

/// The slots carved out for every register of the convention (see [`marks_upto`]).
fn collect_marks(f: &Funcdata, stack: SpaceId) -> (r: Vec<(SpaceId, u64, u32)>)
    requires
        f.wf(),
    ensures
        r@ == marks_upto(f, f.proto_model.effectlist@, stack, f.proto_model.effectlist@.len() as int),
{
    let effs = &f.proto_model.effectlist;
    let mut marks: Vec<(SpaceId, u64, u32)> = Vec::new();
    let mut i: usize = 0;
    while i < effs.len()
        invariant
            f.wf(),
            effs@ == f.proto_model.effectlist@,
            i <= effs@.len(),
            marks@ == marks_upto(f, effs@, stack, i as int),
        decreases effs@.len() - i,
    {
        let mut m = marks_for(f, &effs[i], stack);
        marks.append(&mut m);
        i += 1;
    }
    marks
}

/// Carve the stack slots of saved registers out of the local variables: for every register
/// the calling convention does not let calls overwrite, the stack slots its input value is
/// copied to are marked as not mapped.
pub struct ActionRestrictLocal;

impl ActionRestrictLocal {
    pub fn name(&self) -> (r: &'static str)
        ensures
            r@ == "restrictlocal"@,
    {
        "restrictlocal"
    }

    /// Mark the saved-register slots (see [`marks_upto`]) as not mapped, in order. Nothing
    /// changes when there is no `stack` space. Always returns 0: this only maintains the
    /// local-variable scope.
    pub fn apply(&mut self, data: &mut Funcdata) -> (r: u32)
        requires
            old(data).wf(),
        ensures
            r == 0,
            match space_named(old(data).spaces@, "stack"@) {
                None => *final(data) == *old(data),
                Some(stack) => {
                    &&& final(data).not_mapped@ == old(data).not_mapped@ + marks_upto(
                        old(data),
                        old(data).proto_model.effectlist@,
                        stack,
                        old(data).proto_model.effectlist@.len() as int,
                    )
                    &&& *final(data) == (Funcdata { not_mapped: final(data).not_mapped, ..*old(data) })
                },
            },
    {
        let stack = match data.spaces.by_name("stack") {
            Some(s) => s,
            None => return 0,
        };
        let marks = collect_marks(data, stack);
        let ghost f0 = *data;
        let ghost all = marks@;
        let mut j: usize = 0;
        while j < marks.len()
            invariant
                j <= marks@.len(),
                marks@ == all,
                data.not_mapped@ == f0.not_mapped@ + all.take(j as int),
                *data == (Funcdata { not_mapped: data.not_mapped, ..f0 }),
            decreases marks@.len() - j,
        {
            let (s, off, sz) = marks[j];
            data.mark_not_mapped(s, off, sz);
            j += 1;
            assert(data.not_mapped@ =~= f0.not_mapped@ + all.take(j as int));
        }
        assert(all.take(j as int) =~= all);
        0
    }
}

} // verus!
