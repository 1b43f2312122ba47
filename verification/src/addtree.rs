//! Rewriting additive expressions on pointers: a sum whose pointer is added first is pushed
//! so the pointer is added last, and a sum rooted on a pointer is split into an element index
//! (`PTRADD`), a component offset (`PTRSUB`) and whatever is left over.

use vstd::prelude::*;

use crate::funcdata::{
    count_in, desc_count, descend_upto, op_wf, vn_wf, Funcdata, OpId, PcodeOp, StackSymbol, VarnodeId,
};
use crate::opcode::OpCode;
use crate::ptrarith::{
    get_slot, sb_backward_spec, sb_forward_spec, sb_get_subtype, sb_nearest_backward, sb_nearest_forward,
    sb_subtype_spec, sign_extend, sign_extend_spec, slot_spec, uintb_negate,
};
use crate::space::{byte_mask, calc_mask};
use crate::types::{copy_type, subtype_spec, trunc_div, trunc_rem, type_size, type_wf, Datatype};

verus! {

/// The varnode is neither written nor an input, and not a constant: its value is not yet
/// linked into the data-flow.
pub open spec fn unlinked(f: &Funcdata, v: VarnodeId) -> bool {
    let x = f.vns@[v.0 as int];
    x.def is None && !x.input && !x.constant
}

/// The varnode's data-type is a pointer.
pub open spec fn is_ptr(f: &Funcdata, v: VarnodeId) -> bool {
    f.vns@[v.0 as int].ty is Pointer
}

/// What the reader `d` of the sum `out` says about converting the sum of `base` and `other`:
/// 0 forbids any action, 2 asks for the conversion now, 1 leaves room for a push. An INT_ADD
/// reader whose other input is unlinked forbids; one whose other input is a pointer asks for the
/// conversion. A LOAD or STORE through the sum asks for the conversion, unless the sum is a
/// spacebase input (or constant) plus a constant, which is left alone. Any other reader asks for
/// the conversion. An INT_ADD reader whose other input cannot be found forbids.
pub open spec fn reader_verdict(f: &Funcdata, d: OpId, out: VarnodeId, base: VarnodeId, other: VarnodeId) -> int {
    let o = f.ops@[d.0 as int];
    if o.opc == OpCode::IntAdd {
        let j = slot_spec(f, d, out);
        if j > 1 || 1 - j >= o.inrefs@.len() {
            0
        } else {
            let ov = o.inrefs@[1 - j];
            if unlinked(f, ov) {
                0
            } else if is_ptr(f, ov) {
                2
            } else {
                1
            }
        }
    } else if (o.opc == OpCode::Load || o.opc == OpCode::Store) && o.inrefs@.len() > 1 && o.inrefs@[1] == out {
        let b = f.vns@[base.0 as int];
        if b.spacebase && (b.input || b.constant) && f.vns@[other.0 as int].constant {
            0
        } else {
            2
        }
    } else {
        2
    }
}

/// An op with exactly two inputs, the pointer `inrefs[slot]` and the other addend
/// `inrefs[1 - slot]`, and an output.
pub open spec fn add_shape(f: &Funcdata, op: OpId, slot: int) -> bool {
    &&& op.0 < f.ops@.len()
    &&& 0 <= slot <= 1
    &&& f.ops@[op.0 as int].inrefs@.len() == 2
    &&& f.ops@[op.0 as int].output is Some
}

/// Whether the sum `op` (pointer in `slot`) is ready to be converted: 0 no action, 1 the pointer
/// must first be pushed past the other addend, 2 convert now. No action when the pointer is
/// unlinked, when a reader forbids it, when nothing reads the sum, or when a spacebase sum has
/// several readers; a conversion when the other addend is a pointer or a reader asks for it.
pub open spec fn pointer_expr_spec(f: &Funcdata, op: OpId, slot: int) -> int {
    let o = f.ops@[op.0 as int];
    let base = o.inrefs@[slot];
    let other = o.inrefs@[1 - slot];
    let out = o.output.unwrap();
    let ds = f.descend_of(out);
    if unlinked(f, base) {
        0
    } else if exists|k: int| 0 <= k < ds.len() && reader_verdict(f, #[trigger] ds[k], out, base, other) == 0 {
        0
    } else if ds.len() == 0 {
        0
    } else if ds.len() > 1 && f.vns@[out.0 as int].spacebase {
        0
    } else if is_ptr(f, other) || exists|k: int| 0 <= k < ds.len() && reader_verdict(f, #[trigger] ds[k], out, base, other) == 2 {
        2
    } else {
        1
    }
}

fn reader_verdict_exec(f: &Funcdata, d: OpId, out: VarnodeId, base: VarnodeId, other: VarnodeId) -> (r: i32)
    requires
        f.wf(),
        d.0 < f.ops@.len(),
        base.0 < f.vns@.len(),
        other.0 < f.vns@.len(),
    ensures
        r == reader_verdict(f, d, out, base, other),
{
    proof {
        assert(op_wf(f.ops@[d.0 as int], f.vns@.len(), f.ops@.len(), f.blocks@.len()));
    }
    let o = f.op(d);
    let opc = o.code();
    if opc == OpCode::IntAdd {
        let j = get_slot(f, d, out);
        if j > 1 || 1 - j >= o.inrefs.len() {
            return 0;
        }
        let ov = o.inrefs[1 - j];
        let x = f.vn(ov);
        if x.is_free() && !x.is_constant() {
            0
        } else if x.get_type().is_pointer() {
            2
        } else {
            1
        }
    } else if (opc == OpCode::Load || opc == OpCode::Store) && o.inrefs.len() > 1 && o.inrefs[1] == out {
        let b = f.vn(base);
        if b.is_spacebase() && (b.is_input() || b.is_constant()) && f.vn(other).is_constant() {
            0
        } else {
            2
        }
    } else {
        2
    }
}

/// Whether the sum `op`, with its pointer in `slot`, is ready for conversion (see
/// [`pointer_expr_spec`]).
pub fn evaluate_pointer_expression(f: &Funcdata, op: OpId, slot: usize) -> (r: i32)
    requires
        f.wf(),
        add_shape(f, op, slot as int),
    ensures
        r == pointer_expr_spec(f, op, slot as int),
{
    proof {
        assert(op_wf(f.ops@[op.0 as int], f.vns@.len(), f.ops@.len(), f.blocks@.len()));
    }
    let base = f.op(op).inrefs[slot];
    let other = f.op(op).inrefs[1 - slot];
    let out = f.op(op).output.unwrap();
    let bv = f.vn(base);
    if bv.is_free() && !bv.is_constant() {
        return 0;
    }
    let mut res: i32 = if f.vn(other).get_type().is_pointer() { 2 } else { 1 };
    let ds = f.descend(out);
    let ghost dss = f.descend_of(out);
    let _nops = f.num_ops();
    let mut k: usize = 0;
    while k < ds.len()
        invariant
            f.wf(),
            ds@ == dss,
            dss == f.descend_of(out),
            k <= ds@.len(),
            base.0 < f.vns@.len(),
            other.0 < f.vns@.len(),
            f.ops@.len() <= usize::MAX,
            add_shape(f, op, slot as int),
            base == f.ops@[op.0 as int].inrefs@[slot as int],
            other == f.ops@[op.0 as int].inrefs@[1 - slot],
            out == f.ops@[op.0 as int].output.unwrap(),
            !unlinked(f, base),
            forall|j: int| 0 <= j < k ==> reader_verdict(f, #[trigger] dss[j], out, base, other) != 0,
            res == 2 <==> (is_ptr(f, other) || exists|j: int| 0 <= j < k && reader_verdict(f, #[trigger] dss[j], out, base, other) == 2),
            res == 1 || res == 2,
        decreases ds@.len() - k,
    {
        let d = ds[k];
        proof {
            crate::funcdata::lemma_descend_member(f.ops@, out, f.ops@.len() as int, k as int);
        }
        let v = reader_verdict_exec(f, d, out, base, other);
        if v == 0 {
            assert(reader_verdict(f, dss[k as int], out, base, other) == 0);
            return 0;
        }
        if v == 2 {
            res = 2;
        }
        k += 1;
    }
    if ds.len() == 0 {
        return 0;
    }
    if ds.len() > 1 && f.vn(out).is_spacebase() {
        return 0;
    }
    res
}

/// When the pointer `inrefs[slot]` of `op` is itself the sum of an INT_ADD holding a pointer,
/// the earlier pointer is preferred as the base unless that inner sum wants to be pushed first.
/// An inner INT_ADD without exactly two inputs and an output counts as no earlier pointer.
pub open spec fn preferred_pointer_spec(f: &Funcdata, op: OpId, slot: int) -> bool {
    let vn = f.ops@[op.0 as int].inrefs@[slot];
    match f.vns@[vn.0 as int].def {
        None => true,
        Some(pre) => {
            let p = f.ops@[pre.0 as int];
            if p.opc != OpCode::IntAdd || p.inrefs@.len() != 2 || p.output is None {
                true
            } else if is_ptr(f, p.inrefs@[0]) {
                pointer_expr_spec(f, pre, 0) != 1
            } else if is_ptr(f, p.inrefs@[1]) {
                pointer_expr_spec(f, pre, 1) != 1
            } else {
                true
            }
        },
    }
}

/// Does `slot` of `op` hold the preferred base pointer (see [`preferred_pointer_spec`])?
pub fn verify_preferred_pointer(f: &Funcdata, op: OpId, slot: usize) -> (r: bool)
    requires
        f.wf(),
        op.0 < f.ops@.len(),
        slot < f.ops@[op.0 as int].inrefs@.len(),
    ensures
        r == preferred_pointer_spec(f, op, slot as int),
{
    proof {
        assert(op_wf(f.ops@[op.0 as int], f.vns@.len(), f.ops@.len(), f.blocks@.len()));
    }
    let vn = f.op(op).inrefs[slot];
    proof {
        assert(vn_wf(f.vns@[vn.0 as int], f.ops@.len()));
    }
    let pre = match f.vn(vn).def {
        None => return true,
        Some(p) => p,
    };
    let p = f.op(pre);
    if p.code() != OpCode::IntAdd || p.inrefs.len() != 2 || p.output.is_none() {
        return true;
    }
    proof {
        assert(op_wf(f.ops@[pre.0 as int], f.vns@.len(), f.ops@.len(), f.blocks@.len()));
    }
    if f.vn(p.inrefs[0]).get_type().is_pointer() {
        evaluate_pointer_expression(f, pre, 0) != 1
    } else if f.vn(p.inrefs[1]).get_type().is_pointer() {
        evaluate_pointer_expression(f, pre, 1) != 1
    } else {
        true
    }
}

/// The first input slot of `op` whose varnode has a pointer type, if any.
pub open spec fn first_ptr_slot(f: &Funcdata, op: OpId) -> Option<int> {
    let ins = f.ops@[op.0 as int].inrefs@;
    if exists|k: int| 0 <= k < ins.len() && is_ptr(f, #[trigger] ins[k]) {
        Some(choose|k: int| 0 <= k < ins.len() && is_ptr(f, #[trigger] ins[k]) && forall|j: int| 0 <= j < k ==> !is_ptr(f, ins[j]))
    } else {
        None
    }
}

/// The first input slot of `op` holding a pointer.
fn find_ptr_slot(f: &Funcdata, op: OpId) -> (r: Option<usize>)
    requires
        f.wf(),
        op.0 < f.ops@.len(),
    ensures
        match r {
            Some(k) => first_ptr_slot(f, op) == Some(k as int) && k < f.ops@[op.0 as int].inrefs@.len(),
            None => first_ptr_slot(f, op) is None,
        },
{
    proof {
        assert(op_wf(f.ops@[op.0 as int], f.vns@.len(), f.ops@.len(), f.blocks@.len()));
    }
    let ins = &f.op(op).inrefs;
    let mut k: usize = 0;
    while k < ins.len()
        invariant
            k <= ins@.len(),
            ins@ == f.ops@[op.0 as int].inrefs@,
            forall|j: int| 0 <= j < ins@.len() ==> (#[trigger] ins@[j]).0 < f.vns@.len(),
            forall|j: int| 0 <= j < k ==> !is_ptr(f, #[trigger] ins@[j]),
        decreases ins@.len() - k,
    {
        if f.vn(ins[k]).get_type().is_pointer() {
            proof {
                let ghost s = ins@;
                let c = choose|c: int| 0 <= c < s.len() && is_ptr(f, #[trigger] s[c]) && forall|j: int| 0 <= j < c ==> !is_ptr(f, s[j]);
                assert(c == k) by {
                    if c < k {
                        assert(!is_ptr(f, s[c]));
                    } else if c > k {
                        assert(!is_ptr(f, s[k as int]));
                    }
                }
            }
            return Some(k);
        }
        k += 1;
    }
    None
}

/// The INT_ADD `op` qualifies for pointer rewriting: type recovery has begun, its first pointer
/// input is in slot 0 or 1, and it has exactly two inputs and an output; the result is that slot.
pub open spec fn ptr_add_slot(f: &Funcdata, op: OpId) -> Option<int> {
    match first_ptr_slot(f, op) {
        Some(s) => if f.type_recovery_started && add_shape(f, op, s) {
            Some(s)
        } else {
            None
        },
        None => None,
    }
}

/// The slot given by [`ptr_add_slot`].
fn qualifying_slot(f: &Funcdata, op: OpId) -> (r: Option<usize>)
    requires
        f.wf(),
        op.0 < f.ops@.len(),
    ensures
        match r {
            Some(s) => ptr_add_slot(f, op) == Some(s as int),
            None => ptr_add_slot(f, op) is None,
        },
{
    if !f.has_type_recovery_started() {
        return None;
    }
    let slot = match find_ptr_slot(f, op) {
        Some(s) => s,
        None => return None,
    };
    if slot > 1 || f.op(op).num_inputs() != 2 || f.op(op).output.is_none() {
        return None;
    }
    Some(slot)
}

/// Ops reading `v` equally often have the same list of readers of `v`.
pub(crate) proof fn lemma_descend_same_counts(a: Seq<PcodeOp>, b: Seq<PcodeOp>, v: VarnodeId, n: int)
    requires
        n <= a.len(),
        n <= b.len(),
        forall|j: int| 0 <= j < n ==> count_in((#[trigger] a[j]).inrefs@, v) == count_in(b[j].inrefs@, v),
    ensures
        descend_upto(a, v, n) == descend_upto(b, v, n),
    decreases n,
{
    if n > 0 {
        lemma_descend_same_counts(a, b, v, n - 1);
        assert(count_in(a[n - 1].inrefs@, v) == count_in(b[n - 1].inrefs@, v));
    }
}

/// The reader `d` of `vn` cannot be rewritten by the push: it does not have exactly two inputs,
/// or it reads `vn` in both, or it would read `vn` again through the pointer `vni` or the
/// pushed addend `vnadd2`.
pub open spec fn push_blocked(f: &Funcdata, d: OpId, vn: VarnodeId, vni: VarnodeId, vnadd2: VarnodeId) -> bool {
    let ins = f.ops@[d.0 as int].inrefs@;
    ins.len() != 2 || ins[0] == ins[1] || vni == vn || vnadd2 == vn
}

/// Push a pointer to the bottom of its sum: when `op` computes `ptr + a` and is ready for a push
/// (see [`pointer_expr_spec`]), each reader `INT_ADD(op's output, b)` becomes
/// `INT_ADD(ptr, INT_ADD(b, a))`, so the pointer is added last, and `op` is removed unless its
/// output is kept alive.
pub struct RulePushPtr;

impl RulePushPtr {
    pub fn name(&self) -> (r: &'static str)
        ensures
            r@ == "pushptr"@,
    {
        "pushptr"
    }

    /// The operations the rule applies to.
    pub fn oplist(&self) -> (r: Vec<OpCode>)
        ensures
            r@ == seq![OpCode::IntAdd],
    {
        let mut v = Vec::new();
        v.push(OpCode::IntAdd);
        v
    }

    /// Apply the rule to the INT_ADD `op`. Returns 0, changing nothing, unless `op` qualifies
    /// (see [`ptr_add_slot`]) and needs a push; then every reader of its output is rewritten,
    /// until none is left or the next one cannot be (see [`push_blocked`]), and `op` is destroyed
    /// unless its output is kept alive.
    pub fn apply_op(&mut self, op: OpId, data: &mut Funcdata) -> (r: u32)
        requires
            old(data).wf(),
            op.0 < old(data).ops@.len(),
        ensures
            final(data).wf(),
            final(data).same_meta(old(data)),
            r == 1 <==> (ptr_add_slot(old(data), op) matches Some(s) && pointer_expr_spec(old(data), op, s) == 1),
            r == 0 ==> *final(data) == *old(data),
            r == 1 ==> ({
                let o = old(data).ops@[op.0 as int];
                let s = ptr_add_slot(old(data), op).unwrap();
                let vn = o.output.unwrap();
                let ds = final(data).descend_of(vn);
                &&& ds.len() == 0 || push_blocked(final(data), ds[0], vn, o.inrefs@[s], o.inrefs@[1 - s])
                &&& !old(data).vns@[vn.0 as int].auto_live ==> final(data).ops@[op.0 as int].dead
            }),
    {
        let slot = match qualifying_slot(data, op) {
            Some(s) => s,
            None => return 0,
        };
        if evaluate_pointer_expression(data, op, slot) != 1 {
            return 0;
        }
        proof {
            assert(op_wf(data.ops@[op.0 as int], data.vns@.len(), data.ops@.len(), data.blocks@.len()));
        }
        let vni = data.op(op).inrefs[slot];
        let vnadd2 = data.op(op).inrefs[1 - slot];
        let vn = data.op(op).output.unwrap();
        let auto_live = data.vn(vn).is_auto_live();
        let mut readers = data.descend(vn);
        let ghost orig_ins = data.ops@[op.0 as int].inrefs@;
        assert(orig_ins.contains(vn) ==> vni == vn || vnadd2 == vn) by {
            if orig_ins.contains(vn) {
                let k = choose|k: int| 0 <= k < 2 && orig_ins[k] == vn;
                assert(k == 0 || k == 1);
            }
        }
        while readers.len() > 0
            invariant
                data.wf(),
                data.same_meta(old(data)),
                op.0 < data.ops@.len(),
                vni.0 < data.vns@.len(),
                vnadd2.0 < data.vns@.len(),
                vn.0 < data.vns@.len(),
                data.vns@[vn.0 as int].auto_live == auto_live,
                data.ops@[op.0 as int].inrefs@ == orig_ins,
                orig_ins.contains(vn) ==> vni == vn || vnadd2 == vn,
                readers@ == data.descend_of(vn),
            ensures
                data.wf(),
                data.same_meta(old(data)),
                op.0 < data.ops@.len(),
                data.vns@[vn.0 as int].auto_live == auto_live,
                readers@.len() == 0 || push_blocked(data, readers@[0], vn, vni, vnadd2),
                readers@ == data.descend_of(vn),
                data.ops@[op.0 as int].inrefs@ == orig_ins,
                orig_ins.contains(vn) ==> vni == vn || vnadd2 == vn,
            decreases readers@.len(),
        {
            let decop = readers[0];
            let nops = data.ops.len();
            proof {
                crate::funcdata::lemma_descend_member(data.ops@, vn, nops as int, 0);
                assert(op_wf(data.ops@[decop.0 as int], data.vns@.len(), data.ops@.len(), data.blocks@.len()));
            }
            let ins = &data.op(decop).inrefs;
            if ins.len() != 2 || ins[0] == ins[1] || vni == vn || vnadd2 == vn {
                break;
            }
            let j = get_slot(data, decop, vn);
            let vnadd1 = data.op(decop).inrefs[1 - j];
            let _nvns = data.vns.len();
            assert(decop != op) by {
                if decop == op {
                    assert(data.ops@[op.0 as int].inrefs@.contains(vn));
                }
            }
            let ghost s0 = *data;
            let mut add_ins: Vec<VarnodeId> = Vec::new();
            add_ins.push(vnadd1);
            add_ins.push(vnadd2);
            let newop = data.new_op_before(decop, OpCode::IntAdd, add_ins);
            let newout = data.op(newop).output.unwrap();
            let ghost s1 = *data;
            data.op_set_input(decop, 0, vni);
            let ghost s2 = *data;
            data.op_set_input(decop, 1, newout);
            proof {
                let n0 = s0.ops@.len() as int;
                let before = s0.ops@[decop.0 as int].inrefs@;
                assert(before.contains(vn));
                assert(before[j as int] == vn);
                assert(vnadd1 != vn);
                assert(newout.0 == s0.vns@.len());
                assert(data.ops@[decop.0 as int].inrefs@ =~= seq![vni, newout]);
                assert(!data.ops@[decop.0 as int].inrefs@.contains(vn)) by {
                    if data.ops@[decop.0 as int].inrefs@.contains(vn) {
                        let k = choose|k: int| 0 <= k < 2 && data.ops@[decop.0 as int].inrefs@[k] == vn;
                        assert(k == 0 || k == 1);
                    }
                }
                assert(!s1.ops@[n0].inrefs@.contains(vn)) by {
                    assert(s1.ops@[n0].inrefs@ =~= seq![vnadd1, vnadd2]);
                    if s1.ops@[n0].inrefs@.contains(vn) {
                        let k = choose|k: int| 0 <= k < 2 && s1.ops@[n0].inrefs@[k] == vn;
                        assert(k == 0 || k == 1);
                    }
                }
                crate::funcdata::lemma_count_contains(before, vn);
                crate::funcdata::lemma_count_contains(data.ops@[decop.0 as int].inrefs@, vn);
                crate::funcdata::lemma_count_contains(s1.ops@[n0].inrefs@, vn);
                crate::funcdata::lemma_desc_count_one(s0.ops@, data.ops@, vn, decop.0 as int, n0);
                crate::funcdata::lemma_descend_len(s0.ops@, vn, n0);
                crate::funcdata::lemma_descend_len(data.ops@, vn, n0 + 1);
                assert(desc_count(data.ops@, vn, n0 + 1) == desc_count(data.ops@, vn, n0) + count_in(data.ops@[n0].inrefs@, vn));
                assert(data.ops@[n0].inrefs@ == s1.ops@[n0].inrefs@);
            }
            readers = data.descend(vn);
        }
        if !auto_live {
            let _n = data.ops.len();
            let ghost before = *data;
            let ghost rd = readers@;
            data.op_destroy(op);
            proof {
                let n = data.ops@.len() as int;
                if vni != vn && vnadd2 != vn {
                    let oi = before.ops@[op.0 as int].inrefs@;
                    crate::funcdata::lemma_count_contains(oi, vn);
                    crate::funcdata::lemma_count_contains(data.ops@[op.0 as int].inrefs@, vn);
                    lemma_descend_same_counts(before.ops@, data.ops@, vn, n);
                    if rd.len() > 0 {
                        crate::funcdata::lemma_descend_member(before.ops@, vn, n, 0);
                        assert(rd[0] != op);
                    }
                }
            }
        }
        1
    }
}

/// Every handle in `s` names an existing varnode.
pub open spec fn ids_ok(f: &Funcdata, s: Seq<VarnodeId>) -> bool {
    forall|k: int| 0 <= k < s.len() ==> (#[trigger] s[k]).0 < f.vns@.len()
}

/// `x` as an unsigned magnitude.
fn abs_u64(x: i64) -> (r: u64)
    ensures
        r as int == if x < 0 { -x } else { x as int },
{
    if x < 0 {
        (0i128 - x as i128) as u64
    } else {
        x as u64
    }
}

/// The analysis and rewrite of one sum rooted on a pointer: its terms are sorted into
/// constant multiples of the pointed-to size (`multsum`), other constants (`nonmultsum`),
/// products by a multiple of the size (`multiple` times `coeff`) and anything else (`nonmult`).
struct AddTreeState {
    base_op: OpId,
    ptr: VarnodeId,
    /// The pointer's data-type.
    ct: Datatype,
    /// The pointed-to data-type.
    base_type: Datatype,
    ptrsize: u32,
    /// Size of the pointed-to type; 0 for an open-ended one.
    size: i64,
    base_slot: usize,
    biggest_non_mult_coeff: u64,
    ptrmask: u64,
    /// Bytes into the pointed-to type.
    offset: u64,
    /// Bytes counted twice.
    correct: u64,
    multiple: Vec<VarnodeId>,
    coeff: Vec<i64>,
    nonmult: Vec<VarnodeId>,
    distribute_op: Option<OpId>,
    multsum: u64,
    nonmultsum: u64,
    prevent_distribution: bool,
    is_distribute_used: bool,
    is_subtype: bool,
    valid: bool,
    is_degenerate: bool,
}

impl AddTreeState {
    /// The state describes the sum `base_op` of `f`, and every handle it holds is valid.
    spec fn inv(&self, f: &Funcdata) -> bool {
        &&& f.wf()
        &&& add_shape(f, self.base_op, self.base_slot as int)
        &&& self.ptr == f.ops@[self.base_op.0 as int].inrefs@[self.base_slot as int]
        &&& type_wf(self.base_type)
        &&& type_wf(self.ct)
        &&& self.size as int == type_size(self.base_type)
        &&& self.ptrmask == byte_mask(self.ptrsize as nat)
        &&& ids_ok(f, self.multiple@)
        &&& ids_ok(f, self.nonmult@)
        &&& self.multiple@.len() == self.coeff@.len()
    }

    /// The parts fixed when the state is made.
    spec fn same_frame(&self, other: &Self) -> bool {
        &&& self.base_op == other.base_op
        &&& self.ptr == other.ptr
        &&& self.ct == other.ct
        &&& self.base_type == other.base_type
        &&& self.ptrsize == other.ptrsize
        &&& self.size == other.size
        &&& self.base_slot == other.base_slot
        &&& self.ptrmask == other.ptrmask
        &&& self.is_degenerate == other.is_degenerate
    }

    fn new(f: &Funcdata, op: OpId, slot: usize) -> (r: AddTreeState)
        requires
            f.wf(),
            add_shape(f, op, slot as int),
        ensures
            r.inv(f),
            r.base_op == op,
            r.base_slot == slot,
            r.valid,
            !r.prevent_distribution,
            r.distribute_op is None,
            r.multiple@.len() == 0,
            r.nonmult@.len() == 0,
            r.ct == f.vns@[r.ptr.0 as int].ty,
            r.base_type == match r.ct {
                Datatype::Pointer(_, t) => *t,
                _ => Datatype::Unknown(1),
            },
            r.is_degenerate == (r.size <= 1 && r.size > 0),
            view_of(&r) == initial_view(f, op, slot as int),
    {
        proof {
            assert(op_wf(f.ops@[op.0 as int], f.vns@.len(), f.ops@.len(), f.blocks@.len()));
        }
        let ptr = f.op(op).inrefs[slot];
        proof {
            assert(vn_wf(f.vns@[ptr.0 as int], f.ops@.len()));
        }
        let ct = copy_type(f.vn(ptr).get_type());
        let ptrsize = f.vn(ptr).size;
        let ptrmask = calc_mask(ptrsize);
        let base_type = match ct.ptr_to() {
            Some(t) => copy_type(t),
            None => Datatype::Unknown(1),
        };
        let size = base_type.align_size() as i64;
        let is_degenerate = size <= 1 && size > 0;
        AddTreeState {
            base_op: op,
            ptr,
            ct,
            base_type,
            ptrsize,
            size,
            base_slot: slot,
            biggest_non_mult_coeff: 0,
            ptrmask,
            offset: 0,
            correct: 0,
            multiple: Vec::new(),
            coeff: Vec::new(),
            nonmult: Vec::new(),
            distribute_op: None,
            multsum: 0,
            nonmultsum: 0,
            prevent_distribution: false,
            is_distribute_used: false,
            is_subtype: false,
            valid: true,
            is_degenerate,
        }
    }

    /// Relative pointers (pointing into the middle of a type) are not modelled, so there is no
    /// alternate form of the sum to try.
    fn init_alternate_form(&mut self) -> (r: bool)
        ensures
            !r,
    {
        false
    }

    /// Reset the accumulators for a fresh walk of the sum.
    fn clear(&mut self)
        ensures
            final(self).same_frame(old(self)),
            final(self).multiple@.len() == 0,
            final(self).coeff@.len() == 0,
            final(self).nonmult@.len() == 0,
            final(self).valid,
            final(self).distribute_op is None,
            final(self).multsum == 0,
            final(self).nonmultsum == 0,
            walk_of(final(self)) == cleared_walk(),
            final(self).prevent_distribution == old(self).prevent_distribution,
    {
        self.multsum = 0;
        self.nonmultsum = 0;
        self.biggest_non_mult_coeff = 0;
        self.multiple = Vec::new();
        self.coeff = Vec::new();
        self.nonmult = Vec::new();
        self.correct = 0;
        self.offset = 0;
        self.valid = true;
        self.is_distribute_used = false;
        self.is_subtype = false;
        self.distribute_op = None;
    }

    /// The constant term `val` (already scaled), read as signed at the width of a `vsize`-byte
    /// varnode, and whether it is not a whole number of pointed-to elements (for an open-ended
    /// type: whether it is not 0).
    fn const_rem(&self, val: u64, vsize: u32) -> (r: (i64, bool))
        requires
            self.size >= 0,
        ensures
            r.0 == sign_extend_spec(val, vsize.wrapping_mul(8).wrapping_sub(1)),
            r.1 == if self.size == 0 { r.0 != 0 } else { trunc_rem(r.0 as int, self.size as int) != 0 },
    {
        let sval = sign_extend(val, vsize.wrapping_mul(8).wrapping_sub(1));
        let rem = if self.size == 0 { sval } else { sval % self.size };
        (sval, rem != 0)
    }

    /// Examine the INT_MULT `op` writing the term `vn`: a product by a constant multiple of the
    /// size is recorded as a multiple; returns whether the term is not such a multiple.
    #[verifier::rlimit(50)]
    #[verifier::spinoff_prover]
    fn check_mult_term(&mut self, f: &Funcdata, vn: VarnodeId, op: OpId, tree_coeff: u64, depth: u64) -> (r: bool)
        requires
            old(self).inv(f),
            op.0 < f.ops@.len(),
            vn.0 < f.vns@.len(),
        ensures
            final(self).inv(f),
            final(self).same_frame(old(self)),
            final(self).prevent_distribution == old(self).prevent_distribution,
            final(self).correct == old(self).correct && final(self).offset == old(self).offset && final(self).is_subtype == old(self).is_subtype,
            (walk_of(final(self)), r) == mult_walk(f, ctx_of(old(self)), walk_of(old(self)), vn, op, tree_coeff, depth),
        decreases depth, 0nat,
    {
        proof {
            assert(op_wf(f.ops@[op.0 as int], f.vns@.len(), f.ops@.len(), f.blocks@.len()));
        }
        if f.op(op).num_inputs() < 2 {
            self.valid = false;
            return false;
        }
        let vnconst = f.op(op).inrefs[1];
        let vnterm = f.op(op).inrefs[0];
        if f.vn(vnterm).is_free() {
            self.valid = false;
            return false;
        }
        if f.vn(vnconst).is_constant() {
            let val = f.vn(vnconst).constant_value().wrapping_mul(tree_coeff) & self.ptrmask;
            let (sval, nonzero) = self.const_rem(val, f.vn(vn).size);
            if nonzero {
                if self.size != 0 && val >= self.size as u64 {
                    self.valid = false;
                    return false;
                }
                if !self.prevent_distribution {
                    proof {
                        assert(vn_wf(f.vns@[vnterm.0 as int], f.ops@.len()));
                    }
                    if let Some(def) = f.vn(vnterm).def {
                        if f.op(def).code() == OpCode::IntAdd {
                            if self.distribute_op.is_none() {
                                self.distribute_op = Some(op);
                            }
                            if depth == 0 {
                                self.valid = false;
                                return false;
                            }
                            return self.span_add_tree(f, def, val, depth - 1);
                        }
                    }
                }
                let vncoeff = abs_u64(sval);
                if vncoeff > self.biggest_non_mult_coeff {
                    self.biggest_non_mult_coeff = vncoeff;
                }
                return true;
            }
            if tree_coeff != 1 {
                self.is_distribute_used = true;
            }
            self.multiple.push(vnterm);
            self.coeff.push(sval);
            return false;
        }
        if tree_coeff > self.biggest_non_mult_coeff {
            self.biggest_non_mult_coeff = tree_coeff;
        }
        true
    }

    /// Classify one term `vn` of the sum, following sub-sums; returns whether the term is not a
    /// multiple of the size.
    fn check_term(&mut self, f: &Funcdata, vn: VarnodeId, tree_coeff: u64, depth: u64) -> (r: bool)
        requires
            old(self).inv(f),
            vn.0 < f.vns@.len(),
        ensures
            final(self).inv(f),
            final(self).same_frame(old(self)),
            final(self).prevent_distribution == old(self).prevent_distribution,
            final(self).correct == old(self).correct && final(self).offset == old(self).offset && final(self).is_subtype == old(self).is_subtype,
            (walk_of(final(self)), r) == term_walk(f, ctx_of(old(self)), walk_of(old(self)), vn, tree_coeff, depth),
        decreases depth, 1nat,
    {
        if vn == self.ptr {
            return false;
        }
        proof {
            assert(vn_wf(f.vns@[vn.0 as int], f.ops@.len()));
        }
        let x = f.vn(vn);
        if x.is_constant() {
            let val = x.constant_value().wrapping_mul(tree_coeff);
            let (_sval, nonzero) = self.const_rem(val, x.size);
            if nonzero {
                if tree_coeff != 1 && matches!(self.base_type, Datatype::Array(..) | Datatype::Struct(..)) {
                    self.is_distribute_used = true;
                }
                self.nonmultsum = self.nonmultsum.wrapping_add(val) & self.ptrmask;
                return true;
            }
            if tree_coeff != 1 {
                self.is_distribute_used = true;
            }
            self.multsum = self.multsum.wrapping_add(val) & self.ptrmask;
            return false;
        }
        if let Some(def) = x.def {
            let code = f.op(def).code();
            if code == OpCode::IntAdd {
                if depth == 0 {
                    self.valid = false;
                    return false;
                }
                return self.span_add_tree(f, def, tree_coeff, depth - 1);
            } else if code == OpCode::Copy {
                self.valid = false;
                return false;
            } else if code == OpCode::IntMult {
                return self.check_mult_term(f, vn, def, tree_coeff, depth);
            }
        } else if x.is_free() {
            self.valid = false;
            return false;
        }
        if tree_coeff > self.biggest_non_mult_coeff {
            self.biggest_non_mult_coeff = tree_coeff;
        }
        true
    }

    /// Walk the sum under `op`, sorting its terms; returns whether no term under it is a
    /// multiple of the size. An op without two inputs makes the walk invalid, as does a chain
    /// of sums deeper than `depth`.
    fn span_add_tree(&mut self, f: &Funcdata, op: OpId, tree_coeff: u64, depth: u64) -> (r: bool)
        requires
            old(self).inv(f),
            op.0 < f.ops@.len(),
        ensures
            final(self).inv(f),
            final(self).same_frame(old(self)),
            f.ops@[op.0 as int].inrefs@.len() < 2 ==> !r && !final(self).valid,
            r ==> final(self).valid,
            final(self).prevent_distribution == old(self).prevent_distribution,
            final(self).correct == old(self).correct && final(self).offset == old(self).offset && final(self).is_subtype == old(self).is_subtype,
            (walk_of(final(self)), r) == span_walk(f, ctx_of(old(self)), walk_of(old(self)), op, tree_coeff, depth),
        decreases depth, 2nat,
    {
        proof {
            assert(op_wf(f.ops@[op.0 as int], f.vns@.len(), f.ops@.len(), f.blocks@.len()));
        }
        if f.op(op).num_inputs() < 2 {
            self.valid = false;
            return false;
        }
        let in0 = f.op(op).inrefs[0];
        let in1 = f.op(op).inrefs[1];
        let one_is_non = self.check_term(f, in0, tree_coeff, depth);
        if !self.valid {
            return false;
        }
        let two_is_non = self.check_term(f, in1, tree_coeff, depth);
        if !self.valid {
            return false;
        }
        if one_is_non && two_is_non {
            return true;
        }
        if one_is_non {
            self.nonmult.push(in0);
        }
        if two_is_non {
            self.nonmult.push(in1);
        }
        false
    }
}

/// `b` extends `a`: it is well formed, its old ops and varnodes are unchanged, and it only
/// has more of them.
pub open spec fn extends(a: &Funcdata, b: &Funcdata) -> bool {
    &&& b.wf()
    &&& b.same_meta(a)
    &&& a.ops@.len() <= b.ops@.len()
    &&& a.vns@.len() <= b.vns@.len()
    &&& forall|i: int| 0 <= i < a.ops@.len() ==> #[trigger] b.ops@[i] == a.ops@[i]
    &&& forall|i: int| 0 <= i < a.vns@.len() ==> #[trigger] b.vns@[i] == a.vns@[i]
}

proof fn lemma_extends_refl(a: &Funcdata)
    requires
        a.wf(),
    ensures
        extends(a, a),
{
}

proof fn lemma_extends_trans(a: &Funcdata, b: &Funcdata, c: &Funcdata)
    requires
        extends(a, b),
        extends(b, c),
    ensures
        extends(a, c),
{
    assert forall|i: int| 0 <= i < a.ops@.len() implies #[trigger] c.ops@[i] == a.ops@[i] by {
        assert(b.ops@[i] == a.ops@[i]);
    }
    assert forall|i: int| 0 <= i < a.vns@.len() implies #[trigger] c.vns@[i] == a.vns@[i] by {
        assert(b.vns@[i] == a.vns@[i]);
    }
}

/// A new op `opc(ins)` placed before `follow`, with a fresh output; returns the op and its output.
fn add_op_vec(f: &mut Funcdata, follow: OpId, opc: OpCode, ins: Vec<VarnodeId>) -> (r: (OpId, VarnodeId))
    requires
        old(f).wf(),
        follow.0 < old(f).ops@.len(),
        ins@.len() > 0,
        ids_ok(old(f), ins@),
    ensures
        extends(old(f), final(f)),
        r.0.0 == old(f).ops@.len(),
        r.1.0 == old(f).vns@.len(),
        final(f).ops@.len() == old(f).ops@.len() + 1,
        final(f).vns@.len() == old(f).vns@.len() + 1,
        final(f).ops@[r.0.0 as int].opc == opc,
        final(f).ops@[r.0.0 as int].inrefs@ == ins@,
        final(f).ops@[r.0.0 as int].output == Some(r.1),
{
    let _nv = f.vns.len();
    let o = f.new_op_before(follow, opc, ins);
    let out = f.op(o).output.unwrap();
    (o, out)
}

/// A new op `opc(a, b)` placed before `follow`, with a fresh output; returns the op and its output.
fn add_op(f: &mut Funcdata, follow: OpId, opc: OpCode, a: VarnodeId, b: VarnodeId) -> (r: (OpId, VarnodeId))
    requires
        old(f).wf(),
        follow.0 < old(f).ops@.len(),
        a.0 < old(f).vns@.len(),
        b.0 < old(f).vns@.len(),
    ensures
        extends(old(f), final(f)),
        r.0.0 == old(f).ops@.len(),
        r.1.0 == old(f).vns@.len(),
        final(f).ops@.len() == old(f).ops@.len() + 1,
        final(f).vns@.len() == old(f).vns@.len() + 1,
        final(f).ops@[r.0.0 as int].opc == opc,
        final(f).ops@[r.0.0 as int].inrefs@ == seq![a, b],
        final(f).ops@[r.0.0 as int].output == Some(r.1),
{
    let mut ins: Vec<VarnodeId> = Vec::new();
    ins.push(a);
    ins.push(b);
    assert(ins@ =~= seq![a, b]);
    add_op_vec(f, follow, opc, ins)
}

/// A new constant, as [`Funcdata::new_const`], seen as an extension.
fn add_const(f: &mut Funcdata, size: u32, val: u64) -> (r: VarnodeId)
    requires
        old(f).wf(),
    ensures
        extends(old(f), final(f)),
        r.0 == old(f).vns@.len(),
        final(f).vns@.len() == old(f).vns@.len() + 1,
        final(f).ops@ == old(f).ops@,
        final(f).vns@[r.0 as int].constant,
        final(f).vns@[r.0 as int].loc.offset == val,
{
    f.new_const(size, val)
}

/// The residual offset into the component of `base_type` nearest `off`, when there is one.
/// For the stack frame (`Spacebase`) the components are the frame variables `syms`: with no
/// index (`hint` 0) the offset into the variable holding `off` (0 when none does); with an
/// index of coefficient `hint`, the array variable `off` lands in when its element size
/// matches (1 matches any) and `off` lies inside it, else the nearer of that array and the next
/// array variable after `off` (an element size not matching `hint` counts 0x1000 bytes
/// farther), else the offset into the variable holding `off`. For any other type, the offset
/// into the component at `off` (see [`subtype_spec`]).
pub open spec fn matching_sub_type_spec(syms: Seq<StackSymbol>, base_type: Datatype, off: i64, hint: u64) -> Option<i64> {
    if base_type is Spacebase {
        let whole: i64 = match sb_subtype_spec(syms, off) {
            Some((_, n)) => n,
            None => 0,
        };
        if hint == 0 {
            Some(whole)
        } else {
            let before = sb_backward_spec(syms, off);
            let after = sb_forward_spec(syms, off);
            let fits = match before {
                Some((eb, ob, asz)) => (hint == 1 || eb == hint) && ob >= 0 && ob < asz,
                None => false,
            };
            if fits {
                Some(before.unwrap().1)
            } else {
                match before {
                    None => match after {
                        None => Some(whole),
                        Some((_, noa)) => Some(noa),
                    },
                    Some((elb, nob, _)) => match after {
                        None => Some(nob),
                        Some((ela, noa)) => {
                            let db: int = (if nob < 0 { -nob } else { nob as int }) + if hint != 1 && elb != hint { 0x1000int } else { 0int };
                            let da: int = (if noa < 0 { -noa } else { noa as int }) + if hint != 1 && ela != hint { 0x1000int } else { 0int };
                            Some(if da < db { noa } else { nob })
                        },
                    },
                }
            }
        }
    } else {
        match subtype_spec(base_type, off) {
            Some((_, n)) => Some(n),
            None => None,
        }
    }
}

impl AddTreeState {
    /// The residual offset into the component nearest `off` (see [`matching_sub_type_spec`]).
    fn has_matching_sub_type(&self, f: &Funcdata, off: i64, array_hint: u64) -> (r: Option<i64>)
        requires
            self.inv(f),
        ensures
            r == matching_sub_type_spec(f.stack_syms@, self.base_type, off, array_hint),
    {
        let syms = &f.stack_syms;
        if matches!(self.base_type, Datatype::Spacebase(_)) {
            let whole: i64 = match sb_get_subtype(syms, off) {
                Some((_, n)) => n,
                None => 0,
            };
            if array_hint == 0 {
                return Some(whole);
            }
            let before = sb_nearest_backward(syms, off);
            if let Some((el_before, off_before, arr_size)) = before {
                if (array_hint == 1 || el_before == array_hint) && off_before >= 0 && off_before < arr_size {
                    return Some(off_before);
                }
            }
            let after = sb_nearest_forward(syms, off);
            return match before {
                None => match after {
                    None => Some(whole),
                    Some((_, noa)) => Some(noa),
                },
                Some((elb, nob, _)) => match after {
                    None => Some(nob),
                    Some((ela, noa)) => {
                        let mut db: u64 = abs_u64(nob);
                        let mut da: u64 = abs_u64(noa);
                        if array_hint != 1 {
                            if elb != array_hint {
                                db = db + 0x1000;
                            }
                            if ela != array_hint {
                                da = da + 0x1000;
                            }
                        }
                        Some(if da < db { noa } else { nob })
                    },
                },
            };
        }
        match self.base_type.get_subtype(off) {
            Some((_, n)) => Some(n),
            None => None,
        }
    }

    /// Settle how the constant part of the sum splits into a whole number of elements
    /// (`multsum`) and an offset into the pointed-to type (`offset`), and whether that offset
    /// names a component (`is_subtype`, to become a PTRSUB). The walk becomes invalid when there
    /// is nothing to convert, or an offset cannot be placed in the pointed-to type.
    #[verifier::rlimit(50)]
    #[verifier::spinoff_prover]
    fn calc_subtype(&mut self, f: &Funcdata)
        requires
            old(self).inv(f),
        ensures
            final(self).inv(f),
            final(self).same_frame(old(self)),
            final(self).multiple@ == old(self).multiple@,
            final(self).coeff@ == old(self).coeff@,
            final(self).nonmult@ == old(self).nonmult@,
            final(self).distribute_op == old(self).distribute_op,
            final(self).valid ==> old(self).valid,
            final(self).prevent_distribution == old(self).prevent_distribution,
            final(self).nonmultsum == old(self).nonmultsum,
            final(self).biggest_non_mult_coeff == old(self).biggest_non_mult_coeff,
            final(self).is_distribute_used == old(self).is_distribute_used,
            final(self).multsum == const_part(view_of(old(self))).wrapping_sub(element_offset(view_of(old(self)))) & old(self).ptrmask,
            final(self).valid == (old(self).valid && subtype_outcome(view_of(old(self)), f).0),
            subtype_outcome(view_of(old(self)), f).0 ==> final(self).is_subtype == subtype_outcome(view_of(old(self)), f).1 && final(self).offset
                == subtype_outcome(view_of(old(self)), f).2 && final(self).correct == subtype_outcome(view_of(old(self)), f).3,
    {
        let tmpoff = self.multsum.wrapping_add(self.nonmultsum) & self.ptrmask;
        let bits = self.ptrsize.wrapping_mul(8).wrapping_sub(1);
        if self.size == 0 || tmpoff < self.size as u64 {
            self.offset = tmpoff;
        } else {
            let stmpoff = sign_extend(tmpoff, bits) % self.size;
            if stmpoff >= 0 {
                self.offset = stmpoff as u64;
            } else if matches!(self.base_type, Datatype::Struct(_)) && self.biggest_non_mult_coeff != 0 && self.multsum == 0 {
                self.offset = tmpoff;
            } else {
                self.offset = (stmpoff + self.size) as u64;
            }
        }
        self.correct = self.nonmultsum;
        self.multsum = tmpoff.wrapping_sub(self.offset) & self.ptrmask;
        if self.nonmult.len() == 0 {
            if self.multsum == 0 && self.multiple.len() == 0 {
                self.valid = false;
                return;
            }
            self.is_subtype = false;
        } else if matches!(self.base_type, Datatype::Spacebase(_)) {
            let offsetbytes = sign_extend(self.offset, bits);
            let extra = match self.has_matching_sub_type(f, offsetbytes, self.biggest_non_mult_coeff) {
                Some(e) => e,
                None => {
                    self.valid = false;
                    return;
                },
            };
            self.offset = self.offset.wrapping_sub(extra as u64) & self.ptrmask;
            self.correct = self.correct.wrapping_sub(extra as u64) & self.ptrmask;
            self.is_subtype = true;
        } else if matches!(self.base_type, Datatype::Struct(_)) {
            let offsetbytes = sign_extend(self.offset, bits);
            let extra = match self.has_matching_sub_type(f, offsetbytes, self.biggest_non_mult_coeff) {
                Some(e) => e,
                None => {
                    if offsetbytes < 0 || offsetbytes >= self.base_type.size() as i64 {
                        self.valid = false;
                        return;
                    }
                    0
                },
            };
            self.offset = self.offset.wrapping_sub(extra as u64) & self.ptrmask;
            self.correct = self.correct.wrapping_sub(extra as u64) & self.ptrmask;
            self.is_subtype = true;
        } else if matches!(self.base_type, Datatype::Array(..)) {
            self.is_subtype = true;
            self.correct = self.correct.wrapping_sub(self.offset) & self.ptrmask;
            self.offset = 0;
        } else {
            self.valid = false;
        }
    }

    /// Build the element index: the whole elements of the constant part, plus each recorded
    /// product scaled down to elements (an INT_MULT unless the factor is 1), summed by
    /// INT_ADDs placed before the sum. None when there is no index; then nothing was added.
    fn build_multiples(&self, f: &mut Funcdata) -> (r: Option<VarnodeId>)
        requires
            self.inv(old(f)),
        ensures
            extends(old(f), final(f)),
            r matches Some(v) ==> v.0 < final(f).vns@.len(),
            r is None ==> *final(f) == *old(f),
            r is None <==> !has_index(view_of(self)),
            self.multiple@.len() == 0 && whole_elements(view_of(self)) != 0 ==> (r matches Some(v) && final(f).vns@[v.0 as int].constant
                && final(f).vns@[v.0 as int].loc.offset == whole_elements(view_of(self))),
    {
        let ghost f0 = *f;
        proof {
            lemma_extends_refl(f);
        }
        let bits = self.ptrsize.wrapping_mul(8).wrapping_sub(1);
        let smultsum = sign_extend(self.multsum, bits);
        let const_coeff: u64 = if self.size == 0 { 0 } else { ((smultsum / self.size) as u64) & self.ptrmask };
        let mut res: Option<VarnodeId> = if const_coeff == 0 {
            None
        } else {
            Some(add_const(f, self.ptrsize, const_coeff))
        };
        let mut i: usize = 0;
        while i < self.multiple.len()
            invariant
                self.inv(&f0),
                extends(&f0, &*f),
                i <= self.multiple@.len(),
                res matches Some(v) ==> v.0 < f.vns@.len(),
                res is None ==> *f == f0,
                res is None <==> (const_coeff == 0 && i == 0),
                i == 0 && const_coeff != 0 ==> (res matches Some(v) && f.vns@[v.0 as int].constant && f.vns@[v.0 as int].loc.offset == const_coeff),
                const_coeff == whole_elements(view_of(self)),
            decreases self.multiple@.len() - i,
        {
            let final_coeff: u64 = if self.size == 0 { 0 } else { ((self.coeff[i] / self.size) as u64) & self.ptrmask };
            let mut vn = self.multiple[i];
            assert(vn.0 < f0.vns@.len());
            if final_coeff != 1 {
                let ghost g = *f;
                let c = add_const(f, self.ptrsize, final_coeff);
                let ghost h = *f;
                let (_, out) = add_op(f, self.base_op, OpCode::IntMult, vn, c);
                proof {
                    lemma_extends_trans(&g, &h, &*f);
                    lemma_extends_trans(&f0, &g, &*f);
                }
                vn = out;
            }
            res = match res {
                None => Some(vn),
                Some(r) => {
                    let ghost g = *f;
                    let (_, out) = add_op(f, self.base_op, OpCode::IntAdd, vn, r);
                    proof {
                        lemma_extends_trans(&f0, &g, &*f);
                    }
                    Some(out)
                },
            };
            i += 1;
        }
        res
    }

    /// Build the rest of the sum: the terms that are not multiples of the size, other than
    /// constants, summed by INT_ADDs placed before the sum, plus a constant making up for what
    /// was counted twice. None when nothing is left; then nothing was added.
    fn build_extra(&mut self, f: &mut Funcdata) -> (r: Option<VarnodeId>)
        requires
            old(self).inv(old(f)),
        ensures
            extends(old(f), final(f)),
            final(self).inv(final(f)),
            final(self).same_frame(old(self)),
            final(self).multiple@ == old(self).multiple@,
            final(self).coeff@ == old(self).coeff@,
            final(self).nonmult@ == old(self).nonmult@,
            final(self).is_subtype == old(self).is_subtype,
            final(self).offset == old(self).offset,
            r matches Some(v) ==> v.0 < final(f).vns@.len(),
            r is None ==> *final(f) == *old(f),
            final(self).correct == final_correction(view_of(old(self)), old(f)),
            r is None <==> !has_extra(view_of(old(self)), old(f)),
    {
        let ghost f0 = *f;
        let ghost s0 = *self;
        proof {
            lemma_extends_refl(f);
        }
        let mut res: Option<VarnodeId> = None;
        let mut i: usize = 0;
        while i < self.nonmult.len()
            invariant
                self.inv(&f0),
                self.same_frame(&s0),
                self.multiple@ == s0.multiple@,
                self.coeff@ == s0.coeff@,
                self.nonmult@ == s0.nonmult@,
                self.is_subtype == s0.is_subtype,
                self.offset == s0.offset,
                extends(&f0, &*f),
                i <= self.nonmult@.len(),
                res matches Some(v) ==> v.0 < f.vns@.len(),
                res is None ==> *f == f0,
                self.correct == corrected(&f0, s0.nonmult@, s0.correct, i as int),
                res is None <==> nonconst_terms(&f0, s0.nonmult@, i as int) == 0,
            decreases self.nonmult@.len() - i,
        {
            let vn = self.nonmult[i];
            assert(vn.0 < f0.vns@.len());
            if f.vn(vn).is_constant() {
                self.correct = self.correct.wrapping_sub(f.vn(vn).constant_value());
            } else {
                res = match res {
                    None => Some(vn),
                    Some(r) => {
                        let ghost g = *f;
                        let (_, out) = add_op(f, self.base_op, OpCode::IntAdd, vn, r);
                        proof {
                            lemma_extends_trans(&f0, &g, &*f);
                        }
                        Some(out)
                    },
                };
            }
            i += 1;
        }
        self.correct = self.correct & self.ptrmask;
        if self.correct != 0 {
            let ghost g = *f;
            let c = add_const(f, self.ptrsize, uintb_negate(self.correct.wrapping_sub(1), self.ptrsize));
            let ghost h = *f;
            proof {
                lemma_extends_trans(&f0, &g, &h);
            }
            res = match res {
                None => Some(c),
                Some(r) => {
                    let (_, out) = add_op(f, self.base_op, OpCode::IntAdd, c, r);
                    proof {
                        lemma_extends_trans(&f0, &h, &*f);
                    }
                    Some(out)
                },
            };
        }
        proof {
            self.lemma_inv_extends(&f0, &*f);
        }
        res
    }

    /// The state stays valid as the function is extended.
    proof fn lemma_inv_extends(&self, a: &Funcdata, b: &Funcdata)
        requires
            self.inv(a),
            extends(a, b),
        ensures
            self.inv(b),
    {
        assert(b.ops@[self.base_op.0 as int] == a.ops@[self.base_op.0 as int]);
    }
}

/// The sum `op` (pointer in slot `s`) of `a` became, in `b`, a single PTRADD of the pointer,
/// the other addend and the constant 1, keeping its output.
pub open spec fn degenerate_done(a: &Funcdata, b: &Funcdata, op: OpId, s: int) -> bool {
    let o = a.ops@[op.0 as int];
    let n = b.ops@[op.0 as int];
    &&& n.opc == OpCode::Ptradd
    &&& n.inrefs@.len() == 3
    &&& n.inrefs@[0] == o.inrefs@[s]
    &&& n.inrefs@[1] == o.inrefs@[1 - s]
    &&& b.vns@[n.inrefs@[2].0 as int].constant
    &&& b.vns@[n.inrefs@[2].0 as int].loc.offset == 1
    &&& n.output == o.output
}

/// The sum `op` of `a` was removed in `b`, its output now written by a new PTRADD, PTRSUB or
/// INT_ADD.
pub open spec fn tree_done(a: &Funcdata, b: &Funcdata, op: OpId) -> bool {
    &&& b.ops@[op.0 as int].dead
    &&& exists|d: int|
        a.ops@.len() <= d < b.ops@.len() && (#[trigger] b.ops@[d]).output == a.ops@[op.0 as int].output && (b.ops@[d].opc
            == OpCode::Ptradd || b.ops@[d].opc == OpCode::Ptrsub || b.ops@[d].opc == OpCode::IntAdd)
}

/// `o` is an op new in `b` (relative to `a`), a PTRADD, PTRSUB or INT_ADD writing a new varnode.
pub open spec fn fresh_writer(a: &Funcdata, b: &Funcdata, o: OpId) -> bool {
    &&& a.ops@.len() <= o.0 < b.ops@.len()
    &&& (b.ops@[o.0 as int].opc == OpCode::Ptradd || b.ops@[o.0 as int].opc == OpCode::Ptrsub || b.ops@[o.0 as int].opc
        == OpCode::IntAdd)
    &&& b.ops@[o.0 as int].output matches Some(v) && a.vns@.len() <= v.0
}

/// What the walk over the sum reads of its state without changing it.
pub struct WalkCtx {
    pub ptr: VarnodeId,
    pub size: i64,
    pub ptrmask: u64,
    pub base_type: Datatype,
    pub prevent: bool,
}

/// What the walk over the sum sorts the terms into.
pub struct WalkState {
    pub multiple: Seq<VarnodeId>,
    pub coeff: Seq<i64>,
    pub nonmult: Seq<VarnodeId>,
    pub multsum: u64,
    pub nonmultsum: u64,
    pub biggest: u64,
    pub distribute_op: Option<OpId>,
    pub distribute_used: bool,
    pub valid: bool,
}

spec fn ctx_of(s: &AddTreeState) -> WalkCtx {
    WalkCtx { ptr: s.ptr, size: s.size, ptrmask: s.ptrmask, base_type: s.base_type, prevent: s.prevent_distribution }
}

spec fn walk_of(s: &AddTreeState) -> WalkState {
    WalkState {
        multiple: s.multiple@,
        coeff: s.coeff@,
        nonmult: s.nonmult@,
        multsum: s.multsum,
        nonmultsum: s.nonmultsum,
        biggest: s.biggest_non_mult_coeff,
        distribute_op: s.distribute_op,
        distribute_used: s.is_distribute_used,
        valid: s.valid,
    }
}

/// The sum's analysis: the walk's frame and sorted terms, the pointer's size, and the parts
/// the split of the constant part settles.
pub struct TreeView {
    pub ctx: WalkCtx,
    pub w: WalkState,
    pub ptrsize: u32,
    pub correct: u64,
    pub offset: u64,
    pub is_subtype: bool,
}

spec fn view_of(s: &AddTreeState) -> TreeView {
    TreeView { ctx: ctx_of(s), w: walk_of(s), ptrsize: s.ptrsize, correct: s.correct, offset: s.offset, is_subtype: s.is_subtype }
}

/// The walk's state before any term is sorted.
spec fn cleared_walk() -> WalkState {
    WalkState {
        multiple: Seq::empty(),
        coeff: Seq::empty(),
        nonmult: Seq::empty(),
        multsum: 0,
        nonmultsum: 0,
        biggest: 0,
        distribute_op: None,
        distribute_used: false,
        valid: true,
    }
}

/// The analysis of the sum `op` with the pointer in slot `s`, before the walk.
spec fn initial_view(f: &Funcdata, op: OpId, s: int) -> TreeView {
    let ptr = f.ops@[op.0 as int].inrefs@[s];
    let ct = f.vns@[ptr.0 as int].ty;
    let base_type = match ct {
        Datatype::Pointer(_, t) => *t,
        _ => Datatype::Unknown(1),
    };
    let ptrsize = f.vns@[ptr.0 as int].size;
    TreeView {
        ctx: WalkCtx { ptr, size: type_size(base_type) as i64, ptrmask: byte_mask(ptrsize as nat), base_type, prevent: false },
        w: cleared_walk(),
        ptrsize,
        correct: 0,
        offset: 0,
        is_subtype: false,
    }
}

/// A `vsize`-byte constant `val` is not a whole number of `size`-byte elements.
spec fn rem_nz(size: i64, val: u64, vsize: u32) -> bool {
    let sx = sign_extend_spec(val, vsize.wrapping_mul(8).wrapping_sub(1));
    if size == 0 { sx != 0 } else { trunc_rem(sx, size as int) != 0 }
}

/// The walk gives up.
spec fn walk_invalid(w: WalkState) -> WalkState {
    WalkState { valid: false, ..w }
}

/// A term that is not a multiple of the size, with coefficient `c`.
spec fn walk_raise(w: WalkState, c: u64) -> WalkState {
    WalkState { biggest: if c > w.biggest { c } else { w.biggest }, ..w }
}

/// The walk over one term `vn` of the sum scaled by `coeff`, at most `depth` sums deep (see
/// [`AddTreeState::check_term`]): the state after it, and whether the term is not a multiple
/// of the size.
spec fn term_walk(f: &Funcdata, c: WalkCtx, w: WalkState, vn: VarnodeId, coeff: u64, depth: u64) -> (WalkState, bool)
    decreases depth, 1nat,
{
    if vn == c.ptr {
        (w, false)
    } else {
        let x = f.vns@[vn.0 as int];
        if x.constant {
            let val = x.loc.offset.wrapping_mul(coeff);
            if rem_nz(c.size, val, x.size) {
                (WalkState {
                    distribute_used: if coeff != 1 && (c.base_type is Array || c.base_type is Struct) { true } else { w.distribute_used },
                    nonmultsum: w.nonmultsum.wrapping_add(val) & c.ptrmask,
                    ..w
                }, true)
            } else {
                (WalkState {
                    distribute_used: if coeff != 1 { true } else { w.distribute_used },
                    multsum: w.multsum.wrapping_add(val) & c.ptrmask,
                    ..w
                }, false)
            }
        } else {
            match x.def {
                Some(d) => {
                    let code = f.ops@[d.0 as int].opc;
                    if code == OpCode::IntAdd {
                        if depth == 0 {
                            (walk_invalid(w), false)
                        } else {
                            span_walk(f, c, w, d, coeff, (depth - 1) as u64)
                        }
                    } else if code == OpCode::Copy {
                        (walk_invalid(w), false)
                    } else if code == OpCode::IntMult {
                        mult_walk(f, c, w, vn, d, coeff, depth)
                    } else {
                        (walk_raise(w, coeff), true)
                    }
                },
                None => if !x.input {
                    (walk_invalid(w), false)
                } else {
                    (walk_raise(w, coeff), true)
                },
            }
        }
    }
}

/// The walk over a term `vn` written by the INT_MULT `op` (see
/// [`AddTreeState::check_mult_term`]).
spec fn mult_walk(f: &Funcdata, c: WalkCtx, w: WalkState, vn: VarnodeId, op: OpId, coeff: u64, depth: u64) -> (WalkState, bool)
    decreases depth, 0nat,
{
    let o = f.ops@[op.0 as int];
    if o.inrefs@.len() < 2 {
        (walk_invalid(w), false)
    } else {
        let vnterm = o.inrefs@[0];
        let t = f.vns@[vnterm.0 as int];
        let k = f.vns@[o.inrefs@[1].0 as int];
        if t.def is None && !t.input {
            (walk_invalid(w), false)
        } else if k.constant {
            let val = k.loc.offset.wrapping_mul(coeff) & c.ptrmask;
            let sval = sign_extend_spec(val, f.vns@[vn.0 as int].size.wrapping_mul(8).wrapping_sub(1));
            if rem_nz(c.size, val, f.vns@[vn.0 as int].size) {
                if c.size != 0 && val >= c.size as u64 {
                    (walk_invalid(w), false)
                } else if !c.prevent && (t.def matches Some(d) && f.ops@[d.0 as int].opc == OpCode::IntAdd) {
                    let w1 = if w.distribute_op is None { WalkState { distribute_op: Some(op), ..w } } else { w };
                    if depth == 0 {
                        (walk_invalid(w1), false)
                    } else {
                        span_walk(f, c, w1, t.def.unwrap(), val, (depth - 1) as u64)
                    }
                } else {
                    (walk_raise(w, (if sval < 0 { -sval } else { sval }) as u64), true)
                }
            } else {
                (WalkState {
                    distribute_used: if coeff != 1 { true } else { w.distribute_used },
                    multiple: w.multiple.push(vnterm),
                    coeff: w.coeff.push(sval as i64),
                    ..w
                }, false)
            }
        } else {
            (walk_raise(w, coeff), true)
        }
    }
}

/// The walk over the sum `op` scaled by `coeff` (see [`AddTreeState::span_add_tree`]): the
/// state after it, and whether no term under it is a multiple of the size.
spec fn span_walk(f: &Funcdata, c: WalkCtx, w: WalkState, op: OpId, coeff: u64, depth: u64) -> (WalkState, bool)
    decreases depth, 2nat,
{
    let o = f.ops@[op.0 as int];
    if o.inrefs@.len() < 2 {
        (walk_invalid(w), false)
    } else {
        let (w1, one) = term_walk(f, c, w, o.inrefs@[0], coeff, depth);
        if !w1.valid {
            (w1, false)
        } else {
            let (w2, two) = term_walk(f, c, w1, o.inrefs@[1], coeff, depth);
            if !w2.valid {
                (w2, false)
            } else if one && two {
                (w2, true)
            } else {
                let w3 = if one { WalkState { nonmult: w2.nonmult.push(o.inrefs@[0]), ..w2 } } else { w2 };
                let w4 = if two { WalkState { nonmult: w3.nonmult.push(o.inrefs@[1]), ..w3 } } else { w3 };
                (w4, false)
            }
        }
    }
}

/// The constant part of the sum, cut to the pointer's size.
spec fn const_part(v: TreeView) -> u64 {
    v.w.multsum.wrapping_add(v.w.nonmultsum) & v.ctx.ptrmask
}

/// The sign bit of a pointer-sized value.
spec fn ptr_sign_bit(v: TreeView) -> u32 {
    v.ptrsize.wrapping_mul(8).wrapping_sub(1)
}

/// The offset into one element the constant part leaves: the part itself when it is less than
/// an element (or the type is open-ended), else its signed remainder by the element size,
/// brought into range (a negative remainder stays the whole part for a structure when the
/// sum has other terms and no whole-element part).
spec fn element_offset(v: TreeView) -> u64 {
    let tmpoff = const_part(v);
    if v.ctx.size == 0 || tmpoff < v.ctx.size as u64 {
        tmpoff
    } else {
        let st = trunc_rem(sign_extend_spec(tmpoff, ptr_sign_bit(v)), v.ctx.size as int);
        if st >= 0 {
            st as u64
        } else if v.ctx.base_type is Struct && v.w.biggest != 0 && v.w.multsum == 0 {
            tmpoff
        } else {
            (st + v.ctx.size) as u64
        }
    }
}

/// How the constant part splits (see [`AddTreeState::calc_subtype`]): whether the split is
/// possible, whether the offset names a component, the offset and the correction.
spec fn subtype_outcome(v: TreeView, f: &Funcdata) -> (bool, bool, u64, u64) {
    let off0 = element_offset(v);
    let ms = const_part(v).wrapping_sub(off0) & v.ctx.ptrmask;
    let offb = sign_extend_spec(off0, ptr_sign_bit(v)) as i64;
    if v.w.nonmult.len() == 0 {
        (!(ms == 0 && v.w.multiple.len() == 0), false, off0, v.w.nonmultsum)
    } else if v.ctx.base_type is Spacebase || v.ctx.base_type is Struct {
        match matching_sub_type_spec(f.stack_syms@, v.ctx.base_type, offb, v.w.biggest) {
            Some(e) => (true, true, off0.wrapping_sub(e as u64) & v.ctx.ptrmask, v.w.nonmultsum.wrapping_sub(e as u64) & v.ctx.ptrmask),
            None => if v.ctx.base_type is Struct && !(offb < 0 || offb >= type_size(v.ctx.base_type) as i64) {
                (true, true, off0 & v.ctx.ptrmask, v.w.nonmultsum & v.ctx.ptrmask)
            } else {
                (false, false, 0, 0)
            },
        }
    } else if v.ctx.base_type is Array {
        (true, true, 0, v.w.nonmultsum.wrapping_sub(off0) & v.ctx.ptrmask)
    } else {
        (false, false, 0, 0)
    }
}

/// The whole number of elements in the constant part of the sum (its sign-extended value
/// divided by the element size), cut to the pointer's size; 0 for an open-ended type.
spec fn whole_elements(v: TreeView) -> u64 {
    if v.ctx.size == 0 {
        0
    } else {
        (trunc_div(sign_extend_spec(v.w.multsum, v.ptrsize.wrapping_mul(8).wrapping_sub(1)), v.ctx.size as int) as u64) & v.ctx.ptrmask
    }
}

/// The sum has an element index: whole elements in its constant part, or a recorded multiple.
spec fn has_index(v: TreeView) -> bool {
    whole_elements(v) != 0 || v.w.multiple.len() > 0
}

/// How many of the first `n` rest terms are not constants.
spec fn nonconst_terms(f: &Funcdata, terms: Seq<VarnodeId>, n: int) -> nat
    decreases n,
{
    if n <= 0 {
        0
    } else {
        nonconst_terms(f, terms, n - 1) + if f.vns@[terms[n - 1].0 as int].constant { 0nat } else { 1nat }
    }
}

/// The correction after taking the constant rest terms among the first `n` out of `c`.
spec fn corrected(f: &Funcdata, terms: Seq<VarnodeId>, c: u64, n: int) -> u64
    decreases n,
{
    if n <= 0 {
        c
    } else {
        let p = corrected(f, terms, c, n - 1);
        if f.vns@[terms[n - 1].0 as int].constant {
            p.wrapping_sub(f.vns@[terms[n - 1].0 as int].loc.offset)
        } else {
            p
        }
    }
}

/// The double-counted bytes left once the constant rest terms are taken out, cut to the
/// pointer's size.
spec fn final_correction(v: TreeView, f: &Funcdata) -> u64 {
    corrected(f, v.w.nonmult, v.correct, v.w.nonmult.len() as int) & v.ctx.ptrmask
}

/// The sum has a rest: a rest term that is not a constant, or a correction.
spec fn has_extra(v: TreeView, f: &Funcdata) -> bool {
    nonconst_terms(f, v.w.nonmult, v.w.nonmult.len() as int) > 0 || final_correction(v, f) != 0
}

/// The analysis once the constant part is split (see [`AddTreeState::calc_subtype`]).
spec fn split_view(v: TreeView, f: &Funcdata) -> TreeView {
    let out = subtype_outcome(v, f);
    TreeView {
        w: WalkState { multsum: const_part(v).wrapping_sub(element_offset(v)) & v.ctx.ptrmask, valid: v.w.valid && out.0, ..v.w },
        is_subtype: out.1,
        offset: out.2,
        correct: out.3,
        ..v
    }
}

/// Rewriting the sum `base` (pointed-to type not one byte) succeeds: the walk over the sum
/// stays valid (walking once more without distributing, when a scaled sub-sum was found but
/// not needed), the constant part splits, no sub-sum is left to distribute, and there is
/// something to build (see [`AddTreeState::apply`]).
spec fn tree_rewrite_ok(f: &Funcdata, v: TreeView, base: OpId) -> bool {
    let fuel = f.ops@.len() as u64;
    let w1 = span_walk(f, v.ctx, v.w, base, 1, fuel).0;
    if !w1.valid {
        false
    } else {
        let redo = w1.distribute_op is Some && !w1.distribute_used;
        let ctx2 = if redo { WalkCtx { prevent: true, ..v.ctx } } else { v.ctx };
        let w2 = if redo { span_walk(f, ctx2, cleared_walk(), base, 1, fuel).0 } else { w1 };
        let v3 = split_view(TreeView { ctx: ctx2, w: w2, ..v }, f);
        v3.w.valid && v3.w.distribute_op is None && (has_index(v3) || v3.is_subtype || has_extra(v3, f))
    }
}

/// Rewriting the qualifying sum `op` succeeds (see [`tree_rewrite_ok`]), starting from the
/// pointer in the slot [`ptr_add_slot`] picks.
pub closed spec fn sum_rewrite_ok(f: &Funcdata, op: OpId) -> bool {
    match ptr_add_slot(f, op) {
        Some(s) => tree_rewrite_ok(f, initial_view(f, op, s), op),
        None => false,
    }
}

/// Extending the function leaves what its rest terms count the same.
proof fn lemma_rest_terms_extend(a: &Funcdata, b: &Funcdata, terms: Seq<VarnodeId>, c: u64, n: int)
    requires
        extends(a, b),
        ids_ok(a, terms),
        n <= terms.len(),
    ensures
        nonconst_terms(a, terms, n) == nonconst_terms(b, terms, n),
        corrected(a, terms, c, n) == corrected(b, terms, c, n),
    decreases n,
{
    if n > 0 {
        lemma_rest_terms_extend(a, b, terms, c, n - 1);
        assert(b.vns@[terms[n - 1].0 as int] == a.vns@[terms[n - 1].0 as int]);
    }
}

impl AddTreeState {
    /// A pointer to a one-byte type: every offset is a whole number of elements, so the sum
    /// becomes `PTRADD(ptr, other, 1)`, provided its output is typed as a pointer.
    fn build_degenerate(&self, f: &mut Funcdata) -> (r: bool)
        requires
            self.inv(old(f)),
        ensures
            !r ==> *final(f) == *old(f),
            r ==> final(f).wf() && final(f).same_meta(old(f)) && degenerate_done(old(f), final(f), self.base_op, self.base_slot as int),
            r == (type_size(self.base_type) >= 1 && (old(f).ops@[self.base_op.0 as int].output matches Some(out) && old(f).vns@[out.0 as int].ty is Pointer)),
    {
        if (self.base_type.align_size() as i64) < 1 {
            return false;
        }
        proof {
            assert(op_wf(f.ops@[self.base_op.0 as int], f.vns@.len(), f.ops@.len(), f.blocks@.len()));
        }
        let out = f.op(self.base_op).output.unwrap();
        if !f.vn(out).get_type().is_pointer() {
            return false;
        }
        let other = f.op(self.base_op).inrefs[1 - self.base_slot];
        let one = f.new_const(self.ct.size(), 1);
        let ins = [self.ptr, other, one];
        f.op_set_all_input(self.base_op, &ins);
        f.op_set_opcode(self.base_op, OpCode::Ptradd);
        true
    }

    /// Rewrite the analysed sum: `PTRADD(ptr, index, size)` for the element index, then
    /// `PTRSUB(_, offset)` for a component offset, then an INT_ADD of what is left; the last new
    /// op takes over the sum's output and the sum is destroyed. Returns false, changing nothing,
    /// when there is nothing to build.
    fn build_tree(&mut self, f: &mut Funcdata) -> (r: bool)
        requires
            old(self).inv(old(f)),
        ensures
            !r ==> *final(f) == *old(f),
            r ==> final(f).wf() && final(f).same_meta(old(f)) && tree_done(old(f), final(f), old(self).base_op),
            r == (has_index(view_of(old(self))) || old(self).is_subtype || has_extra(view_of(old(self)), old(f))),
    {
        let ghost f0 = *f;
        let ghost s0 = *self;
        proof {
            assert(op_wf(f.ops@[self.base_op.0 as int], f.vns@.len(), f.ops@.len(), f.blocks@.len()));
        }
        let base_out = f.op(self.base_op).output.unwrap();
        proof {
            assert(vn_wf(f.vns@[base_out.0 as int], f.ops@.len()));
        }
        let mult_node = self.build_multiples(f);
        let ghost f1 = *f;
        proof {
            self.lemma_inv_extends(&f0, &f1);
        }
        proof {
            lemma_rest_terms_extend(&f0, &f1, s0.nonmult@, s0.correct, s0.nonmult@.len() as int);
        }
        let extra_node = self.build_extra(f);
        let ghost f2 = *f;
        proof {
            lemma_extends_trans(&f0, &f1, &f2);
        }
        if mult_node.is_none() && !self.is_subtype && extra_node.is_none() {
            return false;
        }
        let mut node = self.ptr;
        let mut newop: Option<OpId> = None;
        let ghost mut fx = *f;
        if let Some(mn) = mult_node {
            let sz = add_const(f, self.ptrsize, self.size as u64);
            let ghost g = *f;
            let mut ins: Vec<VarnodeId> = Vec::new();
            ins.push(self.ptr);
            ins.push(mn);
            ins.push(sz);
            let (o, out) = add_op_vec(f, self.base_op, OpCode::Ptradd, ins);
            proof {
                lemma_extends_trans(&f2, &g, &*f);
            }
            newop = Some(o);
            node = out;
        }
        proof {
            lemma_extends_refl(f);
        }
        let ghost f3 = *f;
        assert(extends(&f2, &f3));
        if self.is_subtype {
            let off = add_const(f, self.ptrsize, self.offset);
            let ghost g = *f;
            let (o, out) = add_op(f, self.base_op, OpCode::Ptrsub, node, off);
            proof {
                lemma_extends_trans(&f3, &g, &*f);
            }
            newop = Some(o);
            node = out;
        }
        let ghost f4 = *f;
        assert(extends(&f3, &f4)) by {
            if !self.is_subtype {
                lemma_extends_refl(f);
            }
        }
        if let Some(en) = extra_node {
            let (o, _) = add_op(f, self.base_op, OpCode::IntAdd, node, en);
            newop = Some(o);
        }
        let ghost f5 = *f;
        assert(extends(&f4, &f5)) by {
            if extra_node.is_none() {
                lemma_extends_refl(f);
            }
        }
        proof {
            lemma_extends_trans(&f2, &f3, &f4);
            lemma_extends_trans(&f2, &f4, &f5);
            lemma_extends_trans(&f0, &f2, &f5);
        }
        let nop = newop.unwrap();
        proof {
            assert(fresh_writer(&f0, &f5, nop)) by {
                if extra_node.is_some() {
                } else if self.is_subtype {
                    assert(f5.ops@[nop.0 as int] == f4.ops@[nop.0 as int]);
                } else {
                    assert(f5.ops@[nop.0 as int] == f3.ops@[nop.0 as int]);
                }
            }
            assert(f5.ops@[self.base_op.0 as int] == f0.ops@[self.base_op.0 as int]);
            assert(f5.vns@[base_out.0 as int] == f0.vns@[base_out.0 as int]);
        }
        let ghost f6 = *f;
        f.op_set_output(nop, base_out);
        let ghost f7 = *f;
        proof {
            assert(f7.ops@[nop.0 as int].output == Some(base_out));
            assert(f7.ops@[nop.0 as int].opc == f6.ops@[nop.0 as int].opc);
        }
        f.op_destroy(self.base_op);
        proof {
            assert(f.ops@[nop.0 as int] == f7.ops@[nop.0 as int]);
            assert(f.ops@[nop.0 as int].output == f0.ops@[self.base_op.0 as int].output);
        }
        true
    }
}

impl AddTreeState {
    /// Analyse the sum and rewrite it: a one-byte pointed-to type takes the single-PTRADD form;
    /// otherwise the terms are sorted (once more without following scaled sub-sums, when such a
    /// sub-sum was found but not needed), the constant part is split, and the sum is rebuilt.
    /// Declined, changing nothing, when the walk is invalid or a scaled sub-sum would have to be
    /// distributed.
    fn apply(&mut self, f: &mut Funcdata) -> (r: bool)
        requires
            old(self).inv(old(f)),
        ensures
            !r ==> *final(f) == *old(f),
            r ==> final(f).wf() && final(f).same_meta(old(f)),
            r && old(self).is_degenerate ==> degenerate_done(old(f), final(f), old(self).base_op, old(self).base_slot as int),
            r && !old(self).is_degenerate ==> tree_done(old(f), final(f), old(self).base_op),
            old(self).is_degenerate ==> r == (type_size(old(self).base_type) >= 1 && (old(f).ops@[old(self).base_op.0 as int].output matches Some(out)
                && old(f).vns@[out.0 as int].ty is Pointer)),
            !old(self).is_degenerate ==> r == tree_rewrite_ok(old(f), view_of(old(self)), old(self).base_op),
    {
        if self.is_degenerate {
            return self.build_degenerate(f);
        }
        let fuel = f.num_ops() as u64;
        let base = self.base_op;
        self.span_add_tree(f, base, 1, fuel);
        if !self.valid {
            return false;
        }
        if self.distribute_op.is_some() && !self.is_distribute_used {
            self.clear();
            self.prevent_distribution = true;
            self.span_add_tree(f, base, 1, fuel);
        }
        self.calc_subtype(f);
        if !self.valid {
            return false;
        }
        if self.distribute_op.is_some() {
            return false;
        }
        self.build_tree(f)
    }
}

/// The size of the type the pointer in slot `s` of `op` points to (1 for a pointer to an
/// unknown type).
pub open spec fn pointee_size(f: &Funcdata, op: OpId, s: int) -> int {
    let ptr = f.ops@[op.0 as int].inrefs@[s];
    match f.vns@[ptr.0 as int].ty {
        Datatype::Pointer(_, t) => type_size(*t) as int,
        _ => type_size(Datatype::Unknown(1)) as int,
    }
}

/// The sum `op` of `a` was rewritten in `b` as pointer arithmetic (see [`degenerate_done`] and
/// [`tree_done`]).
pub open spec fn ptr_arith_done(a: &Funcdata, b: &Funcdata, op: OpId, s: int) -> bool {
    degenerate_done(a, b, op, s) || tree_done(a, b, op)
}

/// Turn integer arithmetic on a pointer into pointer arithmetic: an INT_ADD rooted on a pointer
/// is rewritten into `PTRADD(base, index, elemsize)` for the element index and
/// `PTRSUB(base, offset)` for a component offset, plus an INT_ADD of whatever is left.
pub struct RulePtrArith;

impl RulePtrArith {
    pub fn name(&self) -> (r: &'static str)
        ensures
            r@ == "ptrarith"@,
    {
        "ptrarith"
    }

    /// The operations the rule applies to.
    pub fn oplist(&self) -> (r: Vec<OpCode>)
        ensures
            r@ == seq![OpCode::IntAdd],
    {
        let mut v = Vec::new();
        v.push(OpCode::IntAdd);
        v
    }

    /// Apply the rule to the INT_ADD `op`. It is considered only when it qualifies (see
    /// [`ptr_add_slot`]), is ready for conversion (see [`pointer_expr_spec`]) and holds the
    /// preferred base pointer (see [`preferred_pointer_spec`]); then the sum is analysed and, if
    /// the analysis accepts it, rewritten (returns 1). Otherwise returns 0 and nothing changes.
    pub fn apply_op(&mut self, op: OpId, data: &mut Funcdata) -> (r: u32)
        requires
            old(data).wf(),
            op.0 < old(data).ops@.len(),
        ensures
            final(data).wf(),
            final(data).same_meta(old(data)),
            r == 0 || r == 1,
            r == 1 ==> (ptr_add_slot(old(data), op) matches Some(s) && pointer_expr_spec(old(data), op, s) == 2
                && preferred_pointer_spec(old(data), op, s) && ptr_arith_done(old(data), final(data), op, s)),
            r == 0 ==> *final(data) == *old(data),
            (ptr_add_slot(old(data), op) matches Some(s) && pointer_expr_spec(old(data), op, s) == 2 && preferred_pointer_spec(old(data), op, s)
                && pointee_size(old(data), op, s) == 1) ==> (r == 1 <==> (old(data).ops@[op.0 as int].output matches Some(out)
                && old(data).vns@[out.0 as int].ty is Pointer)),
            (ptr_add_slot(old(data), op) matches Some(s) && pointer_expr_spec(old(data), op, s) == 2 && preferred_pointer_spec(old(data), op, s)
                && pointee_size(old(data), op, s) != 1) ==> (r == 1 <==> sum_rewrite_ok(old(data), op)),
    {
        let slot = match qualifying_slot(data, op) {
            Some(s) => s,
            None => return 0,
        };
        if evaluate_pointer_expression(data, op, slot) != 2 {
            return 0;
        }
        if !verify_preferred_pointer(data, op, slot) {
            return 0;
        }
        let mut state = AddTreeState::new(data, op, slot);
        if state.apply(data) {
            return 1;
        }
        if state.init_alternate_form() && state.apply(data) {
            return 1;
        }
        0
    }
}

} // verus!
