//! Pointer arithmetic: a chain of INT_ADDs rooted on a pointer-typed value is rewritten into
//! `PTRADD(base, index, elemsize)` / `PTRSUB(base, offset)`, so the pointer is read as
//! indexing (`base[i]`) and component access (`base->field`); and the reverse rewrites, for a
//! PTRSUB or PTRADD whose types turned out not to fit.

use vstd::prelude::*;
use vstd::arithmetic::power2::*;

use crate::funcdata::{
    descend_spec, lone_descend_spec, op_wf, ptradd_undone, same_but_inputs, vn_wf, Funcdata, OpId, StackSymbol, VarnodeId,
};
use crate::opcode::OpCode;
use crate::space::{byte_mask, calc_mask, SpaceKind};
use crate::types::{copy_type, subtype_spec, type_size, type_wf, Datatype};

pub use crate::addtree::{RulePtrArith, RulePushPtr};

verus! {

/// `val` read as a two's-complement number whose sign is bit `bit` (bit 63 and above: the
/// whole 64-bit value).
pub open spec fn sign_extend_spec(val: u64, bit: u32) -> int {
    let w: nat = if bit >= 63 { 64 } else { (bit + 1) as nat };
    let low = val as int % pow2(w) as int;
    if low >= pow2((w - 1) as nat) as int {
        low - pow2(w) as int
    } else {
        low
    }
}

/// `val` sign-extended from bit `bit`.
pub fn sign_extend(val: u64, bit: u32) -> (r: i64)
    ensures
        r == sign_extend_spec(val, bit),
{
    proof {
        lemma2_to64();
        lemma2_to64_rest();
    }
    if bit >= 63 {
        let r = #[verifier::truncate] (val as i64);
        proof {
            assert(pow2(64) == 0x1_0000_0000_0000_0000);
            assert(pow2(63) == 0x8000_0000_0000_0000);
            assert(val as int % pow2(64) as int == val as int);
            assert(r == if val >= 0x8000_0000_0000_0000 { val as int - 0x1_0000_0000_0000_0000 } else { val as int }) by (bit_vector)
                requires
                    r == val as i64,
            ;
        }
        return r;
    }
    let w: u64 = (bit + 1) as u64;
    proof {
        vstd::bits::lemma_u64_pow2_no_overflow(w as nat);
        vstd::bits::lemma_u64_shl_is_mul(1, w);
        lemma_pow2_pos((w - 1) as nat);
        lemma_pow2_unfold(w as nat);
    }
    let m: u64 = 1u64 << w;
    let low: u64 = val % m;
    let half: u64 = m / 2;
    proof {
        assert(m == pow2(w as nat));
        assert(half == pow2((w - 1) as nat));
        assert(pow2(w as nat) <= pow2(63)) by {
            if w < 63 {
                lemma_pow2_strictly_increases(w as nat, 63);
            }
        }
    }
    if low >= half {
        (low as i128 - m as i128) as i64
    } else {
        low as i64
    }
}

/// The bitwise complement of `val`, cut to its low `size` bytes.
pub fn uintb_negate(val: u64, size: u32) -> (r: u64)
    ensures
        r == !val & byte_mask(size as nat),
{
    !val & calc_mask(size)
}

/// Complementing twice within a mask gives back the masked value.
pub proof fn law_uintb_negate_involution(val: u64, size: u32)
    ensures
        !(!val & byte_mask(size as nat)) & byte_mask(size as nat) == val & byte_mask(size as nat),
{
    let m = byte_mask(size as nat);
    assert(!(!val & m) & m == val & m) by (bit_vector);
}

/// A constant of `size` bytes read as a signed number (8 bytes or more, and the degenerate
/// size 0: the whole 64-bit value).
pub open spec fn sext_const_spec(v: u64, size: u32) -> int {
    if size >= 8 || size == 0 {
        sign_extend_spec(v, 63)
    } else {
        sign_extend_spec(v, (8 * size - 1) as u32)
    }
}

/// A constant of `size` bytes read as signed: a stack-frame offset such as `0xffffffe6` (4
/// bytes) is -26.
pub fn sext_const(v: u64, size: u32) -> (r: i64)
    ensures
        r == sext_const_spec(v, size),
{
    if size >= 8 || size == 0 {
        sign_extend(v, 63)
    } else {
        sign_extend(v, 8 * size - 1)
    }
}

/// The data-type a varnode is read as.
fn type_read_facing(f: &Funcdata, v: VarnodeId) -> (r: &Datatype)
    requires
        v.0 < f.vns@.len(),
    ensures
        *r == f.vns@[v.0 as int].ty,
{
    f.vn(v).get_type()
}

/// The first input slot of `op` holding `vn`, or 0.
pub open spec fn slot_spec(f: &Funcdata, op: OpId, vn: VarnodeId) -> int {
    let ins = f.ops@[op.0 as int].inrefs@;
    if exists|k: int| 0 <= k < ins.len() && ins[k] == vn {
        choose|k: int| 0 <= k < ins.len() && ins[k] == vn && forall|j: int| 0 <= j < k ==> ins[j] != vn
    } else {
        0
    }
}

/// The first input slot of `op` holding `vn`, or 0.
pub(crate) fn get_slot(f: &Funcdata, op: OpId, vn: VarnodeId) -> (r: usize)
    requires
        op.0 < f.ops@.len(),
    ensures
        r == slot_spec(f, op, vn),
        f.ops@[op.0 as int].inrefs@.contains(vn) ==> r < f.ops@[op.0 as int].inrefs@.len() && f.ops@[op.0 as int].inrefs@[r as int] == vn,
{
    let ins = &f.op(op).inrefs;
    let mut k: usize = 0;
    while k < ins.len()
        invariant
            k <= ins@.len(),
            ins@ == f.ops@[op.0 as int].inrefs@,
            forall|j: int| 0 <= j < k ==> ins@[j] != vn,
        decreases ins@.len() - k,
    {
        if ins[k] == vn {
            proof {
                let c = choose|c: int| 0 <= c < ins@.len() && ins@[c] == vn && forall|j: int| 0 <= j < c ==> ins@[j] != vn;
                assert(c == k) by {
                    if c < k {
                        assert(ins@[c] != vn);
                    } else if c > k {
                        assert(ins@[k as int] != vn);
                    }
                }
            }
            return k;
        }
        k += 1;
    }
    0
}

} // verus!

verus! {

/// Frame variable `s` covers frame offset `off`.
pub open spec fn sym_covers(s: StackSymbol, off: i64) -> bool {
    s.start <= off && (off as int) < s.start as int + s.size as int
}

/// Index of the first frame variable covering `off`, if any.
pub open spec fn sym_covering(syms: Seq<StackSymbol>, off: i64) -> Option<int> {
    if exists|k: int| 0 <= k < syms.len() && sym_covers(#[trigger] syms[k], off) {
        Some(
            choose|k: int|
                0 <= k < syms.len() && sym_covers(#[trigger] syms[k], off) && forall|j: int|
                    0 <= j < k ==> !sym_covers(syms[j], off),
        )
    } else {
        None
    }
}

/// A covering frame variable has a first covering one at or before it.
proof fn lemma_min_cover(syms: Seq<StackSymbol>, off: i64, k: int)
    requires
        0 <= k < syms.len(),
        sym_covers(syms[k], off),
    ensures
        exists|m: int| 0 <= m <= k && sym_covers(#[trigger] syms[m], off) && forall|j: int| 0 <= j < m ==> !sym_covers(syms[j], off),
    decreases k,
{
    if exists|j: int| 0 <= j < k && sym_covers(#[trigger] syms[j], off) {
        let j = choose|j: int| 0 <= j < k && sym_covers(#[trigger] syms[j], off);
        lemma_min_cover(syms, off, j);
    } else {
        assert(forall|j: int| 0 <= j < k ==> !sym_covers(syms[j], off));
    }
}

/// What [`sym_covering`] answers.
proof fn lemma_sym_covering(syms: Seq<StackSymbol>, off: i64)
    ensures
        match sym_covering(syms, off) {
            Some(k) => 0 <= k < syms.len() && sym_covers(syms[k], off) && forall|j: int| 0 <= j < k ==> !sym_covers(syms[j], off),
            None => forall|j: int| 0 <= j < syms.len() ==> !sym_covers(syms[j], off),
        },
{
    if exists|k: int| 0 <= k < syms.len() && sym_covers(#[trigger] syms[k], off) {
        let k = choose|k: int| 0 <= k < syms.len() && sym_covers(#[trigger] syms[k], off);
        lemma_min_cover(syms, off, k);
    }
}

/// A frame variable starting at `off` has a first one at or before it.
proof fn lemma_min_start(syms: Seq<StackSymbol>, off: i64, k: int)
    requires
        0 <= k < syms.len(),
        syms[k].start == off,
    ensures
        exists|m: int| 0 <= m <= k && (#[trigger] syms[m]).start == off && forall|j: int| 0 <= j < m ==> syms[j].start != off,
    decreases k,
{
    if exists|j: int| 0 <= j < k && (#[trigger] syms[j]).start == off {
        let j = choose|j: int| 0 <= j < k && (#[trigger] syms[j]).start == off;
        lemma_min_start(syms, off, j);
    }
}

/// What [`sym_starting`] answers.
proof fn lemma_sym_starting(syms: Seq<StackSymbol>, off: i64)
    ensures
        match sym_starting(syms, off) {
            Some(k) => 0 <= k < syms.len() && syms[k].start == off && forall|j: int| 0 <= j < k ==> syms[j].start != off,
            None => forall|j: int| 0 <= j < syms.len() ==> syms[j].start != off,
        },
{
    if exists|k: int| 0 <= k < syms.len() && (#[trigger] syms[k]).start == off {
        let k = choose|k: int| 0 <= k < syms.len() && (#[trigger] syms[k]).start == off;
        lemma_min_start(syms, off, k);
    }
}

/// The frame variable holding frame offset `off`, and the offset into it.
pub open spec fn sb_subtype_spec(syms: Seq<StackSymbol>, off: i64) -> Option<(Datatype, i64)> {
    match sym_covering(syms, off) {
        Some(k) => Some((syms[k].ty, (off - syms[k].start) as i64)),
        None => None,
    }
}

/// The frame variable holding frame offset `off`, and the offset into it.
pub(crate) fn sb_get_subtype(syms: &Vec<StackSymbol>, off: i64) -> (r: Option<(&Datatype, i64)>)
    ensures
        match sb_subtype_spec(syms@, off) {
            Some((t, n)) => r matches Some((rt, rn)) && *rt == t && rn == n,
            None => r is None,
        },
{
    let mut k: usize = 0;
    while k < syms.len()
        invariant
            k <= syms@.len(),
            forall|j: int| 0 <= j < k ==> !sym_covers(#[trigger] syms@[j], off),
        decreases syms@.len() - k,
    {
        let s = &syms[k];
        if s.start <= off && (off as i128) < s.start as i128 + s.size as i128 {
            proof {
                assert(sym_covers(syms@[k as int], off));
                let c = choose|c: int|
                    0 <= c < syms@.len() && sym_covers(#[trigger] syms@[c], off) && forall|j: int|
                        0 <= j < c ==> !sym_covers(syms@[j], off);
                assert(c == k) by {
                    if c < k {
                        assert(!sym_covers(syms@[c], off));
                    } else if c > k {
                        assert(!sym_covers(syms@[k as int], off));
                    }
                }
            }
            return Some((&s.ty, off - s.start));
        }
        k += 1;
    }
    None
}

/// When the frame variable at `off` is an array: its element size, the offset into it and
/// its size.
pub open spec fn sb_backward_spec(syms: Seq<StackSymbol>, off: i64) -> Option<(u64, i64, i64)> {
    match sb_subtype_spec(syms, off) {
        Some((t, n)) => match t {
            Datatype::Array(e, c) => Some((type_size(*e) as u64, n, type_size(t) as i64)),
            _ => None,
        },
        None => None,
    }
}

/// The array frame variable the offset lands inside: element size, offset into it, size.
pub(crate) fn sb_nearest_backward(syms: &Vec<StackSymbol>, off: i64) -> (r: Option<(u64, i64, i64)>)
    requires
        forall|i: int| 0 <= i < syms@.len() ==> type_wf((#[trigger] syms@[i]).ty),
    ensures
        r == sb_backward_spec(syms@, off),
{
    let (ty, newoff) = match sb_get_subtype(syms, off) {
        Some(x) => x,
        None => return None,
    };
    proof {
        lemma_sym_covering(syms@, off);
        let k = sym_covering(syms@, off).unwrap();
        assert(type_wf(syms@[k].ty));
    }
    match ty {
        Datatype::Array(elem, _) => Some((elem.align_size() as u64, newoff, ty.size() as i64)),
        _ => None,
    }
}

/// Index of the first frame variable starting exactly at `off`, if any.
pub open spec fn sym_starting(syms: Seq<StackSymbol>, off: i64) -> Option<int> {
    if exists|k: int| 0 <= k < syms.len() && (#[trigger] syms[k]).start == off {
        Some(
            choose|k: int|
                0 <= k < syms.len() && (#[trigger] syms[k]).start == off && forall|j: int| 0 <= j < k ==> syms[j].start != off,
        )
    } else {
        None
    }
}

/// The first frame variable starting exactly at `off`.
fn sym_at(syms: &Vec<StackSymbol>, off: i64) -> (r: Option<usize>)
    ensures
        match r {
            Some(k) => sym_starting(syms@, off) == Some(k as int) && k < syms@.len(),
            None => sym_starting(syms@, off) is None,
        },
{
    let mut k: usize = 0;
    while k < syms.len()
        invariant
            k <= syms@.len(),
            forall|j: int| 0 <= j < k ==> (#[trigger] syms@[j]).start != off,
        decreases syms@.len() - k,
    {
        if syms[k].start == off {
            proof {
                let c = choose|c: int|
                    0 <= c < syms@.len() && (#[trigger] syms@[c]).start == off && forall|j: int| 0 <= j < c ==> syms@[j].start != off;
                assert(c == k) by {
                    if c < k {
                        assert(syms@[c].start != off);
                    } else if c > k {
                        assert(syms@[k as int].start != off);
                    }
                }
            }
            return Some(k);
        }
        k += 1;
    }
    None
}

/// The boundary past `off`: the end of the frame variable starting at `off`, else `off + 32`
/// (both wrapping at 64 bits).
pub open spec fn forward_boundary(syms: Seq<StackSymbol>, off: i64) -> i64 {
    match sym_starting(syms, off) {
        Some(k) => vstd::wrapping::i64_specs::wrapping_add(syms[k].start, syms[k].size as i64),
        None => vstd::wrapping::i64_specs::wrapping_add(off, 32),
    }
}

/// When the frame variable starting at the boundary past `off` is an array: its element size
/// and `off` minus its start.
pub open spec fn sb_forward_spec(syms: Seq<StackSymbol>, off: i64) -> Option<(u64, i64)> {
    let next = forward_boundary(syms, off);
    if next < off {
        None
    } else {
        match sym_starting(syms, next) {
            Some(k) => match syms[k].ty {
                Datatype::Array(e, _) => Some((type_size(*e) as u64, vstd::wrapping::i64_specs::wrapping_sub(off, next))),
                _ => None,
            },
            None => None,
        }
    }
}

/// The array frame variable starting just past `off`: element size, `off` minus its start.
pub(crate) fn sb_nearest_forward(syms: &Vec<StackSymbol>, off: i64) -> (r: Option<(u64, i64)>)
    requires
        forall|i: int| 0 <= i < syms@.len() ==> type_wf((#[trigger] syms@[i]).ty),
    ensures
        r == sb_forward_spec(syms@, off),
{
    proof {
        lemma_sym_starting(syms@, off);
    }
    let next_addr = match sym_at(syms, off) {
        Some(k) => {
            let a = syms[k].start;
            let b = syms[k].size as i64;
            a.wrapping_add(b)
        },
        None => off.wrapping_add(32),
    };
    assert(next_addr == forward_boundary(syms@, off));
    if next_addr < off {
        return None;
    }
    let k = match sym_at(syms, next_addr) {
        Some(k) => k,
        None => return None,
    };
    proof {
        lemma_sym_starting(syms@, next_addr);
        assert(type_wf(syms@[k as int].ty));
    }
    match &syms[k].ty {
        Datatype::Array(elem, _) => Some((elem.align_size() as u64, off.wrapping_sub(next_addr))),
        _ => None,
    }
}

/// An offset `off` outside a component is still acceptable when the component is an array,
/// or, for a frame variable, when an array frame variable lies near enough in the direction
/// of the offset.
pub open spec fn array_slack_spec(syms: Seq<StackSymbol>, dt: Datatype, off: i64, spacebase: bool) -> bool {
    if dt is Array {
        true
    } else if !spacebase {
        false
    } else if off < 0 {
        sb_forward_spec(syms, off) is Some
    } else {
        sb_backward_spec(syms, off) is Some
    }
}

fn test_for_array_slack(syms: &Vec<StackSymbol>, dt: &Datatype, off: i64, spacebase: bool) -> (r: bool)
    requires
        forall|i: int| 0 <= i < syms@.len() ==> type_wf((#[trigger] syms@[i]).ty),
    ensures
        r == array_slack_spec(syms@, *dt, off, spacebase),
{
    if matches!(dt, Datatype::Array(..)) {
        return true;
    }
    if !spacebase {
        return false;
    }
    if off < 0 {
        sb_nearest_forward(syms, off).is_some()
    } else {
        sb_nearest_backward(syms, off).is_some()
    }
}

/// Is `dt` a fit base for a PTRSUB at offset `off`, with `extra` more constant offset and an
/// index scaled by `multiplier` below it? Only a pointer to structured data is: for a frame
/// (spacebase) the offset must start a frame variable (an offset no variable covers counts as
/// a 1-byte unknown one) and `extra` stay inside it unless array slack allows; for an array
/// the offset must be 0 and the multiplier below the array's size; for a structure the
/// multiplier must be below its size and, with no component known, `extra` inside it.
pub open spec fn ptrsub_matching_spec(syms: Seq<StackSymbol>, dt: Datatype, off: i64, extra: i64, multiplier: i64) -> bool {
    match dt {
        Datatype::Pointer(_, ptrto) => match *ptrto {
            Datatype::Spacebase(_) => {
                let (sub_type, newoff) = match sb_subtype_spec(syms, off) {
                    Some(x) => x,
                    None => (Datatype::Unknown(1), 0i64),
                };
                newoff == 0 && ((0 <= extra && extra < type_size(sub_type)) || array_slack_spec(syms, sub_type, extra, true))
            },
            Datatype::Array(_, _) => off == 0 && multiplier < type_size(*ptrto),
            Datatype::Struct(_) => {
                let typesize = type_size(*ptrto);
                multiplier < typesize && match subtype_spec(*ptrto, off) {
                    Some((sub_type, newoff)) => newoff == 0 && ((0 <= extra && extra < type_size(sub_type))
                        || array_slack_spec(Seq::empty(), sub_type, extra, false)),
                    None => !((extra < 0 || extra >= typesize) && typesize != 0),
                }
            },
            _ => false,
        },
        _ => false,
    }
}

fn is_ptrsub_matching(f: &Funcdata, dt: &Datatype, off: i64, extra: i64, multiplier: i64) -> (r: bool)
    requires
        f.wf(),
        type_wf(*dt),
    ensures
        r == ptrsub_matching_spec(f.stack_syms@, *dt, off, extra, multiplier),
{
    let ptrto = match dt {
        Datatype::Pointer(_, p) => &**p,
        _ => return false,
    };
    match ptrto {
        Datatype::Spacebase(_) => {
            let syms = &f.stack_syms;
            let unknown1 = Datatype::Unknown(1);
            let (sub_type, newoff): (&Datatype, i64) = match sb_get_subtype(syms, off) {
                Some(x) => x,
                None => (&unknown1, 0),
            };
            proof {
                lemma_sym_covering(syms@, off);
                match sym_covering(syms@, off) {
                    Some(k) => {
                        assert(type_wf(syms@[k].ty));
                    },
                    None => {},
                }
            }
            if newoff != 0 {
                return false;
            }
            if extra < 0 || extra >= sub_type.size() as i64 {
                if !test_for_array_slack(syms, sub_type, extra, true) {
                    return false;
                }
            }
            true
        },
        Datatype::Array(..) => {
            if off != 0 {
                return false;
            }
            multiplier < ptrto.align_size() as i64
        },
        Datatype::Struct(..) => {
            let typesize = ptrto.size() as i64;
            if multiplier >= ptrto.align_size() as i64 {
                return false;
            }
            match ptrto.get_subtype(off) {
                Some((sub_type, newoff)) => {
                    if newoff != 0 {
                        return false;
                    }
                    if extra < 0 || extra >= sub_type.size() as i64 {
                        let empty: Vec<StackSymbol> = Vec::new();
                        return test_for_array_slack(&empty, sub_type, extra, false);
                    }
                    true
                },
                None => !((extra < 0 || extra >= typesize) && typesize != 0),
            }
        },
        _ => false,
    }
}

} // verus!

verus! {

/// How deep the additive expression below a PTRSUB is followed.
pub const PTRSUB_UNDO_DEPTH_LIMIT: i32 = 8;

/// The constant total reaching `vn` through an additive expression (INT_ADDs of constants),
/// and the largest index multiplier met on the way (an INT_MULT by a constant, scaled by any
/// multiplier below it), following at most `max_level` ops. Sums and products wrap at 64 bits.
pub open spec fn const_offset_back_spec(f: &Funcdata, vn: VarnodeId, max_level: i32) -> (i64, i64)
    decreases max_level,
{
    let v = f.vns@[vn.0 as int];
    if v.constant {
        (v.loc.offset as i64, 0)
    } else if v.def is None || max_level - 1 < 0 {
        (0, 0)
    } else {
        let o = f.ops@[v.def.unwrap().0 as int];
        let ml = (max_level - 1) as i32;
        match o.opc {
            OpCode::IntAdd => {
                let (v0, m0) = if o.inrefs@.len() > 0 { const_offset_back_spec(f, o.inrefs@[0], ml) } else { (0i64, 0i64) };
                let (v1, m1) = if o.inrefs@.len() > 1 { const_offset_back_spec(f, o.inrefs@[1], ml) } else { (0i64, 0i64) };
                let mult0: i64 = if m0 > 0 { m0 } else { 0 };
                let mult1: i64 = if m1 > mult0 { m1 } else { mult0 };
                (vstd::wrapping::i64_specs::wrapping_add(v0, v1), mult1)
            },
            OpCode::IntMult => {
                if o.inrefs@.len() < 2 || !f.vns@[o.inrefs@[1].0 as int].constant {
                    (0, 0)
                } else {
                    let m = f.vns@[o.inrefs@[1].0 as int].loc.offset as i64;
                    let sub = const_offset_back_spec(f, o.inrefs@[0], ml).1;
                    (0, if sub > 0 { vstd::wrapping::i64_specs::wrapping_mul(m, sub) } else { m })
                }
            },
            _ => (0, 0),
        }
    }
}

/// See [`const_offset_back_spec`].
fn get_const_offset_back(f: &Funcdata, vn: VarnodeId, max_level: i32) -> (r: (i64, i64))
    requires
        f.wf(),
        vn.0 < f.vns@.len(),
    ensures
        r == const_offset_back_spec(f, vn, max_level),
    decreases max_level,
{
    if f.vn(vn).is_constant() {
        return (#[verifier::truncate] (f.vn(vn).constant_value() as i64), 0);
    }
    let op = match f.vn(vn).def {
        Some(op) => op,
        None => return (0, 0),
    };
    if max_level < 1 {
        return (0, 0);
    }
    proof {
        assert(vn_wf(f.vns@[vn.0 as int], f.ops@.len()));
        assert(op_wf(f.ops@[op.0 as int], f.vns@.len(), f.ops@.len(), f.blocks@.len()));
    }
    let ml = max_level - 1;
    let o = f.op(op);
    match o.code() {
        OpCode::IntAdd => {
            let mut retval: i64 = 0;
            let mut multiplier: i64 = 0;
            if o.num_inputs() > 0 {
                let (v0, m0) = get_const_offset_back(f, o.inrefs[0], ml);
                retval = v0;
                if m0 > multiplier {
                    multiplier = m0;
                }
            }
            if o.num_inputs() > 1 {
                let (v1, m1) = get_const_offset_back(f, o.inrefs[1], ml);
                retval = retval.wrapping_add(v1);
                if m1 > multiplier {
                    multiplier = m1;
                }
            } else {
                retval = retval.wrapping_add(0);
            }
            (retval, multiplier)
        },
        OpCode::IntMult => {
            if o.num_inputs() < 2 {
                return (0, 0);
            }
            let cvn = o.inrefs[1];
            if !f.vn(cvn).is_constant() {
                return (0, 0);
            }
            let mut multiplier: i64 = #[verifier::truncate] (f.vn(cvn).constant_value() as i64);
            let (_, sub) = get_const_offset_back(f, o.inrefs[0], ml);
            if sub > 0 {
                multiplier = multiplier.wrapping_mul(sub);
            }
            (0, multiplier)
        },
        _ => (0, 0),
    }
}

} // verus!

verus! {

/// One step of the walk below a PTRSUB: the effect of op `op`, the lone reader of `outvn`, on
/// the accumulated `(extra, mult)`, or `None` where the walk stops at it.
pub open spec fn extra_step(f: &Funcdata, op: OpId, outvn: VarnodeId, extra: i64, mult: i64) -> Option<(i64, i64)> {
    let o = f.ops@[op.0 as int];
    match o.opc {
        OpCode::IntAdd => {
            let slot = slot_spec(f, op, outvn);
            if slot > 1 {
                None
            } else if 1 - slot < o.inrefs@.len() {
                let (val, sub) = const_offset_back_spec(f, o.inrefs@[1 - slot], PTRSUB_UNDO_DEPTH_LIMIT);
                Some((vstd::wrapping::i64_specs::wrapping_add(extra, val), if sub > mult { sub } else { mult }))
            } else {
                Some((extra, mult))
            }
        },
        OpCode::Ptrsub => if o.inrefs@.len() > 1 {
            Some((vstd::wrapping::i64_specs::wrapping_add(extra, f.vns@[o.inrefs@[1].0 as int].loc.offset as i64), mult))
        } else {
            Some((extra, mult))
        },
        OpCode::Ptradd => {
            if o.inrefs@.len() < 2 || o.inrefs@[0] != outvn {
                None
            } else {
                let pm: i64 = if o.inrefs@.len() > 2 { f.vns@[o.inrefs@[2].0 as int].loc.offset as i64 } else { 0 };
                let invn = o.inrefs@[1];
                let e2 = if f.vns@[invn.0 as int].constant {
                    vstd::wrapping::i64_specs::wrapping_add(
                        extra,
                        vstd::wrapping::i64_specs::wrapping_mul(pm, f.vns@[invn.0 as int].loc.offset as i64),
                    )
                } else {
                    extra
                };
                let sub = const_offset_back_spec(f, invn, PTRSUB_UNDO_DEPTH_LIMIT).1;
                let pm2 = if sub != 0 { vstd::wrapping::i64_specs::wrapping_mul(pm, sub) } else { pm };
                Some((e2, if pm2 > mult { pm2 } else { mult }))
            }
        },
        _ => None,
    }
}

/// The walk down the chain of lone readers starting at `outvn`, for at most `fuel` steps:
/// the accumulated `(extra, mult)` and the varnode it ended on.
pub open spec fn extra_walk(f: &Funcdata, outvn: VarnodeId, fuel: nat, extra: i64, mult: i64) -> (i64, i64, VarnodeId)
    decreases fuel,
{
    if fuel == 0 {
        (extra, mult, outvn)
    } else {
        match lone_descend_spec(f.ops@, outvn) {
            None => (extra, mult, outvn),
            Some(op) => match extra_step(f, op, outvn, extra, mult) {
                None => (extra, mult, outvn),
                Some((e2, m2)) => match f.ops@[op.0 as int].output {
                    None => (e2, m2, outvn),
                    Some(nx) => extra_walk(f, nx, (fuel - 1) as nat, e2, m2),
                },
            },
        }
    }
}

/// `extra` read as signed at the width of a `size`-byte varnode.
pub open spec fn width_extend(extra: i64, size: u32) -> i64 {
    if size >= 8 || size == 0 {
        extra
    } else {
        sign_extend_spec(extra as u64, (8 * size - 1) as u32) as i64
    }
}

/// The constant offset added below the PTRSUB `op` along its chain of lone readers (INT_ADDs,
/// PTRSUBs and PTRADDs, each contributing its constant part), read at the width of the
/// chain's last value, and the largest index multiplier met.
pub open spec fn extra_offset_spec(f: &Funcdata, op: OpId) -> (i64, i64) {
    match f.ops@[op.0 as int].output {
        None => (0, 0),
        Some(out) => {
            let (e, m, last) = extra_walk(f, out, (f.ops@.len() + 1) as nat, 0, 0);
            (width_extend(e, f.vns@[last.0 as int].size), m)
        },
    }
}

/// See [`extra_offset_spec`].
#[verifier::rlimit(40)]
#[verifier::spinoff_prover]
fn get_extra_offset(f: &Funcdata, op: OpId) -> (r: (i64, i64))
    requires
        f.wf(),
        op.0 < f.ops@.len(),
    ensures
        r == extra_offset_spec(f, op),
{
    proof {
        assert(op_wf(f.ops@[op.0 as int], f.vns@.len(), f.ops@.len(), f.blocks@.len()));
    }
    let mut outvn = match f.op(op).output {
        Some(o) => o,
        None => return (0, 0),
    };
    let ghost total = extra_walk(f, outvn, (f.ops@.len() + 1) as nat, 0, 0);
    let mut extra: i64 = 0;
    let mut multiplier: i64 = 0;
    let mut fuel: usize = f.ops.len();
    let mut stepping = true;
    let mut cur = f.lone_descend(outvn);
    let nops = f.ops.len();
    proof {
        assert(extra_walk(f, outvn, (fuel + 1) as nat, extra, multiplier) == total);
    }
    while stepping
        invariant
            f.wf(),
            nops == f.ops@.len(),
            outvn.0 < f.vns@.len(),
            stepping ==> cur == lone_descend_spec(f.ops@, outvn),
            fuel <= f.ops@.len(),
            stepping ==> extra_walk(f, outvn, (fuel + 1) as nat, extra, multiplier) == total,
            !stepping ==> total == (extra, multiplier, outvn),
        decreases fuel, (if stepping { 1nat } else { 0nat }),
    {
        let o = match cur {
            Some(o) => o,
            None => {
                stepping = false;
                continue;
            },
        };
        proof {
            crate::funcdata::lemma_descend_len(f.ops@, outvn, f.ops@.len() as int);
            crate::funcdata::lemma_descend_member(f.ops@, outvn, f.ops@.len() as int, 0);
            assert(op_wf(f.ops@[o.0 as int], f.vns@.len(), f.ops@.len(), f.blocks@.len()));
        }
        let opd = f.op(o);
        let step: Option<(i64, i64)> = match opd.code() {
            OpCode::IntAdd => {
                let slot = get_slot(f, o, outvn);
                if slot > 1 {
                    None
                } else if 1 - slot < opd.num_inputs() {
                    let (val, sub) = get_const_offset_back(f, opd.inrefs[1 - slot], PTRSUB_UNDO_DEPTH_LIMIT);
                    Some((extra.wrapping_add(val), if sub > multiplier { sub } else { multiplier }))
                } else {
                    Some((extra, multiplier))
                }
            },
            OpCode::Ptrsub => {
                if opd.num_inputs() > 1 {
                    Some((extra.wrapping_add(#[verifier::truncate] (f.vn(opd.inrefs[1]).constant_value() as i64)), multiplier))
                } else {
                    Some((extra, multiplier))
                }
            },
            OpCode::Ptradd => {
                if opd.num_inputs() < 2 || opd.inrefs[0] != outvn {
                    None
                } else {
                    let pm: i64 = if opd.num_inputs() > 2 {
                        #[verifier::truncate] (f.vn(opd.inrefs[2]).constant_value() as i64)
                    } else {
                        0
                    };
                    let invn = opd.inrefs[1];
                    let e2 = if f.vn(invn).is_constant() {
                        extra.wrapping_add(pm.wrapping_mul(#[verifier::truncate] (f.vn(invn).constant_value() as i64)))
                    } else {
                        extra
                    };
                    let (_, sub) = get_const_offset_back(f, invn, PTRSUB_UNDO_DEPTH_LIMIT);
                    let pm2 = if sub != 0 { pm.wrapping_mul(sub) } else { pm };
                    Some((e2, if pm2 > multiplier { pm2 } else { multiplier }))
                }
            },
            _ => None,
        };
        match step {
            None => {
                stepping = false;
            },
            Some((e2, m2)) => {
                extra = e2;
                multiplier = m2;
                match opd.output {
                    None => {
                        stepping = false;
                    },
                    Some(nx) => {
                        if fuel == 0 {
                            proof {
                                assert(extra_walk(f, nx, 0, e2, m2) == (e2, m2, nx));
                            }
                            outvn = nx;
                            stepping = false;
                        } else {
                            outvn = nx;
                            fuel = fuel - 1;
                            cur = f.lone_descend(outvn);
                        }
                    },
                }
            },
        }
    }
    let size = f.vn(outvn).size;
    let r = if size >= 8 || size == 0 {
        extra
    } else {
        sign_extend(#[verifier::truncate] (extra as u64), 8 * size - 1)
    };
    (r, multiplier)
}

} // verus!

verus! {

/// Every op is as before or was rewritten into a COPY or an INT_ADD, and ops were only added.
pub open spec fn rewrites_only(old_f: &Funcdata, new_f: &Funcdata) -> bool {
    &&& new_f.ops@.len() >= old_f.ops@.len()
    &&& new_f.vns@.len() >= old_f.vns@.len()
    &&& forall|o: int| 0 <= o < old_f.ops@.len() ==> #[trigger] new_f.ops@[o] == old_f.ops@[o] || new_f.ops@[o].opc
        == OpCode::Copy || new_f.ops@[o].opc == OpCode::IntAdd
    &&& new_f.same_meta(old_f)
}

proof fn lemma_rewrites_refl(f: &Funcdata)
    ensures
        rewrites_only(f, f),
{
}

proof fn lemma_rewrites_trans(a: &Funcdata, b: &Funcdata, c: &Funcdata)
    requires
        rewrites_only(a, b),
        rewrites_only(b, c),
    ensures
        rewrites_only(a, c),
{
    assert forall|o: int| 0 <= o < a.ops@.len() implies #[trigger] c.ops@[o] == a.ops@[o] || c.ops@[o].opc == OpCode::Copy
        || c.ops@[o].opc == OpCode::IntAdd by {
        assert(b.ops@[o] == a.ops@[o] || b.ops@[o].opc == OpCode::Copy || b.ops@[o].opc == OpCode::IntAdd);
        assert(c.ops@[o] == b.ops@[o] || c.ops@[o].opc == OpCode::Copy || c.ops@[o].opc == OpCode::IntAdd);
    }
}

/// The INT_ADD writing input `slot` of `op` that [`remove_local_add_recurse`] strips, if the
/// input is written, read only by `op`, and levels remain.
pub open spec fn local_add_writer(f: &Funcdata, op: OpId, slot: int, max_level: i32) -> Option<OpId> {
    let ins = f.ops@[op.0 as int].inrefs@;
    if 0 <= slot < ins.len() && max_level >= 1 && lone_descend_spec(f.ops@, ins[slot]) == Some(op) {
        match f.vns@[ins[slot].0 as int].def {
            Some(d) => if f.ops@[d.0 as int].opc == OpCode::IntAdd { Some(d) } else { None },
            None => None,
        }
    } else {
        None
    }
}

/// Strip the constant addends out of the additive expression feeding input `slot` of `op`,
/// as long as each value on the way is read by nothing else, following at most `max_level`
/// ops: an INT_ADD of a constant becomes a COPY of its other input. Returns the total removed
/// (wrapping at 64 bits).
fn remove_local_add_recurse(data: &mut Funcdata, op: OpId, slot: usize, max_level: i32) -> (r: i64)
    requires
        old(data).wf(),
        op.0 < old(data).ops@.len(),
    ensures
        final(data).wf(),
        rewrites_only(old(data), final(data)),
        local_add_writer(old(data), op, slot as int, max_level) is None ==> r == 0 && *final(data) == *old(data),
        local_add_writer(old(data), op, slot as int, max_level) matches Some(d) ==> ({
            let w = old(data).ops@[d.0 as int];
            w.inrefs@.len() >= 2 && old(data).vns@[w.inrefs@[1].0 as int].constant ==> {
                &&& r == old(data).vns@[w.inrefs@[1].0 as int].loc.offset as i64
                &&& final(data).ops@[d.0 as int].opc == OpCode::Copy
                &&& final(data).ops@[d.0 as int].inrefs@ == w.inrefs@.remove(1)
                &&& forall|i: int| 0 <= i < old(data).ops@.len() && i != d.0 ==> #[trigger] final(data).ops@[i] == old(data).ops@[i]
            }
        }),
    decreases max_level,
{
    proof {
        lemma_rewrites_refl(&*old(data));
        assert(op_wf(data.ops@[op.0 as int], data.vns@.len(), data.ops@.len(), data.blocks@.len()));
    }
    let vn = match data.op(op).input(slot) {
        Some(v) => v,
        None => return 0,
    };
    if !data.vn(vn).is_written() {
        return 0;
    }
    if data.lone_descend(vn) != Some(op) {
        return 0;
    }
    if max_level < 1 {
        return 0;
    }
    let ml = max_level - 1;
    proof {
        assert(vn_wf(data.vns@[vn.0 as int], data.ops@.len()));
    }
    let defop = data.vn(vn).def.unwrap();
    proof {
        assert(op_wf(data.ops@[defop.0 as int], data.vns@.len(), data.ops@.len(), data.blocks@.len()));
    }
    let mut retval: i64 = 0;
    if data.op(defop).code() == OpCode::IntAdd {
        let in1 = data.op(defop).input(1);
        let is_const = match in1 {
            Some(c) => data.vn(c).is_constant(),
            None => false,
        };
        if is_const {
            let c = in1.unwrap();
            retval = retval.wrapping_add(#[verifier::truncate] (data.vn(c).constant_value() as i64));
            data.op_remove_input(defop, 1);
            data.op_set_opcode(defop, OpCode::Copy);
        } else {
            let ghost s0 = *data;
            let a = remove_local_add_recurse(data, defop, 0, ml);
            let ghost s1 = *data;
            let b = remove_local_add_recurse(data, defop, 1, ml);
            proof {
                lemma_rewrites_trans(&s0, &s1, &*data);
            }
            retval = retval.wrapping_add(a).wrapping_add(b);
        }
    }
    retval
}

/// The lone reader of `vn` is an INT_ADD, PTRSUB or PTRADD: the chain [`remove_local_adds`]
/// collapses has a first link.
pub open spec fn chain_starts(f: &Funcdata, vn: VarnodeId) -> bool {
    lone_descend_spec(f.ops@, vn) matches Some(o) && (f.ops@[o.0 as int].opc == OpCode::IntAdd || f.ops@[o.0 as int].opc
        == OpCode::Ptrsub || f.ops@[o.0 as int].opc == OpCode::Ptradd)
}

/// The chain below `vn` is a single INT_ADD of a constant: `vn`'s lone reader is an INT_ADD
/// reading `vn` first and a constant second, whose output (if any) nothing reads. Its op and
/// the constant.
pub open spec fn lone_lump(f: &Funcdata, vn: VarnodeId) -> Option<(OpId, VarnodeId)> {
    match lone_descend_spec(f.ops@, vn) {
        Some(a) => {
            let o = f.ops@[a.0 as int];
            if o.opc == OpCode::IntAdd && o.inrefs@.len() >= 2 && o.inrefs@[0] == vn && f.vns@[o.inrefs@[1].0 as int].constant
                && (o.output matches Some(w) ==> descend_spec(f.ops@, w).len() == 0) {
                Some((a, o.inrefs@[1]))
            } else {
                None
            }
        },
        None => None,
    }
}

/// `b` is `a` with the INT_ADD `x` turned into a COPY of its first input.
pub open spec fn add_collapsed(a: &Funcdata, b: &Funcdata, x: OpId) -> bool {
    &&& b.ops@.len() == a.ops@.len()
    &&& b.ops@[x.0 as int].opc == OpCode::Copy
    &&& b.ops@[x.0 as int].inrefs@ == a.ops@[x.0 as int].inrefs@.remove(1)
    &&& same_but_inputs(b.ops@[x.0 as int], crate::funcdata::PcodeOp { opc: OpCode::Copy, ..a.ops@[x.0 as int] })
    &&& forall|i: int| 0 <= i < a.ops@.len() && i != x.0 ==> #[trigger] b.ops@[i] == a.ops@[i]
    &&& b.vns == a.vns
}

/// An op sequence where no op names `v` gives `v` no readers.
proof fn lemma_no_reader_count(ops: Seq<crate::funcdata::PcodeOp>, v: VarnodeId, n: int)
    requires
        0 <= n <= ops.len(),
        forall|i: int| 0 <= i < n ==> !(#[trigger] ops[i]).inrefs@.contains(v),
    ensures
        crate::funcdata::desc_count(ops, v, n) == 0,
    decreases n,
{
    if n > 0 {
        lemma_no_reader_count(ops, v, n - 1);
        crate::funcdata::lemma_count_contains(ops[n - 1].inrefs@, v);
    }
}

/// Once a PTRSUB is known to be wrong, collapse what was built on the same wrong type below
/// it, along the chain of lone readers of `vn`: an INT_ADD of a constant (in the chain's
/// slot 0) becomes a COPY, any other INT_ADD gives up the constants of its other input
/// ([`remove_local_add_recurse`]); a PTRSUB becomes a COPY of its base; a PTRADD on the chain
/// becomes a COPY when its index is constant and is otherwise turned back into integer
/// arithmetic. Returns the total constant offset removed (wrapping at 64 bits).
///
/// The chain is followed for at most as many steps as there are ops.
fn remove_local_adds(data: &mut Funcdata, vn: VarnodeId) -> (r: i64)
    requires
        old(data).wf(),
        vn.0 < old(data).vns@.len(),
    ensures
        final(data).wf(),
        rewrites_only(old(data), final(data)),
        !chain_starts(old(data), vn) ==> r == 0 && *final(data) == *old(data),
        lone_lump(old(data), vn) matches Some((x, c)) ==> r == old(data).vns@[c.0 as int].loc.offset as i64 && add_collapsed(
            old(data),
            final(data),
            x,
        ),
{
    proof {
        lemma_rewrites_refl(&*old(data));
    }
    let ghost vn0 = vn;
    let ghost mut first = true;
    proof {
        if let Some((x, c)) = lone_lump(old(data), vn0) {
            crate::funcdata::lemma_descend_len(old(data).ops@, vn0, old(data).ops@.len() as int);
        }
    }
    let mut extra: i64 = 0;
    let mut vn = vn;
    let mut fuel: usize = data.ops.len();
    while fuel > 0
        invariant_except_break
            !first ==> (lone_lump(old(data), vn0) is Some ==> lone_descend_spec(data.ops@, vn) is None),
        invariant
            data.wf(),
            vn.0 < data.vns@.len(),
            rewrites_only(old(data), &*data),
            !chain_starts(old(data), vn0) ==> extra == 0 && *data == *old(data) && vn == vn0,
            first ==> extra == 0 && *data == *old(data) && vn == vn0 && fuel == old(data).ops@.len(),
            !first ==> (lone_lump(old(data), vn0) matches Some((x, c)) ==> extra == old(data).vns@[c.0 as int].loc.offset as i64
                && add_collapsed(old(data), &*data, x)),
            lone_lump(old(data), vn0) is Some ==> old(data).ops@.len() > 0,
        ensures
            lone_lump(old(data), vn0) matches Some((x, c)) ==> extra == old(data).vns@[c.0 as int].loc.offset as i64
                && add_collapsed(old(data), &*data, x),
        decreases fuel,
    {
        let op = match data.lone_descend(vn) {
            Some(o) => o,
            None => break,
        };
        let nops_e = data.ops.len();
        proof {
            let nops = data.ops@.len();
            assert(nops == nops_e);
            crate::funcdata::lemma_descend_len(data.ops@, vn, nops as int);
            crate::funcdata::lemma_descend_member(data.ops@, vn, nops as int, 0);
            assert(op_wf(data.ops@[op.0 as int], data.vns@.len(), data.ops@.len(), data.blocks@.len()));
        }
        let ghost before = *data;
        let code = data.op(op).code();
        if code == OpCode::IntAdd {
            let slot = get_slot(data, op, vn);
            proof {
                if first && lone_lump(old(data), vn0) is Some {
                    let ins = data.ops@[op.0 as int].inrefs@;
                    assert(ins[0] == vn);
                    let k = slot_spec(&*data, op, vn);
                    assert(0 <= k < ins.len() && ins[k] == vn && forall|j: int| 0 <= j < k ==> ins[j] != vn);
                    if k > 0 {
                        assert(ins[0] != vn);
                    }
                }
            }
            let in1 = data.op(op).input(1);
            let in1_const = match in1 {
                Some(c) => data.vn(c).is_constant(),
                None => false,
            };
            if slot == 0 && in1_const {
                let c = in1.unwrap();
                let ghost e0 = extra;
                extra = extra.wrapping_add(#[verifier::truncate] (data.vn(c).constant_value() as i64));
                data.op_remove_input(op, 1);
                data.op_set_opcode(op, OpCode::Copy);
                proof {
                    if first {
                        assert(e0 == 0);
                        assert(extra == data.vns@[c.0 as int].loc.offset as i64);
                    }
                }
            } else if slot <= 1 {
                let got = remove_local_add_recurse(data, op, 1 - slot, PTRSUB_UNDO_DEPTH_LIMIT);
                extra = extra.wrapping_add(got);
            } else {
                break;
            }
        } else if code == OpCode::Ptrsub {
            if data.op(op).num_inputs() >= 2 {
                let c = data.op(op).inrefs[1];
                extra = extra.wrapping_add(#[verifier::truncate] (data.vn(c).constant_value() as i64));
                data.op_remove_input(op, 1);
            }
            data.op_set_opcode(op, OpCode::Copy);
        } else if code == OpCode::Ptradd {
            if data.op(op).num_inputs() < 3 || data.op(op).inrefs[0] != vn {
                break;
            }
            let ptraddmult: i64 = #[verifier::truncate] (data.vn(data.op(op).inrefs[2]).constant_value() as i64);
            let invn = data.op(op).inrefs[1];
            if data.vn(invn).is_constant() {
                extra = extra.wrapping_add(ptraddmult.wrapping_mul(#[verifier::truncate] (data.vn(invn).constant_value() as i64)));
                data.op_remove_input(op, 2);
                data.op_remove_input(op, 1);
                data.op_set_opcode(op, OpCode::Copy);
            } else {
                data.op_undo_ptradd(op, false);
                let ghost mid = *data;
                let got = remove_local_add_recurse(data, op, 1, PTRSUB_UNDO_DEPTH_LIMIT);
                extra = extra.wrapping_add(got);
                proof {
                    assert(rewrites_only(&before, &mid));
                    lemma_rewrites_trans(&before, &mid, &*data);
                }
            }
        } else {
            break;
        }
        proof {
            lemma_rewrites_trans(&*old(data), &before, &*data);
            assert(op_wf(data.ops@[op.0 as int], data.vns@.len(), data.ops@.len(), data.blocks@.len()));
            if first {
                if let Some((x, c)) = lone_lump(old(data), vn0) {
                    assert(x == op);
                    assert(before == *old(data));
                    assert(data.ops@[op.0 as int].opc == OpCode::Copy);
                    assert(data.ops@[op.0 as int].inrefs@ == old(data).ops@[op.0 as int].inrefs@.remove(1));
                    assert forall|i: int| 0 <= i < old(data).ops@.len() && i != op.0 implies #[trigger] data.ops@[i] == old(data).ops@[i] by {}
                    assert(add_collapsed(old(data), &*data, op));
                    assert(extra == old(data).vns@[c.0 as int].loc.offset as i64);
                    if let Some(w) = data.ops@[op.0 as int].output {
                        let n = data.ops@.len() as int;
                        crate::funcdata::lemma_descend_len(old(data).ops@, w, n);
                        lemma_no_reader(old(data).ops@, w, n);
                        assert forall|i: int| 0 <= i < n implies !(#[trigger] data.ops@[i]).inrefs@.contains(w) by {
                            if i == op.0 {
                                assert(old(data).ops@[i].inrefs@.contains(vn0));
                                assert(vn0 != w);
                                if data.ops@[i].inrefs@.contains(w) {
                                    let k = choose|k: int| 0 <= k < data.ops@[i].inrefs@.len() && data.ops@[i].inrefs@[k] == w;
                                    assert(data.ops@[i].inrefs@[k] == old(data).ops@[i].inrefs@.remove(1)[k]);
                                }
                            } else {
                                assert(data.ops@[i] == old(data).ops@[i]);
                            }
                        }
                        lemma_no_reader_count(data.ops@, w, n);
                        crate::funcdata::lemma_descend_len(data.ops@, w, n);
                    }
                }
            }
            first = false;
        }
        let next = match data.op(op).output {
            Some(n) => n,
            None => break,
        };
        fuel -= 1;
        vn = next;
    }
    extra
}

/// The PTRSUB rule's decision: the PTRSUB `op` stays when its base type has a component at its
/// offset (read as signed) plus everything added below it ([`extra_offset_spec`]).
pub open spec fn ptrsub_stays(f: &Funcdata, op: OpId) -> bool {
    let o = f.ops@[op.0 as int];
    let base = o.inrefs@[0];
    let cvn = f.vns@[o.inrefs@[1].0 as int];
    let (extra, multiplier) = extra_offset_spec(f, op);
    ptrsub_matching_spec(
        f.stack_syms@,
        f.vns@[base.0 as int].ty,
        sext_const_spec(cvn.loc.offset, cvn.size) as i64,
        extra,
        multiplier,
    )
}

/// The offset the undone PTRSUB `op` is left with once `lumped` (what was collapsed below it)
/// is folded in: its constant read as signed, plus `lumped`, wrapped to 64 bits and cut to the
/// constant's size.
pub open spec fn lumped_offset(f: &Funcdata, op: OpId, lumped: i64) -> u64 {
    let cvn = f.vns@[f.ops@[op.0 as int].inrefs@[1].0 as int];
    ((sext_const_spec(cvn.loc.offset, cvn.size) as i64).wrapping_add(lumped) as u64) & byte_mask(cvn.size as nat)
}

/// `b` is `a` with the op `op` turned into an INT_ADD and nothing else changed.
pub open spec fn retyped_as_add(a: &Funcdata, b: &Funcdata, op: OpId) -> bool {
    &&& b.ops@ == a.ops@.update(op.0 as int, crate::funcdata::PcodeOp { opc: OpCode::IntAdd, ..a.ops@[op.0 as int] })
    &&& b.vns == a.vns
}

/// Remove PTRSUB operations whose data-types do not fit: a PTRSUB claims its base type has a
/// component at the given offset; once type recovery says otherwise, it goes back to an
/// INT_ADD, whatever was built below it on the same wrong type is collapsed
/// ([`remove_local_adds`]), and the constants so removed are lumped into the INT_ADD's offset.
pub struct RulePtrsubUndo;

impl RulePtrsubUndo {
    pub fn name(&self) -> (r: &'static str)
        ensures
            r@ == "ptrsub_undo"@,
    {
        "ptrsub_undo"
    }

    /// The operations the rule applies to.
    pub fn oplist(&self) -> (r: Vec<OpCode>)
        ensures
            r@ == seq![OpCode::Ptrsub],
    {
        let mut v = Vec::new();
        v.push(OpCode::Ptrsub);
        v
    }

    /// Apply the rule to the PTRSUB `op`; returns 1 when it was undone, 0 when it stays (or type
    /// recovery has not started, or the op lacks its two inputs), and then nothing changes.
    pub fn apply_op(&mut self, op: OpId, data: &mut Funcdata) -> (r: u32)
        requires
            old(data).wf(),
            op.0 < old(data).ops@.len(),
        ensures
            final(data).wf(),
            r == 0 <==> (!old(data).type_recovery_started || old(data).ops@[op.0 as int].inrefs@.len() < 2 || ptrsub_stays(
                old(data),
                op,
            )),
            r <= 1,
            r == 0 ==> *final(data) == *old(data),
            r == 1 ==> rewrites_only(old(data), final(data)),
            r == 1 && old(data).ops@[op.0 as int].opc == OpCode::Ptrsub ==> match old(data).ops@[op.0 as int].output {
                None => retyped_as_add(old(data), final(data), op),
                Some(out) => {
                    &&& !chain_starts(old(data), out) ==> retyped_as_add(old(data), final(data), op)
                    &&& lone_lump(old(data), out) matches Some((x, c)) ==> {
                        let lumped = old(data).vns@[c.0 as int].loc.offset as i64;
                        let ins = old(data).ops@[op.0 as int].inrefs@;
                        let k = final(data).ops@[op.0 as int].inrefs@[1];
                        &&& final(data).ops@.len() == old(data).ops@.len()
                        &&& final(data).ops@[op.0 as int].opc == OpCode::IntAdd
                        &&& same_but_inputs(
                            final(data).ops@[op.0 as int],
                            crate::funcdata::PcodeOp { opc: OpCode::IntAdd, ..old(data).ops@[op.0 as int] },
                        )
                        &&& lumped == 0 ==> final(data).ops@[op.0 as int].inrefs@ == ins
                        &&& lumped != 0 ==> {
                            &&& final(data).ops@[op.0 as int].inrefs@ == ins.update(1, k)
                            &&& final(data).vns@[k.0 as int].constant
                            &&& final(data).vns@[k.0 as int].size == old(data).vns@[ins[1].0 as int].size
                            &&& final(data).vns@[k.0 as int].loc.offset == lumped_offset(old(data), op, lumped)
                        }
                        &&& final(data).ops@[x.0 as int].opc == OpCode::Copy
                        &&& final(data).ops@[x.0 as int].inrefs@ == old(data).ops@[x.0 as int].inrefs@.remove(1)
                        &&& forall|i: int|
                            0 <= i < old(data).ops@.len() && i != op.0 && i != x.0 ==> #[trigger] final(data).ops@[i]
                                == old(data).ops@[i]
                    }
                },
            },
    {
        if !data.has_type_recovery_started() {
            return 0;
        }
        if data.op(op).num_inputs() < 2 {
            return 0;
        }
        proof {
            assert(op_wf(data.ops@[op.0 as int], data.vns@.len(), data.ops@.len(), data.blocks@.len()));
            assert(vn_wf(data.vns@[data.ops@[op.0 as int].inrefs@[0].0 as int], data.ops@.len()));
        }
        let basevn = data.op(op).inrefs[0];
        let cvn = data.op(op).inrefs[1];
        let val = sext_const(data.vn(cvn).constant_value(), data.vn(cvn).size);
        let (extra, multiplier) = get_extra_offset(data, op);
        let matching = is_ptrsub_matching(data, type_read_facing(data, basevn), val, extra, multiplier);
        if matching {
            return 0;
        }
        let csize = data.vn(cvn).size;
        data.op_set_opcode(op, OpCode::IntAdd);
        proof {
            assert(data.ops@ =~= old(data).ops@.update(
                op.0 as int,
                crate::funcdata::PcodeOp { opc: OpCode::IntAdd, ..old(data).ops@[op.0 as int] },
            ));
            assert(retyped_as_add(old(data), &*data, op));
            assert forall|v: VarnodeId| #[trigger] descend_spec(data.ops@, v) == descend_spec(old(data).ops@, v) by {
                assert forall|j: int| 0 <= j < data.ops@.len() implies crate::funcdata::count_in(
                    (#[trigger] data.ops@[j]).inrefs@,
                    v,
                ) == crate::funcdata::count_in(old(data).ops@[j].inrefs@, v) by {
                    if j != op.0 {
                        assert(data.ops@[j] == old(data).ops@[j]);
                    }
                }
                crate::addtree::lemma_descend_same_counts(data.ops@, old(data).ops@, v, data.ops@.len() as int);
            }
        }
        let outvn = match data.op(op).output {
            Some(o) => o,
            None => {
                return 1;
            },
        };
        proof {
            assert(op_wf(data.ops@[op.0 as int], data.vns@.len(), data.ops@.len(), data.blocks@.len()));
        }
        let ghost s1 = *data;
        let nops = data.ops.len();
        proof {
            assert(old(data).ops@.len() == nops);
            assert(descend_spec(s1.ops@, outvn) == descend_spec(old(data).ops@, outvn));
            if let Some(o) = lone_descend_spec(old(data).ops@, outvn) {
                crate::funcdata::lemma_descend_member(old(data).ops@, outvn, old(data).ops@.len() as int, 0);
                if o != op {
                    assert(s1.ops@[o.0 as int] == old(data).ops@[o.0 as int]);
                }
            }
            if old(data).ops@[op.0 as int].opc == OpCode::Ptrsub {
                if !chain_starts(old(data), outvn) {
                    assert(!chain_starts(&s1, outvn));
                }
                if let Some((x, c)) = lone_lump(old(data), outvn) {
                    assert(x != op);
                    assert(s1.ops@[x.0 as int] == old(data).ops@[x.0 as int]);
                    let o = s1.ops@[x.0 as int];
                    if let Some(w) = o.output {
                        assert(descend_spec(s1.ops@, w) == descend_spec(old(data).ops@, w));
                    }
                    assert(lone_lump(&s1, outvn) == Some((x, c)));
                }
            }
        }
        let removed = remove_local_adds(data, outvn);
        let ghost s3 = *data;
        if removed != 0 {
            let newval = (#[verifier::truncate] (val.wrapping_add(removed) as u64)) & calc_mask(csize);
            let newc = data.new_const(csize, newval);
            let ghost s2 = *data;
            if data.op(op).num_inputs() >= 2 {
                data.op_set_input(op, 1, newc);
            }
            proof {
                assert(rewrites_only(&s2, &*data));
                lemma_rewrites_trans(&s1, &s2, &*data);
            }
        }
        proof {
            lemma_rewrites_trans(&*old(data), &s1, &*data);
            if old(data).ops@[op.0 as int].opc == OpCode::Ptrsub {
                if !chain_starts(old(data), outvn) {
                    assert(retyped_as_add(old(data), &*data, op));
                }
                if let Some((x, c)) = lone_lump(old(data), outvn) {
                    assert(add_collapsed(&s1, &s3, x));
                    assert(s3.ops@[op.0 as int] == s1.ops@[op.0 as int]);
                }
            }
        }
        1
    }
}

/// Remove PTRADD operations whose data-types do not fit: the PTRADD goes back to integer
/// arithmetic when its base is not a pointer, when the pointee's size differs from the
/// element size in slot 2, or when the index is the constant 0.
pub struct RulePtraddUndo;

/// The PTRADD rule's decision: the PTRADD `op` stays when its base is a pointer to a type of
/// the element size, and its index is not the constant 0.
pub open spec fn ptradd_stays(f: &Funcdata, op: OpId) -> bool {
    let o = f.ops@[op.0 as int];
    let size = f.vns@[o.inrefs@[2].0 as int].loc.offset;
    let ind = f.vns@[o.inrefs@[1].0 as int];
    match f.vns@[o.inrefs@[0].0 as int].ty {
        Datatype::Pointer(_, pt) => type_size(*pt) == size && !(ind.constant && ind.loc.offset == 0),
        _ => false,
    }
}

impl RulePtraddUndo {
    pub fn name(&self) -> (r: &'static str)
        ensures
            r@ == "ptradd_undo"@,
    {
        "ptradd_undo"
    }

    /// The operations the rule applies to.
    pub fn oplist(&self) -> (r: Vec<OpCode>)
        ensures
            r@ == seq![OpCode::Ptradd],
    {
        let mut v = Vec::new();
        v.push(OpCode::Ptradd);
        v
    }

    /// Apply the rule to the PTRADD `op`: returns 1 when it was turned back into integer
    /// arithmetic (see [`Funcdata::op_undo_ptradd`]), 0 when it stays (or type recovery has not
    /// started, or the op lacks its three inputs), and then nothing changes.
    pub fn apply_op(&mut self, op: OpId, data: &mut Funcdata) -> (r: u32)
        requires
            old(data).wf(),
            op.0 < old(data).ops@.len(),
        ensures
            final(data).wf(),
            r == 0 <==> (!old(data).type_recovery_started || old(data).ops@[op.0 as int].inrefs@.len() < 3 || ptradd_stays(
                old(data),
                op,
            )),
            r == 0 ==> *final(data) == *old(data),
            r <= 1,
            r == 1 ==> ptradd_undone(old(data), final(data), op, false),
    {
        if !data.has_type_recovery_started() {
            return 0;
        }
        if data.op(op).num_inputs() < 3 {
            return 0;
        }
        proof {
            assert(op_wf(data.ops@[op.0 as int], data.vns@.len(), data.ops@.len(), data.blocks@.len()));
            assert(vn_wf(data.vns@[data.ops@[op.0 as int].inrefs@[0].0 as int], data.ops@.len()));
        }
        let size = data.vn(data.op(op).inrefs[2]).constant_value();
        let dt = type_read_facing(data, data.op(op).inrefs[0]);
        if let Datatype::Pointer(_, pt) = dt {
            if pt.size() as u64 == size {
                let ind = data.op(op).inrefs[1];
                if !data.vn(ind).is_constant() || data.vn(ind).constant_value() != 0 {
                    return 0;
                }
            }
        }
        data.op_undo_ptradd(op, false);
        1
    }
}

} // verus!

verus! {

/// A new output for a copy of the op defining `vn`, placed on `op`: in `vn`'s own storage when
/// that is a real location, otherwise (address-tied or internal storage, which two ops cannot
/// both define) in a fresh `unique` location.
fn build_varnode_out(data: &mut Funcdata, vn: VarnodeId, op: OpId) -> (r: VarnodeId)
    requires
        old(data).wf(),
        vn.0 < old(data).vns@.len(),
        op.0 < old(data).ops@.len(),
    ensures
        final(data).wf(),
        r.0 == old(data).vns@.len(),
        final(data).vns@.len() == old(data).vns@.len() + 1,
        final(data).vns@.take(old(data).vns@.len() as int) == old(data).vns@,
        final(data).vns@[r.0 as int].size == old(data).vns@[vn.0 as int].size,
        final(data).vns@[r.0 as int].def == Some(op),
        final(data).ops@.len() == old(data).ops@.len(),
        forall|i: int| 0 <= i < old(data).ops@.len() && i != op.0 ==> #[trigger] final(data).ops@[i] == old(data).ops@[i],
        final(data).ops@[op.0 as int].output == Some(r),
        crate::funcdata::same_but_outputs(final(data).ops@[op.0 as int], old(data).ops@[op.0 as int]),
        final(data).blocks == old(data).blocks,
        final(data).same_meta(old(data)),
{
    proof {
        assert(data.vns@[vn.0 as int].loc.space.0 < data.spaces@.len());
    }
    let size = data.vn(vn).size;
    let internal = data.spaces.get(data.vn(vn).loc.space).kind == SpaceKind::Internal;
    let r = if data.vn(vn).is_addrtied() || internal {
        data.new_output_unique(op, size)
    } else {
        let loc = data.vn(vn).loc;
        data.new_output(op, size, loc)
    };
    assert(data.vns@.take(old(data).vns@.len() as int) =~= old(data).vns@);
    r
}

/// The inputs a copy of an op takes: its first input, and its second when there is one.
pub open spec fn copy_inputs(in0: VarnodeId, in1: Option<VarnodeId>) -> Seq<VarnodeId> {
    match in1 {
        Some(v) => seq![in0, v],
        None => seq![in0],
    }
}

/// `v` is the output of a live op new in `f` (at index `n0` or after) with opcode `opc`, inputs
/// `ins` and address `pc`.
pub open spec fn fresh_copy_of(f: &Funcdata, v: VarnodeId, n0: int, opc: OpCode, ins: Seq<VarnodeId>, pc: crate::space::Address) -> bool {
    &&& v.0 < f.vns@.len()
    &&& f.vns@[v.0 as int].def matches Some(n) && n0 <= n.0 < f.ops@.len() && f.ops@[n.0 as int].opc == opc
        && f.ops@[n.0 as int].inrefs@ == ins && f.ops@[n.0 as int].seqnum.pc == pc && !f.ops@[n.0 as int].dead
        && f.ops@[n.0 as int].output == Some(v)
}

/// No op among the first `n` reads `v` when `v` has no reader among them.
proof fn lemma_no_reader(ops: Seq<crate::funcdata::PcodeOp>, v: VarnodeId, n: int)
    requires
        0 <= n <= ops.len(),
        crate::funcdata::desc_count(ops, v, n) == 0,
    ensures
        forall|i: int| 0 <= i < n ==> !(#[trigger] ops[i]).inrefs@.contains(v),
    decreases n,
{
    if n > 0 {
        lemma_no_reader(ops, v, n - 1);
        crate::funcdata::lemma_count_contains(ops[n - 1].inrefs@, v);
    }
}

/// Give the reader `dec_op` of `out_vn` (the output of `op`) its own copy of `op`, just before it.
#[verifier::rlimit(80)]
#[verifier::spinoff_prover]
fn give_own_copy(
    data: &mut Funcdata,
    op: OpId,
    dec_op: OpId,
    out_vn: VarnodeId,
    in_vn: VarnodeId,
    in1: Option<VarnodeId>,
    opc: OpCode,
    out_ty: &Datatype,
)
    requires
        old(data).wf(),
        op.0 < old(data).ops@.len(),
        dec_op.0 < old(data).ops@.len(),
        old(data).ops@[dec_op.0 as int].inrefs@.contains(out_vn),
        out_vn.0 < old(data).vns@.len(),
        in_vn.0 < old(data).vns@.len(),
        in_vn != out_vn,
        in1 matches Some(v) ==> v.0 < old(data).vns@.len() && v != out_vn,
        type_wf(*out_ty),
        dec_op != op,
    ensures
        final(data).wf(),
        final(data).same_meta(old(data)),
        final(data).ops@[op.0 as int] == old(data).ops@[op.0 as int],
        final(data).ops@.len() == old(data).ops@.len() + 1,
        final(data).vns@.len() == old(data).vns@.len() + 1,
        final(data).descend_of(out_vn).len() + 1 == old(data).descend_of(out_vn).len(),
        fresh_copy_of(
            final(data),
            VarnodeId(old(data).vns@.len() as usize),
            old(data).ops@.len() as int,
            opc,
            copy_inputs(in_vn, in1),
            old(data).ops@[op.0 as int].seqnum.pc,
        ),
        final(data).ops@[old(data).ops@.len() as int].output == Some(VarnodeId(old(data).vns@.len() as usize)),
        final(data).ops@[dec_op.0 as int].inrefs@ == old(data).ops@[dec_op.0 as int].inrefs@.update(
            slot_spec(old(data), dec_op, out_vn),
            VarnodeId(old(data).vns@.len() as usize),
        ),
        old(data).ops@[dec_op.0 as int].inrefs@[slot_spec(old(data), dec_op, out_vn)] == out_vn,
        0 <= slot_spec(old(data), dec_op, out_vn) < old(data).ops@[dec_op.0 as int].inrefs@.len(),
        same_but_inputs(final(data).ops@[dec_op.0 as int], old(data).ops@[dec_op.0 as int]),
        forall|i: int| 0 <= i < old(data).ops@.len() && i != dec_op.0 ==> #[trigger] final(data).ops@[i] == old(data).ops@[i],
        final(data).vns@.take(old(data).vns@.len() as int) == old(data).vns@,
        !final(data).ops@[old(data).ops@.len() as int].inrefs@.contains(out_vn),
{
    let slot = get_slot(data, dec_op, out_vn);
    let ghost s0 = *data;
    let pc = data.op(op).seqnum.pc;
    let uniq = #[verifier::truncate] (data.ops.len() as u32);
    let mut ins: Vec<VarnodeId> = Vec::new();
    ins.push(in_vn);
    let new_op = data.new_op(opc, crate::funcdata::SeqNum { pc, uniq }, ins);
    if let Some(v1) = in1 {
        let pair = [in_vn, v1];
        data.op_set_all_input(new_op, &pair);
    }
    let ghost s1 = *data;
    let new_out = build_varnode_out(data, out_vn, new_op);
    data.vn_update_type(new_out, copy_type(out_ty));
    let ghost s2 = *data;
    data.op_set_input(dec_op, slot, new_out);
    let ghost s3 = *data;
    data.op_insert_before(new_op, dec_op);
    proof {
        let n0 = s0.ops@.len() as int;
        assert(!s1.ops@[n0].inrefs@.contains(out_vn)) by {
            if s1.ops@[n0].inrefs@.contains(out_vn) {
                let k = choose|k: int| 0 <= k < s1.ops@[n0].inrefs@.len() && s1.ops@[n0].inrefs@[k] == out_vn;
                match in1 {
                    Some(v1) => {
                        assert(s1.ops@[n0].inrefs@ == seq![in_vn, v1]);
                    },
                    None => {
                        assert(s1.ops@[n0].inrefs@ == seq![in_vn]);
                    },
                }
            }
        }
        crate::funcdata::lemma_count_contains(s1.ops@[n0].inrefs@, out_vn);
        crate::funcdata::lemma_desc_count_same(s1.ops@, s0.ops@, out_vn, n0);
        crate::funcdata::lemma_desc_count_same(s2.ops@, s1.ops@, out_vn, n0 + 1);
        crate::funcdata::lemma_desc_count_one(s2.ops@, s3.ops@, out_vn, dec_op.0 as int, n0 + 1);
        crate::funcdata::lemma_count_update(s2.ops@[dec_op.0 as int].inrefs@, slot as int, new_out, out_vn);
        crate::funcdata::lemma_desc_count_same(data.ops@, s3.ops@, out_vn, n0 + 1);
        crate::funcdata::lemma_descend_len(data.ops@, out_vn, n0 + 1);
        crate::funcdata::lemma_descend_len(s0.ops@, out_vn, n0);
        assert(data.vns@.take(s0.vns@.len() as int) =~= s0.vns@);
        match in1 {
            Some(v1) => {
                assert(data.ops@[n0].inrefs@ =~= copy_inputs(in_vn, in1));
            },
            None => {
                assert(data.ops@[n0].inrefs@ =~= copy_inputs(in_vn, in1));
            },
        }
    }
}

/// Give every reader of `op`'s output its own copy of `op`, placed just before the reader, then
/// destroy `op`: a value with a single definition but several readers becomes one value per
/// reader, so each can be folded into its reader's expression.
///
/// `op` must not read its own output: each step rewires one read of the output, and a copy
/// reading the output would add one back.
#[verifier::rlimit(100)]
#[verifier::spinoff_prover]
pub fn duplicate_need(data: &mut Funcdata, op: OpId)
    requires
        old(data).wf(),
        op.0 < old(data).ops@.len(),
        old(data).ops@[op.0 as int].output matches Some(out) ==> !old(data).ops@[op.0 as int].inrefs@.contains(out),
    ensures
        final(data).wf(),
        final(data).same_meta(old(data)),
        old(data).ops@[op.0 as int].output is Some && old(data).ops@[op.0 as int].inrefs@.len() > 0 ==> {
            &&& final(data).ops@[op.0 as int].dead
            &&& final(data).descend_of(old(data).ops@[op.0 as int].output.unwrap()).len() == 0
        },
        old(data).ops@[op.0 as int].output is None || old(data).ops@[op.0 as int].inrefs@.len() == 0 ==> *final(data) == *old(data),
        ({
            let o = old(data).ops@[op.0 as int];
            let ins = copy_inputs(o.inrefs@[0], if o.inrefs@.len() > 1 { Some(o.inrefs@[1]) } else { None });
            let out = o.output.unwrap();
            o.output is Some && o.inrefs@.len() > 0 ==> {
                &&& forall|d: int|
                    0 <= d < old(data).ops@.len() && d != op.0 ==> same_but_inputs(#[trigger] final(data).ops@[d], old(data).ops@[d])
                        && final(data).ops@[d].inrefs@.len() == old(data).ops@[d].inrefs@.len()
                &&& forall|d: int, j: int|
                    #![trigger final(data).ops@[d].inrefs@[j]]
                    0 <= d < old(data).ops@.len() && d != op.0 && 0 <= j < old(data).ops@[d].inrefs@.len() ==> {
                        &&& old(data).ops@[d].inrefs@[j] != out ==> final(data).ops@[d].inrefs@[j] == old(data).ops@[d].inrefs@[j]
                        &&& old(data).ops@[d].inrefs@[j] == out ==> fresh_copy_of(
                            final(data),
                            final(data).ops@[d].inrefs@[j],
                            old(data).ops@.len() as int,
                            o.opc,
                            ins,
                            o.seqnum.pc,
                        )
                    }
            }
        }),
{
    proof {
        assert(op_wf(data.ops@[op.0 as int], data.vns@.len(), data.ops@.len(), data.blocks@.len()));
    }
    let out_vn = match data.op(op).output {
        Some(o) => o,
        None => return,
    };
    let in_vn = match data.op(op).input(0) {
        Some(v) => v,
        None => return,
    };
    let num = data.op(op).num_inputs();
    let opc = data.op(op).code();
    let in1 = if num > 1 { data.op(op).input(1) } else { None };
    proof {
        assert(vn_wf(data.vns@[out_vn.0 as int], data.ops@.len()));
        assert(data.ops@[op.0 as int].inrefs@[0] == in_vn);
    }
    let out_ty = copy_type(&data.vn(out_vn).ty);
    let ghost orig = data.ops@[op.0 as int];
    let ghost n0 = data.ops@.len();
    proof {
        assert(copy_inputs(in_vn, in1) == copy_inputs(orig.inrefs@[0], if orig.inrefs@.len() > 1 { Some(orig.inrefs@[1]) } else { None }));
    }
    let mut readers = data.descend(out_vn);
    while readers.len() > 0
        invariant
            data.wf(),
            data.same_meta(old(data)),
            op.0 < data.ops@.len(),
            data.ops@[op.0 as int] == orig,
            orig.output == Some(out_vn),
            !orig.inrefs@.contains(out_vn),
            in_vn == orig.inrefs@[0],
            orig.inrefs@.len() > 0,
            in1 matches Some(v) ==> v == orig.inrefs@[1] && orig.inrefs@.len() > 1,
            opc == orig.opc,
            out_vn.0 < data.vns@.len(),
            in_vn.0 < data.vns@.len(),
            in1 matches Some(v) ==> v.0 < data.vns@.len(),
            type_wf(out_ty),
            readers@ == data.descend_of(out_vn),
            n0 == old(data).ops@.len(),
            data.ops@.len() >= n0,
            forall|i: int| n0 <= i < data.ops@.len() ==> !(#[trigger] data.ops@[i]).inrefs@.contains(out_vn),
            forall|d: int|
                0 <= d < n0 && d != op.0 ==> same_but_inputs(#[trigger] data.ops@[d], old(data).ops@[d])
                    && data.ops@[d].inrefs@.len() == old(data).ops@[d].inrefs@.len(),
            forall|d: int, j: int|
                #![trigger data.ops@[d].inrefs@[j]]
                0 <= d < n0 && d != op.0 && 0 <= j < old(data).ops@[d].inrefs@.len() ==> {
                    &&& old(data).ops@[d].inrefs@[j] != out_vn ==> data.ops@[d].inrefs@[j] == old(data).ops@[d].inrefs@[j]
                    &&& old(data).ops@[d].inrefs@[j] == out_vn ==> data.ops@[d].inrefs@[j] == out_vn || fresh_copy_of(
                        &*data,
                        data.ops@[d].inrefs@[j],
                        n0 as int,
                        opc,
                        copy_inputs(in_vn, in1),
                        orig.seqnum.pc,
                    )
                },
        decreases readers@.len(),
    {
        let dec_op = readers[0];
        let ghost pre = *data;
        let nops = data.ops.len();
        proof {
            crate::funcdata::lemma_descend_len(data.ops@, out_vn, nops as int);
            crate::funcdata::lemma_descend_member(data.ops@, out_vn, nops as int, 0);
            assert(in_vn != out_vn);
            if in1.is_some() {
                assert(orig.inrefs@[1] != out_vn);
            }
            assert(dec_op.0 != op.0) by {
                if dec_op.0 == op.0 {
                    assert(data.ops@[op.0 as int].inrefs@.contains(out_vn));
                }
            }
        }
        give_own_copy(data, op, dec_op, out_vn, in_vn, in1, opc, &out_ty);
        proof {
            let m = pre.ops@.len() as int;
            assert(dec_op.0 < n0) by {
                if dec_op.0 >= n0 {
                    assert(!pre.ops@[dec_op.0 as int].inrefs@.contains(out_vn));
                }
            }
            assert forall|i: int| n0 <= i < data.ops@.len() implies !(#[trigger] data.ops@[i]).inrefs@.contains(out_vn) by {
                if i < m {
                    assert(data.ops@[i] == pre.ops@[i]);
                }
            }
            let sl = slot_spec(&pre, dec_op, out_vn);
            assert forall|d: int| 0 <= d < n0 && d != op.0 implies same_but_inputs(#[trigger] data.ops@[d], old(data).ops@[d])
                && data.ops@[d].inrefs@.len() == old(data).ops@[d].inrefs@.len() by {
                assert(same_but_inputs(pre.ops@[d], old(data).ops@[d]));
            }
            assert forall|d: int, j: int|
                #![trigger data.ops@[d].inrefs@[j]]
                0 <= d < n0 && d != op.0 && 0 <= j < old(data).ops@[d].inrefs@.len() implies {
                    &&& old(data).ops@[d].inrefs@[j] != out_vn ==> data.ops@[d].inrefs@[j] == old(data).ops@[d].inrefs@[j]
                    &&& old(data).ops@[d].inrefs@[j] == out_vn ==> data.ops@[d].inrefs@[j] == out_vn || fresh_copy_of(
                        &*data,
                        data.ops@[d].inrefs@[j],
                        n0 as int,
                        opc,
                        copy_inputs(in_vn, in1),
                        orig.seqnum.pc,
                    )
                } by {
                assert(same_but_inputs(pre.ops@[d], old(data).ops@[d]));
                let v = data.ops@[d].inrefs@[j];
                if d == dec_op.0 && j == sl {
                    assert(v == VarnodeId(pre.vns@.len() as usize));
                } else {
                    assert(data.ops@[d].inrefs@[j] == pre.ops@[d].inrefs@[j]);
                    if old(data).ops@[d].inrefs@[j] == out_vn && v != out_vn {
                        assert(fresh_copy_of(&pre, v, n0 as int, opc, copy_inputs(in_vn, in1), orig.seqnum.pc));
                        let w = pre.vns@[v.0 as int].def.unwrap();
                        assert(data.vns@[v.0 as int] == data.vns@.take(pre.vns@.len() as int)[v.0 as int]);
                        assert(w.0 != dec_op.0);
                        assert(data.ops@[w.0 as int] == pre.ops@[w.0 as int]);
                    }
                }
            }
        }
        readers = data.descend(out_vn);
    }
    let ghost before = *data;
    proof {
        crate::funcdata::lemma_descend_len(data.ops@, out_vn, data.ops@.len() as int);
        lemma_no_reader(data.ops@, out_vn, data.ops@.len() as int);
    }
    data.op_destroy(op);
    proof {
        let n = data.ops@.len() as int;
        crate::funcdata::lemma_descend_len(before.ops@, out_vn, n);
        crate::funcdata::lemma_descend_len(data.ops@, out_vn, n);
        crate::funcdata::lemma_count_contains(before.ops@[op.0 as int].inrefs@, out_vn);
        crate::funcdata::lemma_count_contains(data.ops@[op.0 as int].inrefs@, out_vn);
        crate::funcdata::lemma_desc_count_one(before.ops@, data.ops@, out_vn, op.0 as int, n);
    }
}

} // verus!
