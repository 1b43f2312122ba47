//! Is the data-flow into a parameter trial realistic? A depth-first walk back through the
//! ancestors of the trial's value, looking for active movement into the trial's storage (a
//! COPY, LOAD or arithmetic), rather than an untouched input or a value a call left behind.
//!
//! The walk keeps an explicit stack of nodes: each node is entered once and backtracked out of
//! once. At a MULTIEQUAL, a solid movement on one input can outweigh a value killed by a call
//! on another, unless the trial may not have a failing path, or the failing path cannot be put
//! down to conditional execution.

use vstd::prelude::*;

use crate::fspec::ParamTrial;
use crate::funcdata::{block_wf, op_wf, vn_wf, Funcdata, OpId, Varnode, VarnodeId};
use crate::opcode::OpCode;
use crate::space::{highest_spec, wrap_offset_spec, SpaceKind};

verus! {

/// A solid movement into the varnode occurred on a path through input slot 0 of a MULTIEQUAL.
pub const SEEN_SOLID0: u32 = 1;

/// A solid movement into the varnode occurred on a path through another input slot.
pub const SEEN_SOLID1: u32 = 2;

/// The varnode is killed by a call on at least one path into a MULTIEQUAL.
pub const SEEN_KILL: u32 = 4;

/// A node of the walk: the varnode read by `op` at input `slot`.
#[derive(Clone, Copy, Debug)]
pub struct AncestorState {
    pub op: OpId,
    pub slot: usize,
    /// [`SEEN_SOLID0`], [`SEEN_SOLID1`] and [`SEEN_KILL`].
    pub flags: u32,
    /// Offset of the trial's value within a possibly larger register.
    pub offset: i64,
}

impl AncestorState {
    /// The node for the read of input `slot` of `op`.
    pub fn new(op: OpId, slot: usize) -> (r: AncestorState)
        ensures
            r == (AncestorState { op, slot, flags: 0, offset: 0 }),
    {
        AncestorState { op, slot, flags: 0, offset: 0 }
    }

    /// The input slot on which a solid movement was seen: 0 when it was slot 0, else 1.
    pub fn solid_slot(&self) -> (r: usize)
        ensures
            r == if self.flags & SEEN_SOLID0 != 0 { 0usize } else { 1usize },
    {
        if self.flags & SEEN_SOLID0 != 0 {
            0
        } else {
            1
        }
    }

    /// Record a solid movement through input slot `s`.
    pub fn mark_solid(&mut self, s: usize)
        ensures
            *final(self) == (AncestorState {
                flags: old(self).flags | if s == 0 { SEEN_SOLID0 } else { SEEN_SOLID1 },
                ..*old(self)
            }),
    {
        self.flags = self.flags | if s == 0 { SEEN_SOLID0 } else { SEEN_SOLID1 };
    }

    /// Record a value killed by a call.
    pub fn mark_kill(&mut self)
        ensures
            *final(self) == (AncestorState { flags: old(self).flags | SEEN_KILL, ..*old(self) }),
    {
        self.flags = self.flags | SEEN_KILL;
    }

    /// A solid movement was seen on some input.
    pub fn seen_solid(&self) -> (r: bool)
        ensures
            r == (self.flags & (SEEN_SOLID0 | SEEN_SOLID1) != 0),
    {
        self.flags & (SEEN_SOLID0 | SEEN_SOLID1) != 0
    }

    /// A value killed by a call was seen on some input.
    pub fn seen_kill(&self) -> (r: bool)
        ensures
            r == (self.flags & SEEN_KILL != 0),
    {
        self.flags & SEEN_KILL != 0
    }
}

/// The next step of the walk.
#[derive(Clone, Copy, PartialEq, Eq, Structural, Debug)]
pub enum AncestorCmd {
    /// Extend the path into a new node.
    EnterNode,
    /// Back up from a path with a reasonable ancestor.
    PopSuccess,
    /// Back up from a path with solid movement (a COPY, LOAD or arithmetic).
    PopSolid,
    /// Back up from a path with a bad ancestor.
    PopFail,
    /// Back up from a path whose value a call killed.
    PopFailKill,
}

/// Where varnode `a`, moved by `skip` bytes, falls inside varnode `b`: the byte distance from
/// `b`'s start, or -1 when they are in different spaces, in the constant space, or `a` falls
/// outside `b`. A space whose largest offset cannot be folded into counts as no overlap.
pub open spec fn addr_overlap_spec(f: &Funcdata, a: VarnodeId, b: VarnodeId, skip: u64) -> int {
    let va = f.vns@[a.0 as int];
    let vb = f.vns@[b.0 as int];
    let spc = f.spaces@[va.loc.space.0 as int];
    let hs = highest_spec(spc.addr_size, spc.wordsize);
    if va.loc.space != vb.loc.space {
        -1
    } else if spc.kind == SpaceKind::Constant {
        -1
    } else if !(hs < 0x8000_0000_0000_0000 || hs == u64::MAX) {
        -1
    } else {
        let moved = va.loc.offset.wrapping_add(skip).wrapping_sub(vb.loc.offset);
        let dist = wrap_offset_spec(hs as u64, moved);
        if dist >= vb.size {
            -1
        } else {
            dist
        }
    }
}

/// The byte offset of `a`'s least significant byte inside `b`, or -1 when `a` does not lie in
/// `b`; big-endian spaces count from the other end.
pub open spec fn varnode_overlap_spec(f: &Funcdata, a: VarnodeId, b: VarnodeId) -> int {
    let va = f.vns@[a.0 as int];
    let vb = f.vns@[b.0 as int];
    if !f.spaces@[va.loc.space.0 as int].big_endian {
        addr_overlap_spec(f, a, b, 0)
    } else {
        let over = addr_overlap_spec(f, a, b, (va.size as u64).wrapping_sub(1));
        if over != -1 {
            vb.size - 1 - over
        } else {
            -1
        }
    }
}

fn addr_overlap(f: &Funcdata, a: VarnodeId, b: VarnodeId, skip: u64) -> (r: i64)
    requires
        f.wf(),
        a.0 < f.vns@.len(),
        b.0 < f.vns@.len(),
    ensures
        r == addr_overlap_spec(f, a, b, skip),
{
    let va = f.vn(a);
    let vb = f.vn(b);
    if va.loc.space != vb.loc.space {
        return -1;
    }
    proof {
        assert(f.vns@[a.0 as int].loc.space.0 < f.spaces@.len());
    }
    let spc = f.spaces.get(va.loc.space);
    if spc.kind == SpaceKind::Constant {
        return -1;
    }
    let mask: u128 = if spc.addr_size >= 8 {
        0xffff_ffff_ffff_ffff
    } else {
        proof {
            crate::space::lemma_shift_mask(spc.addr_size);
        }
        ((1u64 << (spc.addr_size * 8)) - 1) as u128
    };
    let hs: u128 = if spc.wordsize > 1 {
        proof {
            assert(mask <= 0xffff_ffff_ffff_ffff);
            assert(mask * spc.wordsize <= 0xffff_ffff_ffff_ffff * 0xffff_ffff) by (nonlinear_arith)
                requires
                    mask <= 0xffff_ffff_ffff_ffff,
                    spc.wordsize <= 0xffff_ffff,
            ;
        }
        mask * spc.wordsize as u128 + (spc.wordsize as u128 - 1)
    } else {
        mask
    };
    assert(hs == highest_spec(spc.addr_size, spc.wordsize));
    if !(hs < 0x8000_0000_0000_0000 || hs == 0xffff_ffff_ffff_ffff) {
        return -1;
    }
    let moved = va.loc.offset.wrapping_add(skip).wrapping_sub(vb.loc.offset);
    let dist = spc.wrap_offset(moved);
    if dist >= vb.size as u64 {
        return -1;
    }
    dist as i64
}

/// Where `a` lies inside `b` (see [`varnode_overlap_spec`]).
pub fn varnode_overlap(f: &Funcdata, a: VarnodeId, b: VarnodeId) -> (r: i64)
    requires
        f.wf(),
        a.0 < f.vns@.len(),
        b.0 < f.vns@.len(),
    ensures
        r == varnode_overlap_spec(f, a, b),
{
    proof {
        assert(f.vns@[a.0 as int].loc.space.0 < f.spaces@.len());
    }
    if !f.spaces.is_big_endian(f.vn(a).loc.space) {
        addr_overlap(f, a, b, 0)
    } else {
        let over = addr_overlap(f, a, b, (f.vn(a).size as u64).wrapping_sub(1));
        if over != -1 {
            f.vn(b).size as i64 - 1 - over
        } else {
            -1
        }
    }
}

/// The INDIRECT `ind` stands for the effect of a STORE (rather than of a call).
pub open spec fn indirect_is_store_spec(f: &Funcdata, ind: OpId) -> bool {
    match f.ops@[ind.0 as int].guarded_op {
        Some(g) => f.ops@[g.0 as int].opc == OpCode::Store,
        None => false,
    }
}

/// Whether the INDIRECT `ind` stands for a STORE.
pub fn indirect_is_store(f: &Funcdata, ind: OpId) -> (r: bool)
    requires
        f.wf(),
        ind.0 < f.ops@.len(),
    ensures
        r == indirect_is_store_spec(f, ind),
{
    proof {
        assert(op_wf(f.ops@[ind.0 as int], f.vns@.len(), f.ops@.len(), f.blocks@.len()));
    }
    match f.op(ind).guarded_op() {
        Some(g) => f.op(g).code() == OpCode::Store,
        None => false,
    }
}

/// The verdict on an unwritten varnode: an input calls preserve is not a parameter, a global
/// input is a valid possibility, an input not written directly is not, and anything else
/// (probably a normal parameter) is valid.
pub open spec fn unwritten_verdict(v: Varnode) -> AncestorCmd {
    if v.input {
        if v.unaffected {
            AncestorCmd::PopFail
        } else if v.persist {
            AncestorCmd::PopSuccess
        } else if !v.direct_write {
            AncestorCmd::PopFail
        } else {
            AncestorCmd::PopSuccess
        }
    } else {
        AncestorCmd::PopSuccess
    }
}

/// Walking back from the SUBPIECE or COPY `cur` through first inputs defined by COPYs and
/// SUBPIECEs, for at most `fuel` steps, meets an unvisited input that calls preserve or that
/// is not written directly.
pub open spec fn sub_walk_fails(f: &Funcdata, marked: Seq<bool>, cur: OpId, fuel: nat) -> bool
    decreases fuel,
{
    if fuel == 0 {
        false
    } else {
        let o = f.ops@[cur.0 as int];
        if o.inrefs@.len() == 0 {
            false
        } else {
            let vn = o.inrefs@[0];
            let x = f.vns@[vn.0 as int];
            if !marked[vn.0 as int] && x.input && (x.unaffected || !x.direct_write) {
                true
            } else {
                match x.def {
                    Some(d) => if f.ops@[d.0 as int].opc == OpCode::Copy || f.ops@[d.0 as int].opc == OpCode::Subpiece {
                        sub_walk_fails(f, marked, d, (fuel - 1) as nat)
                    } else {
                        false
                    },
                    None => false,
                }
            }
        }
    }
}

/// Walking back from `vn` through COPYs and SUBPIECEs (their first input) and PIECEs (their
/// least significant input), for at most `fuel` steps, meets an unvisited input not written
/// directly.
pub open spec fn copy_walk_fails(f: &Funcdata, marked: Seq<bool>, vn: VarnodeId, fuel: nat) -> bool
    decreases fuel,
{
    if fuel == 0 {
        false
    } else {
        let x = f.vns@[vn.0 as int];
        if !marked[vn.0 as int] && x.input && !x.direct_write {
            true
        } else {
            match x.def {
                None => false,
                Some(d) => {
                    let o = f.ops@[d.0 as int];
                    if (o.opc == OpCode::Copy || o.opc == OpCode::Subpiece) && o.inrefs@.len() > 0 {
                        copy_walk_fails(f, marked, o.inrefs@[0], (fuel - 1) as nat)
                    } else if o.opc == OpCode::Piece && o.inrefs@.len() > 1 {
                        copy_walk_fails(f, marked, o.inrefs@[1], (fuel - 1) as nat)
                    } else {
                        false
                    }
                },
            }
        }
    }
}

/// The step taken on entering the written varnode `vn` (defined by `def`) reached from the
/// node `st`, with `marked` the visited varnodes (`vn` among them): the command, and the node
/// pushed when the command is to enter it. An INDIRECT created by a call stops the walk
/// (killed when its first input is a created constant); an INDIRECT through a call fails for a
/// return address or a trial calls may overwrite, else it is followed; a SUBPIECE extracting to
/// internal or the same storage is followed, else it is solid movement unless the walk back
/// from it fails; a COPY to internal or the same storage is followed, else likewise; a
/// MULTIEQUAL is followed from its first input; a PIECE wider than the trial follows the piece
/// the trial's value sits in, fails outside the stack, and is otherwise solid; anything else is
/// solid movement. Ops missing the inputs these cases read are solid movement.
pub open spec fn enter_written(
    f: &Funcdata,
    st: AncestorState,
    vn: VarnodeId,
    def: OpId,
    marked: Seq<bool>,
    trial: ParamTrial,
) -> (AncestorCmd, Option<AncestorState>) {
    let v = f.vns@[vn.0 as int];
    let o = f.ops@[def.0 as int];
    let fuel = f.ops@.len() + 1;
    let internal = f.spaces@[v.loc.space.0 as int].kind == SpaceKind::Internal;
    if o.opc == OpCode::Indirect {
        if v.indirect_creation {
            if o.inrefs@.len() > 0 && f.vns@[o.inrefs@[0].0 as int].constant && f.vns@[o.inrefs@[0].0 as int].indirect_creation {
                (AncestorCmd::PopFailKill, None)
            } else {
                (AncestorCmd::PopSuccess, None)
            }
        } else if !indirect_is_store_spec(f, def) && (v.return_address || trial.killed_by_call) {
            (AncestorCmd::PopFail, None)
        } else if o.inrefs@.len() == 0 {
            (AncestorCmd::PopSolid, None)
        } else {
            (AncestorCmd::EnterNode, Some(AncestorState { op: def, slot: 0, flags: 0, offset: 0 }))
        }
    } else if o.opc == OpCode::Subpiece {
        if o.inrefs@.len() < 2 {
            (AncestorCmd::PopSolid, None)
        } else if internal || varnode_overlap_spec(f, vn, o.inrefs@[0]) == (f.vns@[o.inrefs@[1].0 as int].loc.offset as i64) as int {
            (
                AncestorCmd::EnterNode,
                Some(
                    AncestorState {
                        op: def,
                        slot: 0,
                        flags: 0,
                        offset: st.offset.wrapping_add(f.vns@[o.inrefs@[1].0 as int].loc.offset as i64),
                    },
                ),
            )
        } else if sub_walk_fails(f, marked, def, fuel as nat) {
            (AncestorCmd::PopFail, None)
        } else {
            (AncestorCmd::PopSolid, None)
        }
    } else if o.opc == OpCode::Copy {
        if o.inrefs@.len() == 0 {
            (AncestorCmd::PopSolid, None)
        } else if internal || v.loc == f.vns@[o.inrefs@[0].0 as int].loc {
            (AncestorCmd::EnterNode, Some(AncestorState { op: def, slot: 0, flags: 0, offset: 0 }))
        } else if copy_walk_fails(f, marked, o.inrefs@[0], fuel as nat) {
            (AncestorCmd::PopFail, None)
        } else {
            (AncestorCmd::PopSolid, None)
        }
    } else if o.opc == OpCode::Multiequal {
        if o.inrefs@.len() == 0 {
            (AncestorCmd::PopSolid, None)
        } else {
            (AncestorCmd::EnterNode, Some(AncestorState { op: def, slot: 0, flags: 0, offset: 0 }))
        }
    } else if o.opc == OpCode::Piece {
        if v.size > trial.size && o.inrefs@.len() >= 2 {
            let in0 = f.vns@[o.inrefs@[0].0 as int];
            let in1 = f.vns@[o.inrefs@[1].0 as int];
            if st.offset == 0 && in1.size <= trial.size {
                (AncestorCmd::EnterNode, Some(AncestorState { op: def, slot: 1, flags: 0, offset: 0 }))
            } else if st.offset == in1.size as i64 && in0.size <= trial.size {
                (AncestorCmd::EnterNode, Some(AncestorState { op: def, slot: 0, flags: 0, offset: 0 }))
            } else if f.spaces@[v.loc.space.0 as int].kind != SpaceKind::Spacebase {
                (AncestorCmd::PopFail, None)
            } else {
                (AncestorCmd::PopSolid, None)
            }
        } else {
            (AncestorCmd::PopSolid, None)
        }
    } else {
        (AncestorCmd::PopSolid, None)
    }
}

/// Through a PIECE wider than the trial, the walk follows the piece that holds the trial's
/// bytes. A PIECE lists its most-significant part first and its least-significant part last:
/// at offset 0 (the least-significant end) a low part no wider than the trial is followed
/// through the last input, at the low part's size a high part no wider than the trial through
/// the first input, each from offset 0 of that piece; a trial straddling the pieces fails
/// outside a stack space.
pub proof fn law_piece_follows_the_trials_bytes(
    f: &Funcdata,
    st: AncestorState,
    vn: VarnodeId,
    def: OpId,
    marked: Seq<bool>,
    trial: ParamTrial,
)
    requires
        f.ops@[def.0 as int].opc == OpCode::Piece,
        f.ops@[def.0 as int].inrefs@.len() == 2,
        f.vns@[vn.0 as int].size > trial.size,
    ensures
        ({
            let o = f.ops@[def.0 as int];
            let hi = f.vns@[o.inrefs@[0].0 as int];
            let lo = f.vns@[o.inrefs@[1].0 as int];
            let (cmd, push) = enter_written(f, st, vn, def, marked, trial);
            &&& st.offset == 0 && lo.size <= trial.size ==> cmd == AncestorCmd::EnterNode && push == Some(
                AncestorState { op: def, slot: (o.inrefs@.len() - 1) as usize, flags: 0, offset: 0 },
            )
            &&& st.offset != 0 && st.offset == lo.size as i64 && hi.size <= trial.size ==> cmd == AncestorCmd::EnterNode
                && push == Some(AncestorState { op: def, slot: 0, flags: 0, offset: 0 })
            &&& !(st.offset == 0 && lo.size <= trial.size) && !(st.offset == lo.size as i64 && hi.size <= trial.size)
                && f.spaces@[f.vns@[vn.0 as int].loc.space.0 as int].kind != SpaceKind::Spacebase ==> cmd == AncestorCmd::PopFail
                && push is None
        }),
{
}

/// Reaching a value written by an INDIRECT: one the INDIRECT created ends the path well,
/// unless the INDIRECT's own input is a created constant, which fails it for good; a
/// return address, or any value of a trial a call kills, written by an INDIRECT that does not
/// stand for a store fails the path; otherwise the walk goes on into the INDIRECT's input.
pub proof fn law_walk_through_indirect(
    f: &Funcdata,
    st: AncestorState,
    vn: VarnodeId,
    def: OpId,
    marked: Seq<bool>,
    trial: ParamTrial,
)
    requires
        f.ops@[def.0 as int].opc == OpCode::Indirect,
        f.ops@[def.0 as int].inrefs@.len() >= 1,
    ensures
        ({
            let o = f.ops@[def.0 as int];
            let v = f.vns@[vn.0 as int];
            let in0 = f.vns@[o.inrefs@[0].0 as int];
            let (cmd, push) = enter_written(f, st, vn, def, marked, trial);
            &&& v.indirect_creation && !(in0.constant && in0.indirect_creation) ==> cmd == AncestorCmd::PopSuccess
            &&& v.indirect_creation && in0.constant && in0.indirect_creation ==> cmd == AncestorCmd::PopFailKill
            &&& !v.indirect_creation && !indirect_is_store_spec(f, def) && (v.return_address || trial.killed_by_call)
                ==> cmd == AncestorCmd::PopFail
            &&& !v.indirect_creation && (indirect_is_store_spec(f, def) || !(v.return_address || trial.killed_by_call))
                ==> cmd == AncestorCmd::EnterNode && push == Some(AncestorState { op: def, slot: 0, flags: 0, offset: 0 })
        }),
{
}

/// The walk goes back through the value-carrying ops: a MULTIEQUAL from its first input, a
/// COPY into the same storage from its input, and a SUBPIECE that keeps its input's bytes in
/// place (or one in internal storage) into its input, with the offset moved by the bytes the
/// SUBPIECE drops; each time from the op's input, never changing the trial.
pub proof fn law_walk_follows_values(
    f: &Funcdata,
    st: AncestorState,
    vn: VarnodeId,
    def: OpId,
    marked: Seq<bool>,
    trial: ParamTrial,
)
    requires
        f.ops@[def.0 as int].inrefs@.len() >= 1,
    ensures
        ({
            let o = f.ops@[def.0 as int];
            let v = f.vns@[vn.0 as int];
            let (cmd, push) = enter_written(f, st, vn, def, marked, trial);
            &&& o.opc == OpCode::Multiequal ==> cmd == AncestorCmd::EnterNode && push == Some(
                AncestorState { op: def, slot: 0, flags: 0, offset: 0 },
            )
            &&& o.opc == OpCode::Copy && v.loc == f.vns@[o.inrefs@[0].0 as int].loc ==> cmd == AncestorCmd::EnterNode && push
                == Some(AncestorState { op: def, slot: 0, flags: 0, offset: 0 })
            &&& o.opc == OpCode::Subpiece && o.inrefs@.len() >= 2 && varnode_overlap_spec(f, vn, o.inrefs@[0]) == (f.vns@[o.inrefs@[1].0 as int].loc.offset as i64) as int
                ==> cmd == AncestorCmd::EnterNode && push == Some(
                AncestorState {
                    op: def,
                    slot: 0,
                    flags: 0,
                    offset: st.offset.wrapping_add(f.vns@[o.inrefs@[1].0 as int].loc.offset as i64),
                },
            )
        }),
{
}

/// A node names an existing op and one of its input slots.
pub open spec fn state_ok(f: &Funcdata, s: AncestorState) -> bool {
    s.op.0 < f.ops@.len() && s.slot < f.ops@[s.op.0 as int].inrefs@.len() && s.slot < usize::MAX
}

/// The conditions for the trial value to be realistic enough (see the module documentation).
pub struct AncestorRealistic {
    state_stack: Vec<AncestorState>,
    /// The varnodes already entered, by index.
    marked: Vec<bool>,
    /// How many MULTIEQUALs are on the current path.
    multi_depth: i32,
    /// Whether a failing path due to conditional execution is allowed (and tested for).
    allow_failing_path: bool,
}

impl AncestorRealistic {
    /// Every node on the stack is valid and `marked` covers every varnode.
    spec fn inv(&self, f: &Funcdata) -> bool {
        &&& f.wf()
        &&& self.marked@.len() == f.vns@.len()
        &&& forall|k: int| 0 <= k < self.state_stack@.len() ==> state_ok(f, #[trigger] self.state_stack@[k])
    }

    /// The node on top of the stack.
    spec fn top(&self) -> AncestorState {
        self.state_stack@.last()
    }

    /// The varnode the top node reads.
    spec fn top_vn(&self, f: &Funcdata) -> VarnodeId {
        f.ops@[self.top().op.0 as int].inrefs@[self.top().slot as int]
    }

    /// Nothing on the stack, nothing entered, no MULTIEQUAL on the path, no failing path allowed.
    pub closed spec fn idle(&self) -> bool {
        &&& self.state_stack@.len() == 0
        &&& self.marked@.len() == 0
        &&& self.multi_depth == 0
        &&& !self.allow_failing_path
    }

    /// A walker with nothing walked yet.
    pub fn new() -> (r: AncestorRealistic)
        ensures
            r.idle(),
    {
        AncestorRealistic { state_stack: Vec::new(), marked: Vec::new(), multi_depth: 0, allow_failing_path: false }
    }

    /// Enter the node on top of the stack. A varnode already entered succeeds (the first path
    /// through it decides); an unwritten one gets [`unwritten_verdict`]; a written one is marked
    /// entered and handled by [`enter_written`], the node it names pushed when the walk goes
    /// on, counting MULTIEQUALs on the path.
    fn enter_node(&mut self, f: &Funcdata, trial: &mut ParamTrial) -> (r: AncestorCmd)
        requires
            old(self).inv(f),
            old(self).state_stack@.len() > 0,
        ensures
            final(self).inv(f),
            final(self).allow_failing_path == old(self).allow_failing_path,
            ({
                let vn = old(self).top_vn(f);
                let v = f.vns@[vn.0 as int];
                if old(self).marked@[vn.0 as int] {
                    r == AncestorCmd::PopSuccess && *final(self) == *old(self) && *final(trial) == *old(trial)
                } else if v.def is None {
                    r == unwritten_verdict(v) && *final(self) == *old(self) && *final(trial) == *old(trial)
                } else {
                    let def = v.def.unwrap();
                    let marked = old(self).marked@.update(vn.0 as int, true);
                    let (cmd, push) = enter_written(f, old(self).top(), vn, def, marked, *old(trial));
                    &&& r == cmd
                    &&& final(self).marked@ == marked
                    &&& final(self).state_stack@ == match push {
                        Some(s) => old(self).state_stack@.push(s),
                        None => old(self).state_stack@,
                    }
                    &&& final(self).multi_depth == if f.ops@[def.0 as int].opc == OpCode::Multiequal && push is Some {
                        old(self).multi_depth.wrapping_add(1)
                    } else {
                        old(self).multi_depth
                    }
                    &&& *final(trial) == if f.ops@[def.0 as int].opc == OpCode::Indirect && v.indirect_creation {
                        ParamTrial { ind_create_formed: true, ..*old(trial) }
                    } else {
                        *old(trial)
                    }
                }
            }),
    {
        let n = self.state_stack.len();
        let state = self.state_stack[n - 1];
        proof {
            assert(state_ok(f, self.state_stack@[n - 1]));
            assert(op_wf(f.ops@[state.op.0 as int], f.vns@.len(), f.ops@.len(), f.blocks@.len()));
        }
        let state_vn = f.op(state.op).inrefs[state.slot];
        if self.marked[state_vn.0] {
            return AncestorCmd::PopSuccess;
        }
        let v = f.vn(state_vn);
        proof {
            assert(vn_wf(f.vns@[state_vn.0 as int], f.ops@.len()));
        }
        let op = match v.def {
            None => {
                if v.is_input() {
                    if v.is_unaffected() {
                        return AncestorCmd::PopFail;
                    }
                    if v.is_persist() {
                        return AncestorCmd::PopSuccess;
                    }
                    if !v.is_direct_write() {
                        return AncestorCmd::PopFail;
                    }
                }
                return AncestorCmd::PopSuccess;
            },
            Some(d) => d,
        };
        self.marked.set(state_vn.0, true);
        proof {
            assert(op_wf(f.ops@[op.0 as int], f.vns@.len(), f.ops@.len(), f.blocks@.len()));
            assert(v.loc.space.0 < f.spaces@.len());
        }
        let o = f.op(op);
        let code = o.code();
        let nin = o.inrefs.len();
        let internal = f.spaces.get(v.loc.space).kind == SpaceKind::Internal;
        let fuel = f.ops.len();
        if code == OpCode::Indirect {
            if v.is_indirect_creation() {
                trial.ind_create_formed = true;
                if nin > 0 && f.vn(o.inrefs[0]).is_constant() && f.vn(o.inrefs[0]).is_indirect_creation() {
                    return AncestorCmd::PopFailKill;
                }
                return AncestorCmd::PopSuccess;
            }
            if !indirect_is_store(f, op) {
                if v.is_return_address() {
                    return AncestorCmd::PopFail;
                }
                if trial.killed_by_call {
                    return AncestorCmd::PopFail;
                }
            }
            if nin == 0 {
                return AncestorCmd::PopSolid;
            }
            self.state_stack.push(AncestorState::new(op, 0));
            return AncestorCmd::EnterNode;
        } else if code == OpCode::Subpiece {
            if nin < 2 {
                return AncestorCmd::PopSolid;
            }
            let in0 = o.inrefs[0];
            let in1 = o.inrefs[1];
            if internal || varnode_overlap(f, state_vn, in0) == f.vn(in1).loc.offset as i64 {
                let off = state.offset.wrapping_add(f.vn(in1).loc.offset as i64);
                self.state_stack.push(AncestorState { op, slot: 0, flags: 0, offset: off });
                return AncestorCmd::EnterNode;
            }
            if self.sub_walk(f, op, fuel) {
                return AncestorCmd::PopFail;
            }
            return AncestorCmd::PopSolid;
        } else if code == OpCode::Copy {
            if nin == 0 {
                return AncestorCmd::PopSolid;
            }
            let in0 = o.inrefs[0];
            if internal || v.loc == f.vn(in0).loc {
                self.state_stack.push(AncestorState::new(op, 0));
                return AncestorCmd::EnterNode;
            }
            if self.copy_walk(f, in0, fuel) {
                return AncestorCmd::PopFail;
            }
            return AncestorCmd::PopSolid;
        } else if code == OpCode::Multiequal {
            if nin == 0 {
                return AncestorCmd::PopSolid;
            }
            self.multi_depth = self.multi_depth.wrapping_add(1);
            self.state_stack.push(AncestorState::new(op, 0));
            return AncestorCmd::EnterNode;
        } else if code == OpCode::Piece {
            if v.size > trial.size && nin >= 2 {
                let in0 = o.inrefs[0];
                let in1 = o.inrefs[1];
                if state.offset == 0 && f.vn(in1).size <= trial.size {
                    self.state_stack.push(AncestorState::new(op, 1));
                    return AncestorCmd::EnterNode;
                } else if state.offset == f.vn(in1).size as i64 && f.vn(in0).size <= trial.size {
                    self.state_stack.push(AncestorState::new(op, 0));
                    return AncestorCmd::EnterNode;
                }
                if f.spaces.get(v.loc.space).kind != SpaceKind::Spacebase {
                    return AncestorCmd::PopFail;
                }
            }
            return AncestorCmd::PopSolid;
        }
        AncestorCmd::PopSolid
    }

    /// [`sub_walk_fails`] from `cur`.
    fn sub_walk(&self, f: &Funcdata, cur: OpId, fuel: usize) -> (r: bool)
        requires
            self.inv(f),
            cur.0 < f.ops@.len(),
        ensures
            r == sub_walk_fails(f, self.marked@, cur, fuel as nat + 1),
        decreases fuel,
    {
        proof {
            assert(op_wf(f.ops@[cur.0 as int], f.vns@.len(), f.ops@.len(), f.blocks@.len()));
        }
        let o = f.op(cur);
        if o.inrefs.len() == 0 {
            return false;
        }
        let vn = o.inrefs[0];
        let x = f.vn(vn);
        if !self.marked[vn.0] && x.is_input() && (x.is_unaffected() || !x.is_direct_write()) {
            return true;
        }
        proof {
            assert(vn_wf(f.vns@[vn.0 as int], f.ops@.len()));
        }
        match x.def {
            Some(d) => {
                let c = f.op(d).code();
                if c == OpCode::Copy || c == OpCode::Subpiece {
                    if fuel == 0 {
                        assert(!sub_walk_fails(f, self.marked@, d, 0));
                        return false;
                    }
                    self.sub_walk(f, d, fuel - 1)
                } else {
                    false
                }
            },
            None => false,
        }
    }

    /// [`copy_walk_fails`] from `vn`.
    fn copy_walk(&self, f: &Funcdata, vn: VarnodeId, fuel: usize) -> (r: bool)
        requires
            self.inv(f),
            vn.0 < f.vns@.len(),
        ensures
            r == copy_walk_fails(f, self.marked@, vn, fuel as nat + 1),
        decreases fuel,
    {
        let x = f.vn(vn);
        if !self.marked[vn.0] && x.is_input() && !x.is_direct_write() {
            return true;
        }
        proof {
            assert(vn_wf(f.vns@[vn.0 as int], f.ops@.len()));
        }
        let d = match x.def {
            None => return false,
            Some(d) => d,
        };
        proof {
            assert(op_wf(f.ops@[d.0 as int], f.vns@.len(), f.ops@.len(), f.blocks@.len()));
        }
        let o = f.op(d);
        let c = o.code();
        if (c == OpCode::Copy || c == OpCode::Subpiece) && o.inrefs.len() > 0 {
            if fuel == 0 {
                assert(!copy_walk_fails(f, self.marked@, o.inrefs@[0], 0));
                return false;
            }
            self.copy_walk(f, o.inrefs[0], fuel - 1)
        } else if c == OpCode::Piece && o.inrefs.len() > 1 {
            if fuel == 0 {
                assert(!copy_walk_fails(f, self.marked@, o.inrefs@[1], 0));
                return false;
            }
            self.copy_walk(f, o.inrefs[1], fuel - 1)
        } else {
            false
        }
    }
}

/// `s` with a solid movement through input slot `slot` recorded.
pub open spec fn solid_marked(s: AncestorState, slot: usize) -> AncestorState {
    AncestorState { flags: s.flags | if slot == 0 { SEEN_SOLID0 } else { SEEN_SOLID1 }, ..s }
}

/// `s` with a killed value recorded.
pub open spec fn kill_marked(s: AncestorState) -> AncestorState {
    AncestorState { flags: s.flags | SEEN_KILL, ..s }
}

/// The MULTIEQUAL node `s` joins exactly two paths, and the block on the path of the solid
/// movement has no other way out: the failing path may be due to conditional execution.
pub open spec fn cond_exe_spec(f: &Funcdata, s: AncestorState) -> bool {
    match f.ops@[s.op.0 as int].parent {
        None => false,
        Some(bl) => {
            let b = f.blocks@[bl.0 as int];
            let solid = if s.flags & SEEN_SOLID0 != 0 { 0int } else { 1int };
            b.in_edges@.len() == 2 && f.blocks@[b.in_edges@[solid].0 as int].out_edges@.len() == 1
        },
    }
}

/// Whether the node `s` at a MULTIEQUAL can put its failing path down to conditional
/// execution (see [`cond_exe_spec`]).
pub fn check_conditional_exe(f: &Funcdata, s: &AncestorState) -> (r: bool)
    requires
        f.wf(),
        s.op.0 < f.ops@.len(),
    ensures
        r == cond_exe_spec(f, *s),
{
    proof {
        assert(op_wf(f.ops@[s.op.0 as int], f.vns@.len(), f.ops@.len(), f.blocks@.len()));
    }
    let bl = match f.op(s.op).parent {
        None => return false,
        Some(b) => b,
    };
    proof {
        assert(block_wf(f.blocks@[bl.0 as int], f.ops@.len(), f.blocks@.len()));
    }
    let b = f.block(bl);
    if b.in_edges.len() != 2 {
        return false;
    }
    let solid_block = b.in_edges[s.solid_slot()];
    if f.block(solid_block).out_edges.len() != 1 {
        return false;
    }
    true
}

/// The outcome of a MULTIEQUAL all of whose inputs were walked, given the node before it
/// (`prev`, holding what the paths showed) and its own node `top`: success when a solid
/// movement was seen, unless a killed value was seen too, which fails unless failing paths
/// are allowed and this one is down to conditional execution; a killed value alone fails as
/// killed; neither is a success.
pub open spec fn join_verdict(f: &Funcdata, prev: AncestorState, top: AncestorState, allow: bool) -> AncestorCmd {
    if prev.flags & (SEEN_SOLID0 | SEEN_SOLID1) != 0 {
        if prev.flags & SEEN_KILL != 0 {
            if allow && cond_exe_spec(f, top) {
                AncestorCmd::PopSuccess
            } else {
                AncestorCmd::PopFail
            }
        } else {
            AncestorCmd::PopSuccess
        }
    } else if prev.flags & SEEN_KILL != 0 {
        AncestorCmd::PopFailKill
    } else {
        AncestorCmd::PopSuccess
    }
}

impl AncestorRealistic {
    /// Back up from the node on top of the stack with `pop`. At a MULTIEQUAL (with a node
    /// before it): a failure is passed on at once; otherwise a solid movement (at the first
    /// MULTIEQUAL of the path, of two inputs) or a killed value is recorded on the node before,
    /// and the walk moves to the next input; after the last input the MULTIEQUAL is left with
    /// [`join_verdict`], and a success despite a killed value slates the trial for a second look
    /// (`cond_exe_effect`). Any other node is simply left, passing `pop` on.
    fn upon_pop(&mut self, f: &Funcdata, trial: &mut ParamTrial, pop: AncestorCmd) -> (r: AncestorCmd)
        requires
            old(self).inv(f),
            old(self).state_stack@.len() > 0,
            pop != AncestorCmd::EnterNode,
        ensures
            final(self).inv(f),
            final(self).marked == old(self).marked,
            final(self).allow_failing_path == old(self).allow_failing_path,
            ({
                let st = old(self).state_stack@;
                let n = st.len() as int;
                let top = st[n - 1];
                let num = f.ops@[top.op.0 as int].inrefs@.len();
                let md = old(self).multi_depth;
                if f.ops@[top.op.0 as int].opc == OpCode::Multiequal && n >= 2 {
                    if pop == AncestorCmd::PopFail {
                        &&& r == AncestorCmd::PopFail
                        &&& final(self).state_stack@ == st.drop_last()
                        &&& final(self).multi_depth == md.wrapping_sub(1)
                        &&& *final(trial) == *old(trial)
                    } else {
                        let prev = st[n - 2];
                        let prev1 = if pop == AncestorCmd::PopSolid && md == 1 && num == 2 {
                            solid_marked(prev, top.slot)
                        } else if pop == AncestorCmd::PopFailKill {
                            kill_marked(prev)
                        } else {
                            prev
                        };
                        let top1 = AncestorState { slot: (top.slot + 1) as usize, ..top };
                        if top1.slot == num {
                            let v = join_verdict(f, prev1, top1, old(self).allow_failing_path);
                            let slated = prev1.flags & (SEEN_SOLID0 | SEEN_SOLID1) != 0 && prev1.flags & SEEN_KILL != 0
                                && old(self).allow_failing_path && cond_exe_spec(f, top1);
                            &&& r == v
                            &&& final(self).state_stack@ == st.update(n - 2, prev1).drop_last()
                            &&& final(self).multi_depth == md.wrapping_sub(1)
                            &&& *final(trial) == if slated {
                                ParamTrial { cond_exe_effect: true, ..*old(trial) }
                            } else {
                                *old(trial)
                            }
                        } else {
                            &&& r == AncestorCmd::EnterNode
                            &&& final(self).state_stack@ == st.update(n - 2, prev1).update(n - 1, top1)
                            &&& final(self).multi_depth == md
                            &&& *final(trial) == *old(trial)
                        }
                    }
                } else {
                    &&& r == pop
                    &&& final(self).state_stack@ == st.drop_last()
                    &&& final(self).multi_depth == md
                    &&& *final(trial) == *old(trial)
                }
            }),
    {
        let n = self.state_stack.len();
        let top = self.state_stack[n - 1];
        proof {
            assert(state_ok(f, self.state_stack@[n - 1]));
        }
        if f.op(top.op).code() == OpCode::Multiequal && n >= 2 {
            let num = f.op(top.op).num_inputs();
            if pop == AncestorCmd::PopFail {
                self.multi_depth = self.multi_depth.wrapping_sub(1);
                self.state_stack.pop();
                return AncestorCmd::PopFail;
            }
            let mut prev = self.state_stack[n - 2];
            if pop == AncestorCmd::PopSolid && self.multi_depth == 1 && num == 2 {
                prev.mark_solid(top.slot);
            } else if pop == AncestorCmd::PopFailKill {
                prev.mark_kill();
            }
            self.state_stack.set(n - 2, prev);
            let top1 = AncestorState { slot: top.slot + 1, ..top };
            self.state_stack.set(n - 1, top1);
            if top1.slot == num {
                let mut cmd = AncestorCmd::PopSuccess;
                if prev.seen_solid() {
                    if prev.seen_kill() {
                        if self.allow_failing_path {
                            if !check_conditional_exe(f, &top1) {
                                cmd = AncestorCmd::PopFail;
                            } else {
                                trial.cond_exe_effect = true;
                            }
                        } else {
                            cmd = AncestorCmd::PopFail;
                        }
                    }
                } else if prev.seen_kill() {
                    cmd = AncestorCmd::PopFailKill;
                }
                self.multi_depth = self.multi_depth.wrapping_sub(1);
                self.state_stack.pop();
                proof {
                    assert(self.state_stack@ =~= old(self).state_stack@.update(n - 2, prev).drop_last());
                }
                return cmd;
            }
            proof {
                assert forall|k: int| 0 <= k < self.state_stack@.len() implies state_ok(f, #[trigger] self.state_stack@[k]) by {
                    assert(state_ok(f, old(self).state_stack@[k]));
                }
            }
            return AncestorCmd::EnterNode;
        }
        self.state_stack.pop();
        pop
    }
}

/// How many varnodes are not yet entered.
pub open spec fn unmarked(m: Seq<bool>) -> nat
    decreases m.len(),
{
    if m.len() == 0 {
        0
    } else {
        unmarked(m.drop_last()) + if m.last() { 0nat } else { 1nat }
    }
}

/// How many input slots the nodes on the stack have yet to walk (counting the current one).
pub open spec fn remaining(f: &Funcdata, st: Seq<AncestorState>) -> nat
    decreases st.len(),
{
    if st.len() == 0 {
        0
    } else {
        remaining(f, st.drop_last()) + slots_left(f, st.last())
    }
}

/// The input slots of the node's op from its current one on.
pub open spec fn slots_left(f: &Funcdata, s: AncestorState) -> nat {
    let len = f.ops@[s.op.0 as int].inrefs@.len();
    if s.slot < len {
        (len - s.slot) as nat
    } else {
        0
    }
}

/// Entering a varnode lowers the count of those not entered.
proof fn lemma_unmarked_update(m: Seq<bool>, i: int)
    requires
        0 <= i < m.len(),
        !m[i],
    ensures
        unmarked(m.update(i, true)) + 1 == unmarked(m),
    decreases m.len(),
{
    if i < m.len() - 1 {
        assert(m.update(i, true).drop_last() =~= m.drop_last().update(i, true));
        lemma_unmarked_update(m.drop_last(), i);
    } else {
        assert(m.update(i, true).drop_last() =~= m.drop_last());
    }
}

/// Replacing a node by one with the same op and slot leaves the count of slots unchanged.
proof fn lemma_remaining_update(f: &Funcdata, st: Seq<AncestorState>, k: int, s: AncestorState)
    requires
        0 <= k < st.len(),
        slots_left(f, s) == slots_left(f, st[k]),
    ensures
        remaining(f, st.update(k, s)) == remaining(f, st),
    decreases st.len(),
{
    if k < st.len() - 1 {
        assert(st.update(k, s).drop_last() =~= st.drop_last().update(k, s));
        lemma_remaining_update(f, st.drop_last(), k, s);
    } else {
        assert(st.update(k, s).drop_last() =~= st.drop_last());
    }
}

/// The trial's facts other than those the walk sets are unchanged, and the walk's own marks
/// are only ever set.
pub open spec fn walk_frame(a: ParamTrial, b: ParamTrial) -> bool {
    &&& b == (ParamTrial {
        ind_create_formed: b.ind_create_formed,
        cond_exe_effect: b.cond_exe_effect,
        ancestor_realistic: b.ancestor_realistic,
        ancestor_solid: b.ancestor_solid,
        ..a
    })
    &&& a.ind_create_formed ==> b.ind_create_formed
    &&& a.cond_exe_effect ==> b.cond_exe_effect
}

impl AncestorRealistic {
    /// Walk the ancestors of input `slot` of `op` for `trial`, allowing (and testing for)
    /// failing paths due to conditional execution when `allow_fail`. Returns whether the value
    /// is realistic, recording that on the trial, and whether the movement into it is solid.
    /// A slot `op` does not have, or a function input as the value itself (unless the trial
    /// was slated for a second look), is not realistic; the trial is then left as it was.
    pub fn execute(&mut self, f: &Funcdata, op: OpId, slot: usize, trial: &mut ParamTrial, allow_fail: bool) -> (r: bool)
        requires
            f.wf(),
            op.0 < f.ops@.len(),
        ensures
            walk_frame(*old(trial), *final(trial)),
            slot >= f.ops@[op.0 as int].inrefs@.len() ==> !r && *final(trial) == *old(trial),
            slot < f.ops@[op.0 as int].inrefs@.len() && f.vns@[f.ops@[op.0 as int].inrefs@[slot as int].0 as int].input
                && !old(trial).cond_exe_effect ==> !r && *final(trial) == *old(trial),
            r ==> final(trial).ancestor_realistic,
            !r ==> final(trial).ancestor_realistic == old(trial).ancestor_realistic,
            final(trial).ancestor_solid != old(trial).ancestor_solid ==> r && final(trial).ancestor_solid,
            slot < f.ops@[op.0 as int].inrefs@.len() && ({
                let v = f.vns@[f.ops@[op.0 as int].inrefs@[slot as int].0 as int];
                v.def is None && !(v.input && !old(trial).cond_exe_effect)
            }) ==> r == (unwritten_verdict(f.vns@[f.ops@[op.0 as int].inrefs@[slot as int].0 as int]) == AncestorCmd::PopSuccess),
    {
        self.allow_failing_path = allow_fail;
        let nv = f.num_varnodes();
        let mut marked: Vec<bool> = Vec::new();
        let mut i: usize = 0;
        while i < nv
            invariant
                i <= nv,
                marked@.len() == i,
                forall|j: int| 0 <= j < i ==> !(#[trigger] marked@[j]),
            decreases nv - i,
        {
            marked.push(false);
            i += 1;
        }
        self.marked = marked;
        self.state_stack = Vec::new();
        self.multi_depth = 0;
        if slot >= f.op(op).num_inputs() {
            return false;
        }
        proof {
            assert(op_wf(f.ops@[op.0 as int], f.vns@.len(), f.ops@.len(), f.blocks@.len()));
        }
        let vn = f.op(op).inrefs[slot];
        if f.vn(vn).is_input() && !trial.cond_exe_effect {
            return false;
        }
        let mut command = AncestorCmd::EnterNode;
        self.state_stack.push(AncestorState::new(op, slot));
        let ghost t0 = *trial;
        let ghost rv = f.vns@[vn.0 as int];
        let ghost unwritten = rv.def is None;
        proof {
            assert(self.marked@[vn.0 as int] == false) by {
                assert(op_wf(f.ops@[op.0 as int], f.vns@.len(), f.ops@.len(), f.blocks@.len()));
            }
        }
        while self.state_stack.len() > 0
            invariant
                self.inv(f),
                walk_frame(t0, *trial),
                trial.ancestor_realistic == t0.ancestor_realistic,
                trial.ancestor_solid == t0.ancestor_solid,
                op.0 < f.ops@.len(),
                slot < f.ops@[op.0 as int].inrefs@.len(),
                vn == f.ops@[op.0 as int].inrefs@[slot as int],
                rv == f.vns@[vn.0 as int],
                unwritten == (rv.def is None),
                unwritten ==> {
                    ||| self.state_stack@ == seq![AncestorState { op, slot, flags: 0, offset: 0 }] && command
                        == AncestorCmd::EnterNode && !self.marked@[vn.0 as int]
                    ||| self.state_stack@ == seq![AncestorState { op, slot, flags: 0, offset: 0 }] && command
                        == unwritten_verdict(rv)
                    ||| self.state_stack@.len() == 0 && command == unwritten_verdict(rv)
                },
            decreases
                unmarked(self.marked@),
                remaining(f, self.state_stack@),
                self.state_stack@.len(),
                if command == AncestorCmd::EnterNode { 1nat } else { 0nat },
        {
            let ghost s0 = *self;
            let n = self.state_stack.len();
            proof {
                assert(state_ok(f, s0.state_stack@[n - 1]));
                assert(s0.state_stack@ == s0.state_stack@.drop_last().push(s0.state_stack@[n - 1]));
            }
            if command == AncestorCmd::EnterNode {
                command = self.enter_node(f, trial);
                proof {
                    let vn = s0.top_vn(f);
                    assert(vn.0 < f.vns@.len()) by {
                        assert(op_wf(f.ops@[s0.top().op.0 as int], f.vns@.len(), f.ops@.len(), f.blocks@.len()));
                    }
                    if !s0.marked@[vn.0 as int] && f.vns@[vn.0 as int].def is Some {
                        lemma_unmarked_update(s0.marked@, vn.0 as int);
                        assert(unmarked(self.marked@) < unmarked(s0.marked@));
                    } else {
                        assert(*self == s0);
                    }
                }
            } else {
                let ghost pop = command;
                command = self.upon_pop(f, trial, command);
                proof {
                    let st = s0.state_stack@;
                    let top = st[n - 1];
                    let num = f.ops@[top.op.0 as int].inrefs@.len();
                    let md = s0.multi_depth;
                    if f.ops@[top.op.0 as int].opc == OpCode::Multiequal && n >= 2 && pop != AncestorCmd::PopFail {
                        let prev = st[n - 2];
                        let prev1 = if pop == AncestorCmd::PopSolid && md == 1 && num == 2 {
                            solid_marked(prev, top.slot)
                        } else if pop == AncestorCmd::PopFailKill {
                            kill_marked(prev)
                        } else {
                            prev
                        };
                        let top1 = AncestorState { slot: (top.slot + 1) as usize, ..top };
                        lemma_remaining_update(f, st, n - 2, prev1);
                        let mid = st.update(n - 2, prev1);
                        if top1.slot != num {
                            let after = mid.update(n - 1, top1);
                            assert(self.state_stack@ == after);
                            assert(after.drop_last() =~= mid.drop_last());
                            assert(after.last() == top1);
                            assert(mid.last() == top);
                            assert(state_ok(f, top));
                            assert(slots_left(f, top1) + 1 == slots_left(f, top));
                            assert(remaining(f, after) == remaining(f, after.drop_last()) + slots_left(f, after.last()));
                            assert(remaining(f, mid) == remaining(f, mid.drop_last()) + slots_left(f, top));
                            assert(remaining(f, self.state_stack@) < remaining(f, st));
                        } else {
                            assert(remaining(f, self.state_stack@) <= remaining(f, st));
                            assert(self.state_stack@.len() < st.len());
                        }
                    } else {
                        assert(self.state_stack@ == st.drop_last());
                        assert(remaining(f, self.state_stack@) <= remaining(f, st));
                    }
                }
            }
        }
        match command {
            AncestorCmd::PopSuccess => {
                trial.ancestor_realistic = true;
                true
            },
            AncestorCmd::PopSolid => {
                trial.ancestor_realistic = true;
                trial.ancestor_solid = true;
                true
            },
            _ => false,
        }
    }
}

} // verus!
