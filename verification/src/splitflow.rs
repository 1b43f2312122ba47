//! Splitting artificially joined values. When a wide value is built by a PIECE that then flows
//! through INDIRECTs or MULTIEQUALs and is read back by a SUBPIECE of its high part, the two halves
//! are logically independent: the split is traced through the data-flow and each half is
//! rewritten as a value of its own. The trace only reads the function and builds a plan
//! ([`TransformManager`]); the plan is applied once the trace has succeeded everywhere.

use vstd::prelude::*;

use crate::funcdata::{lemma_descend_member, op_wf, vn_wf, Funcdata, OpId, VarnodeId};
use crate::opcode::OpCode;
use crate::transform::{extends, lemma_extends_trans, planned, tvar_wf, LaneDescription, TOpKind, TransformManager};

verus! {

/// How many varnodes are not yet split.
pub open spec fn unmarked(m: Seq<Option<usize>>) -> nat
    decreases m.len(),
{
    if m.len() == 0 {
        0
    } else {
        unmarked(m.drop_last()) + if m.last() is None { 1nat } else { 0nat }
    }
}

proof fn lemma_unmarked_update(m: Seq<Option<usize>>, i: int, b: usize)
    requires
        0 <= i < m.len(),
        m[i] is None,
    ensures
        unmarked(m.update(i, Some(b))) + 1 == unmarked(m),
    decreases m.len(),
{
    let n = m.update(i, Some(b));
    if i < m.len() - 1 {
        assert(n.drop_last() =~= m.drop_last().update(i, Some(b)));
        lemma_unmarked_update(m.drop_last(), i, b);
    } else {
        assert(n.drop_last() =~= m.drop_last());
    }
}

/// Some placeholder op of `tm` replaces op `d`.
pub open spec fn replaces(tm: &TransformManager, d: OpId) -> bool {
    exists|k: int| 0 <= k < tm.ops@.len() && (#[trigger] tm.ops@[k]).kind == TOpKind::Replace && tm.ops@[k].op == d
}

/// The writer of the varnode placeholder `x` stands for.
pub open spec fn orig_def(f: &Funcdata, x: crate::transform::TransformVar) -> Option<OpId> {
    match x.vn {
        Some(v) => f.vns@[v.0 as int].def,
        None => None,
    }
}

/// `b` is `a` after more of the trace: the plan extended, the lanes the same, no more left to
/// trace.
pub open spec fn progressed(a: &SplitFlow, b: &SplitFlow) -> bool {
    &&& extends(&a.tm, &b.tm)
    &&& b.lane_description == a.lane_description
    &&& b.budget() <= a.budget()
}

proof fn lemma_chain(a: &SplitFlow, b: &SplitFlow, c: &SplitFlow)
    requires
        progressed(a, b),
        progressed(b, c),
    ensures
        progressed(a, c),
{
    lemma_extends_trans(&a.tm, &b.tm, &c.tm);
}

proof fn lemma_replaces_extends(a: &TransformManager, b: &TransformManager, d: OpId)
    requires
        replaces(a, d),
        extends(a, b),
    ensures
        replaces(b, d),
{
    let k = choose|k: int| 0 <= k < a.ops@.len() && (#[trigger] a.ops@[k]).kind == TOpKind::Replace && a.ops@[k].op == d;
    assert(b.ops@[k].kind == a.ops@[k].kind);
}

/// A split of one value into two lanes, traced through the data-flow.
pub struct SplitFlow {
    pub tm: TransformManager,
    /// The two-lane (low, high) split of the root value.
    pub lane_description: LaneDescription,
    /// Low-lane placeholders whose values are still to be traced (their high lane follows them).
    pub worklist: Vec<usize>,
    /// Per varnode of the function, its low-lane placeholder once it is split.
    pub marks: Vec<Option<usize>>,
}

/// A varnode that can be split into lanes: its type is not fixed, it is not a function input,
/// and it is written or a constant.
pub open spec fn vn_splittable(f: &Funcdata, vn: VarnodeId) -> bool {
    let v = f.vns@[vn.0 as int];
    !v.typelock && !v.input && (v.def is Some || v.constant)
}

/// The lanes of `vn` are available: it was split already, or it can be split.
pub open spec fn lanes_available(s: &SplitFlow, f: &Funcdata, vn: VarnodeId) -> bool {
    s.marks@[vn.0 as int] is Some || vn_splittable(f, vn)
}

/// Every varnode split in `a` is still split in `b`.
pub open spec fn marks_kept(a: &SplitFlow, b: &SplitFlow) -> bool {
    &&& b.marks@.len() == a.marks@.len()
    &&& forall|v: int| 0 <= v < a.marks@.len() && (#[trigger] a.marks@[v]) is Some ==> b.marks@[v] is Some
}

/// A reader `op` of `v` the forward trace can split: a COPY, MULTIEQUAL, INDIRECT or bitwise
/// AND/OR/XOR; a SUBPIECE taking exactly one lane (its output not marked as half of a
/// double-precision value); a left shift by at least the high lane's width; a right shift by at
/// least the low lane's width.
pub open spec fn forward_shape_ok(ld: crate::transform::LaneDescription, f: &Funcdata, op: OpId) -> bool {
    let o = f.ops@[op.0 as int];
    let ins = o.inrefs@;
    if o.opc == OpCode::Copy || o.opc == OpCode::Multiequal || o.opc == OpCode::Indirect || o.opc == OpCode::IntAnd
        || o.opc == OpCode::IntOr || o.opc == OpCode::IntXor {
        true
    } else if o.opc == OpCode::Subpiece {
        &&& o.output matches Some(out) && !f.vns@[out.0 as int].precis_lo && !f.vns@[out.0 as int].precis_hi && ins.len() >= 2
            && {
            let val = f.vns@[ins[1].0 as int].loc.offset as i32;
            let sz = f.vns@[out.0 as int].size;
            (val == 0 && sz == ld.lo) || (val as i64 == ld.lo as i64 && sz == ld.hi)
        }
    } else if o.opc == OpCode::IntLeft {
        ins.len() >= 2 && f.vns@[ins[1].0 as int].constant && (f.vns@[ins[1].0 as int].loc.offset as i32) as i64 >= (ld.hi as i64) * 8
    } else if o.opc == OpCode::IntRight || o.opc == OpCode::IntSright {
        ins.len() >= 2 && f.vns@[ins[1].0 as int].constant && (f.vns@[ins[1].0 as int].loc.offset as i32) as i64 >= (ld.lo as i64) * 8
    } else {
        false
    }
}

/// Reader `op` was dealt with by the forward trace: its output is split, or its shape lets it
/// be split.
pub open spec fn reader_ok(s: &SplitFlow, f: &Funcdata, op: OpId) -> bool {
    (f.ops@[op.0 as int].output matches Some(o) && s.marks@[o.0 as int] is Some) || forward_shape_ok(s.lane_description, f, op)
}

/// Reader `op` of the split value is dealt with by the forward trace whatever else the trace
/// has done: its output is split already, or it is a SUBPIECE or a shift of a shape
/// [`forward_shape_ok`] accepts (these are rewritten on the spot and never fail).
pub open spec fn reader_sure(s: &SplitFlow, f: &Funcdata, op: OpId) -> bool {
    let o = f.ops@[op.0 as int];
    ||| o.output matches Some(out) && s.marks@[out.0 as int] is Some
    ||| (o.opc == OpCode::Subpiece || o.opc == OpCode::IntLeft || o.opc == OpCode::IntRight || o.opc == OpCode::IntSright)
        && forward_shape_ok(s.lane_description, f, op)
}

/// Every reader of `vn` is [`reader_sure`].
pub open spec fn readers_sure(s: &SplitFlow, f: &Funcdata, vn: VarnodeId) -> bool {
    forall|k: int| 0 <= k < f.descend_of(vn).len() ==> reader_sure(s, f, #[trigger] f.descend_of(vn)[k])
}

/// The writer of the varnode placeholder `rvn` stands for is split along with it (a COPY,
/// MULTIEQUAL, bitwise AND/OR/XOR or INDIRECT), which may queue more values.
pub open spec fn backward_splits_writer(s: &SplitFlow, f: &Funcdata, rvn: usize) -> bool {
    match f.vns@[s.tm.vars@[rvn as int].vn.unwrap().0 as int].def {
        None => false,
        Some(op) => {
            let c = f.ops@[op.0 as int].opc;
            c == OpCode::Copy || c == OpCode::Multiequal || c == OpCode::IntAnd || c == OpCode::IntOr || c == OpCode::IntXor
                || c == OpCode::Indirect
        },
    }
}

/// The queued placeholder `w` traces on its own: back through its writer without splitting it,
/// and forward through readers that are all [`reader_sure`].
pub open spec fn traces_alone(s: &SplitFlow, f: &Funcdata, w: usize) -> bool {
    &&& backward_ok(s, f, w)
    &&& !backward_splits_writer(s, f, w)
    &&& readers_sure(s, f, s.tm.vars@[w as int].vn.unwrap())
}

/// How many inputs of `op` are split with it: just the first of an INDIRECT, all otherwise.
pub open spec fn split_params(f: &Funcdata, op: OpId) -> int {
    let n = f.ops@[op.0 as int].inrefs@.len() as int;
    if f.ops@[op.0 as int].opc == OpCode::Indirect {
        if n >= 1 { 1 } else { 0 }
    } else {
        n
    }
}

/// The lanes of `op`'s output (placeholder `rvn` when `slot` is -1) already have a writer.
pub open spec fn out_lanes_written(s: &SplitFlow, f: &Funcdata, op: OpId, rvn: usize, slot: i32) -> bool {
    if slot == -1 {
        s.tm.vars@[rvn as int].def is Some
    } else {
        f.ops@[op.0 as int].output matches Some(out) && s.marks@[out.0 as int] matches Some(b) && s.tm.vars@[b as int].def is Some
    }
}

/// Splitting `op` (with placeholder `rvn` known at `slot`) succeeds: its output's lanes are
/// available, and they are written already or every other split input's lanes are available.
pub open spec fn add_op_succeeds(s: &SplitFlow, f: &Funcdata, op: OpId, rvn: usize, slot: i32) -> bool {
    let o = f.ops@[op.0 as int];
    &&& slot == -1 || (o.output matches Some(out) && lanes_available(s, f, out))
    &&& out_lanes_written(s, f, op, rvn, slot) || forall|i: int|
        0 <= i < split_params(f, op) && (i as i32) != slot ==> lanes_available(s, f, #[trigger] o.inrefs@[i])
}

/// Tracing the placeholder `rvn` back through the writer of the varnode it stands for
/// succeeds: an unwritten varnode needs nothing; a COPY, MULTIEQUAL, bitwise AND/OR/XOR or
/// INDIRECT splits (see [`add_op_succeeds`]); a PIECE of a high-lane-sized and a
/// low-lane-sized value; a zero extension of a low-lane-sized value to the whole size; a left
/// shift by exactly the low lane's width of a zero extension of a written or input
/// high-lane-sized value. Any other writer fails.
pub open spec fn backward_ok(s: &SplitFlow, f: &Funcdata, rvn: usize) -> bool {
    let origvn = s.tm.vars@[rvn as int].vn.unwrap();
    let ld = s.lane_description;
    match f.vns@[origvn.0 as int].def {
        None => true,
        Some(op) => {
            let o = f.ops@[op.0 as int];
            let ins = o.inrefs@;
            if o.opc == OpCode::Copy || o.opc == OpCode::Multiequal || o.opc == OpCode::IntAnd || o.opc == OpCode::IntOr
                || o.opc == OpCode::IntXor || o.opc == OpCode::Indirect {
                add_op_succeeds(s, f, op, rvn, -1i32)
            } else if o.opc == OpCode::Piece {
                ins.len() >= 2 && f.vns@[ins[0].0 as int].size == ld.hi && f.vns@[ins[1].0 as int].size == ld.lo
            } else if o.opc == OpCode::IntZext {
                ins.len() >= 1 && (o.output matches Some(out) && f.vns@[ins[0].0 as int].size == ld.lo && f.vns@[out.0 as int].size
                    == ld.whole)
            } else if o.opc == OpCode::IntLeft {
                &&& ins.len() >= 2
                &&& f.vns@[ins[1].0 as int].constant
                &&& (f.vns@[ins[1].0 as int].loc.offset as i32) as i64 == (ld.lo as i64) * 8
                &&& f.vns@[ins[0].0 as int].def matches Some(z) && f.ops@[z.0 as int].opc == OpCode::IntZext
                    && f.ops@[z.0 as int].inrefs@.len() >= 1 && {
                    let inv = f.vns@[f.ops@[z.0 as int].inrefs@[0].0 as int];
                    inv.size == ld.hi && !(inv.def is None && !inv.input)
                }
            } else {
                false
            }
        },
    }
}

impl SplitFlow {
    /// The plan is well formed for `f`, each split varnode has both lanes, and each queued
    /// placeholder has both lanes and stands for a varnode.
    pub open spec fn wf(&self, f: &Funcdata) -> bool {
        &&& f.wf()
        &&& self.tm.wf(f)
        &&& self.marks@.len() == f.vns@.len()
        &&& forall|v: int| 0 <= v < self.marks@.len() ==> (#[trigger] self.marks@[v] matches Some(b) ==> b + 1 < self.tm.vars@.len())
        &&& forall|w: int|
            0 <= w < self.worklist@.len() ==> (#[trigger] self.worklist@[w]) + 1 < self.tm.vars@.len()
                && self.tm.vars@[self.worklist@[w] as int].vn is Some
    }

    /// What is left to trace: each unsplit varnode may still be queued once, and each queued
    /// placeholder is traced once.
    pub open spec fn budget(&self) -> nat {
        2 * unmarked(self.marks@) + self.worklist@.len()
    }

    proof fn lemma_wf_extends(&self, old_sf: &SplitFlow, f: &Funcdata)
        requires
            old_sf.wf(f),
            self.tm.wf(f),
            extends(&old_sf.tm, &self.tm),
            self.marks == old_sf.marks,
            self.worklist == old_sf.worklist,
        ensures
            self.wf(f),
    {
        assert forall|v: int| 0 <= v < self.marks@.len() implies (#[trigger] self.marks@[v] matches Some(b) ==> b + 1
            < self.tm.vars@.len()) by {
            assert(old_sf.marks@[v] matches Some(b) ==> b + 1 < old_sf.tm.vars@.len());
        }
        assert forall|w: int| 0 <= w < self.worklist@.len() implies (#[trigger] self.worklist@[w]) + 1
            < self.tm.vars@.len() && self.tm.vars@[self.worklist@[w] as int].vn is Some by {
            assert(old_sf.worklist@[w] + 1 < old_sf.tm.vars@.len());
            assert(old_sf.tm.vars@[old_sf.worklist@[w] as int].vn is Some);
        }
    }

    /// Start a split of `root` into a low lane of `low_size` bytes and a high lane of the rest.
    pub fn new(fd: &Funcdata, root: VarnodeId, low_size: i32) -> (r: SplitFlow)
        requires
            fd.wf(),
            root.0 < fd.vns@.len(),
            0 <= low_size <= fd.vns@[root.0 as int].size,
        ensures
            r.wf(fd),
            r.tm.ops@.len() == 0,
            r.lane_description.whole == fd.vns@[root.0 as int].size,
            r.lane_description.lo == low_size,
            r.lane_description.hi == fd.vns@[root.0 as int].size - low_size,
            r.worklist@.len() <= 1,
            r.worklist@.len() == 1 ==> r.tm.vars@[r.worklist@[0] as int].vn == Some(root) && r.tm.vars@[r.worklist@[0] as int].def is None,
            ({
                let v = fd.vns@[root.0 as int];
                !v.typelock && !v.input && !v.constant && v.def is Some ==> r.worklist@.len() == 1
            }),
    {
        let whole = fd.vn(root).size;
        let lo = low_size as u32;
        let desc = LaneDescription::two(whole, lo, whole - lo);
        let n = fd.num_varnodes();
        let mut marks: Vec<Option<usize>> = Vec::new();
        let mut i: usize = 0;
        while i < n
            invariant
                i <= n,
                marks@.len() == i,
                forall|j: int| 0 <= j < i ==> (#[trigger] marks@[j]) is None,
            decreases n - i,
        {
            marks.push(None);
            i += 1;
        }
        let mut sf = SplitFlow { tm: TransformManager::new(), lane_description: desc, worklist: Vec::new(), marks };
        let _ = sf.set_replacement(fd, root);
        sf
    }

    /// The input slot at which `vn` appears in `op`, or -1.
    fn get_slot(&self, f: &Funcdata, op: OpId, vn: VarnodeId) -> (r: i32)
        requires
            op.0 < f.ops@.len(),
        ensures
            r == -1 || (0 <= r < f.ops@[op.0 as int].inrefs@.len() && f.ops@[op.0 as int].inrefs@[r as int] == vn),
    {
        let n = f.op(op).num_inputs();
        let mut i: usize = 0;
        while i < n
            invariant
                i <= n,
                n == f.ops@[op.0 as int].inrefs@.len(),
                op.0 < f.ops@.len(),
            decreases n - i,
        {
            if f.op(op).input(i) == Some(vn) && i <= 0x7fff_ffff {
                return i as i32;
            }
            i += 1;
        }
        -1
    }

    /// The low-lane placeholder of `vn`, splitting it now if it was not yet (and queueing it for
    /// tracing unless it is a constant); `None` if it cannot be split: a value with a fixed type,
    /// a function input, or a free value that is not a constant.
    fn set_replacement(&mut self, f: &Funcdata, vn: VarnodeId) -> (r: Option<usize>)
        requires
            old(self).wf(f),
            vn.0 < f.vns@.len(),
        ensures
            final(self).wf(f),
            extends(&old(self).tm, &final(self).tm),
            final(self).tm.ops@ == old(self).tm.ops@,
            final(self).lane_description == old(self).lane_description,
            final(self).budget() <= old(self).budget(),
            r matches Some(b) ==> b + 1 < final(self).tm.vars@.len(),
            old(self).marks@[vn.0 as int] is None && r is Some ==> final(self).tm.vars@[r->0 as int].def is None
                && final(self).tm.vars@[r->0 as int + 1].def is None,
            old(self).marks@[vn.0 as int] is None && r is Some && !f.vns@[vn.0 as int].constant ==> final(self).tm.vars@[r->0 as int].vn == Some(vn),
            final(self).worklist@.len() <= old(self).worklist@.len() + 1,
            final(self).worklist@.take(old(self).worklist@.len() as int) == old(self).worklist@,
            final(self).worklist@.len() == old(self).worklist@.len() + 1 ==> r is Some && final(self).worklist@.last() == r->0
                && old(self).marks@[vn.0 as int] is None && !f.vns@[vn.0 as int].constant,
            old(self).marks@[vn.0 as int] is None && r is Some && !f.vns@[vn.0 as int].constant ==> final(self).worklist@.len()
                == old(self).worklist@.len() + 1,
            r is None <==> old(self).marks@[vn.0 as int] is None && !vn_splittable(f, vn),
            old(self).marks@[vn.0 as int] matches Some(b) ==> r == Some(b),
            final(self).tm.vars@.take(old(self).tm.vars@.len() as int) == old(self).tm.vars@,
            forall|v: int| 0 <= v < f.vns@.len() && v != vn.0 ==> #[trigger] final(self).marks@[v] == old(self).marks@[v],
            final(self).marks@[vn.0 as int] == (if old(self).marks@[vn.0 as int] is Some { old(self).marks@[vn.0 as int] } else { r }),
    {
        match self.marks[vn.0] {
            Some(b) => {
                proof {
                    assert(self.marks@[vn.0 as int] matches Some(c) ==> c + 1 < self.tm.vars@.len());
                }
                return Some(b);
            },
            None => {},
        }
        if f.vn(vn).is_typelock() {
            return None;
        }
        if f.vn(vn).is_input() {
            return None;
        }
        if f.vn(vn).is_free() && !f.vn(vn).is_constant() {
            return None;
        }
        let ghost s0 = *self;
        let res = self.tm.new_split(f, vn, &self.lane_description);
        proof {
            self.lemma_wf_extends(&s0, f);
            assert(self.tm.vars@[res as int + 0].def is None);
            assert(self.tm.vars@[res as int + 1].def is None);
        }
        let ghost m0 = self.marks@;
        self.marks.set(vn.0, Some(res));
        proof {
            lemma_unmarked_update(m0, vn.0 as int, res);
            assert forall|v: int| 0 <= v < self.marks@.len() implies (#[trigger] self.marks@[v] matches Some(b) ==> b + 1
                < self.tm.vars@.len()) by {
                if v != vn.0 {
                    assert(m0[v] == self.marks@[v]);
                    assert(m0[v] matches Some(b) ==> b + 1 < s0.tm.vars@.len());
                }
            }
        }
        if !f.vn(vn).is_constant() {
            let ghost w0 = self.worklist@;
            self.worklist.push(res);
            proof {
                assert(self.tm.vars@[res as int + 0].vn == Some(vn));
                assert(self.worklist@.take(w0.len() as int) =~= w0);
                assert forall|w: int| 0 <= w < self.worklist@.len() implies (#[trigger] self.worklist@[w]) + 1
                    < self.tm.vars@.len() && self.tm.vars@[self.worklist@[w] as int].vn is Some by {
                    if w < w0.len() {
                        assert(self.worklist@[w] == w0[w]);
                    }
                }
            }
        } else {
            proof {
                assert(self.worklist@.take(self.worklist@.len() as int) =~= self.worklist@);
            }
        }
        Some(res)
    }

    /// Split `op` into a low op and a high op, with every input and the output split into their
    /// lanes. The known placeholder `rvn` is the output when `slot` is -1, else input `slot`.
    /// Succeeds at once if the output's lanes are already written.
    fn add_op(&mut self, f: &Funcdata, op: OpId, rvn: usize, slot: i32) -> (r: bool)
        requires
            old(self).wf(f),
            op.0 < f.ops@.len(),
            rvn + 1 < old(self).tm.vars@.len(),
        ensures
            final(self).wf(f),
            extends(&old(self).tm, &final(self).tm),
            final(self).lane_description == old(self).lane_description,
            final(self).budget() <= old(self).budget(),
            r == add_op_succeeds(old(self), f, op, rvn, slot),
            marks_kept(old(self), final(self)),
            r && slot == -1 && old(self).tm.vars@[rvn as int].def is None ==> replaces(&final(self).tm, op),
    {
        let outvn = if slot == -1 {
            rvn
        } else {
            proof {
                assert(op_wf(f.ops@[op.0 as int], f.vns@.len(), f.ops@.len(), f.blocks@.len()));
            }
            match f.op(op).output {
                None => return false,
                Some(out) => match self.set_replacement(f, out) {
                    None => return false,
                    Some(v) => {
                        proof {
                            if let Some(b) = old(self).marks@[out.0 as int] {
                                assert(b + 1 < old(self).tm.vars@.len());
                                assert(self.tm.vars@[b as int] == self.tm.vars@.take(old(self).tm.vars@.len() as int)[b as int]);
                            }
                        }
                        v
                    },
                },
            }
        };
        if self.tm.var(outvn).def.is_some() {
            return true;
        }
        proof {
            assert(!out_lanes_written(old(self), f, op, rvn, slot));
        }
        let ghost s0 = *self;
        proof {
            assert(extends(&old(self).tm, &s0.tm));
        }
        let code = f.op(op).code();
        let num_input = f.op(op).num_inputs();
        let lo_op = self.tm.new_op_replace(f, num_input, code, op);
        let hi_op = self.tm.new_op_replace(f, num_input, code, op);
        let mut num_param = num_input;
        if code == OpCode::Indirect {
            let guard = f.op(op).guarded_op();
            proof {
                assert(op_wf(f.ops@[op.0 as int], f.vns@.len(), f.ops@.len(), f.blocks@.len()));
            }
            self.tm.op_set_guarded(f, lo_op, guard);
            self.tm.op_set_guarded(f, hi_op, guard);
            self.tm.inherit_indirect(f, lo_op, op);
            self.tm.inherit_indirect(f, hi_op, op);
            num_param = if num_input >= 1 { 1 } else { 0 };
        }
        proof {
            self.lemma_wf_extends(&s0, f);
            assert(self.tm.ops@[lo_op as int].kind == TOpKind::Replace && self.tm.ops@[lo_op as int].op == op);
            assert(self.tm.ops@[lo_op as int].input@.len() == num_input);
        }
        let mut i: usize = 0;
        while i < num_param
            invariant
                self.wf(f),
                extends(&s0.tm, &self.tm),
                extends(&old(self).tm, &s0.tm),
                self.lane_description == s0.lane_description,
                s0.lane_description == old(self).lane_description,
                self.budget() <= s0.budget(),
                s0.budget() <= old(self).budget(),
                i <= num_param,
                num_param <= num_input,
                num_input == f.ops@[op.0 as int].inrefs@.len(),
                op.0 < f.ops@.len(),
                lo_op < hi_op < self.tm.ops@.len(),
                self.tm.ops@[lo_op as int].input@.len() == num_input,
                self.tm.ops@[hi_op as int].input@.len() == num_input,
                self.tm.ops@[lo_op as int].kind == TOpKind::Replace && self.tm.ops@[lo_op as int].op == op,
                rvn + 1 < self.tm.vars@.len(),
                outvn + 1 < self.tm.vars@.len(),
                num_param == split_params(f, op),
                slot == -1 || (f.ops@[op.0 as int].output matches Some(out) && lanes_available(old(self), f, out)),
                !out_lanes_written(old(self), f, op, rvn, slot),
                forall|j: int| 0 <= j < i && (j as i32) != slot ==> lanes_available(old(self), f, #[trigger] f.ops@[op.0 as int].inrefs@[j]),
                old(self).marks@.len() == f.vns@.len(),
                forall|v: int| 0 <= v < f.vns@.len() && old(self).marks@[v] is Some ==> (#[trigger] self.marks@[v]) is Some,
                forall|v: int| 0 <= v < f.vns@.len() && old(self).marks@[v] is None && !vn_splittable(f, VarnodeId(v as usize)) ==> (#[trigger] self.marks@[v]) is None,
                self.marks@.len() == f.vns@.len(),
            decreases num_param - i,
        {
            let invn = if #[verifier::truncate] (i as i32) == slot {
                rvn
            } else {
                let inp = f.op(op).inrefs[i];
                proof {
                    assert(op_wf(f.ops@[op.0 as int], f.vns@.len(), f.ops@.len(), f.blocks@.len()));
                }
                let ghost s1 = *self;
                match self.set_replacement(f, inp) {
                    None => {
                        proof {
                            lemma_extends_trans(&s0.tm, &s1.tm, &self.tm);
                            lemma_extends_trans(&old(self).tm, &s0.tm, &self.tm);
                            assert forall|v: int| 0 <= v < old(self).marks@.len() && (#[trigger] old(self).marks@[v]) is Some implies self.marks@[v] is Some by {
                                assert(old(self).marks@.len() == f.vns@.len());
                                assert(s1.marks@[v] is Some);
                                if v != inp.0 {
                                    assert(self.marks@[v] == s1.marks@[v]);
                                }
                            }
                            assert(!lanes_available(old(self), f, f.ops@[op.0 as int].inrefs@[i as int]));
                            assert((i as int) as i32 != slot);
                        }
                        return false;
                    },
                    Some(v) => {
                        proof {
                            if old(self).marks@[inp.0 as int] is None && !vn_splittable(f, inp) {
                                assert(s1.marks@[inp.0 as int] is None);
                            }
                            assert(lanes_available(old(self), f, f.ops@[op.0 as int].inrefs@[i as int]));
                            assert forall|v: int| 0 <= v < f.vns@.len() && old(self).marks@[v] is Some implies (#[trigger] self.marks@[v]) is Some by {
                                assert(s1.marks@[v] is Some);
                            }
                            assert forall|v: int| 0 <= v < f.vns@.len() && old(self).marks@[v] is None && !vn_splittable(f, VarnodeId(v as usize)) implies (#[trigger] self.marks@[v]) is None by {
                                assert(s1.marks@[v] is None);
                            }
                        }
                        v
                    },
                }
            };
            let ghost s2 = *self;
            self.tm.op_set_input(f, lo_op, invn, i);
            let ghost s4 = *self;
            let hi_in = self.tm.high(invn);
            self.tm.op_set_input(f, hi_op, hi_in, i);
            proof {
                lemma_extends_trans(&s2.tm, &s4.tm, &self.tm);
                self.lemma_wf_extends(&s2, f);
                lemma_extends_trans(&s0.tm, &s2.tm, &self.tm);
            }
            i += 1;
        }
        let ghost s3 = *self;
        self.tm.op_set_output(f, lo_op, outvn);
        let ghost s5 = *self;
        let hi_out = self.tm.high(outvn);
        self.tm.op_set_output(f, hi_op, hi_out);
        proof {
            lemma_extends_trans(&s3.tm, &s5.tm, &self.tm);
            self.lemma_wf_extends(&s3, f);
            lemma_extends_trans(&s0.tm, &s3.tm, &self.tm);
            lemma_extends_trans(&old(self).tm, &s0.tm, &self.tm);
            assert(self.tm.ops@[lo_op as int].kind == TOpKind::Replace && self.tm.ops@[lo_op as int].op == op);
        }
        true
    }

    /// Trace the split forward through every op reading the varnode `rvn` stands for: a COPY,
    /// MULTIEQUAL, INDIRECT or bitwise AND/OR/XOR is split in two; a SUBPIECE taking exactly
    /// one lane becomes a COPY of it; a left shift by at least the high lane's width shifts the
    /// extended low lane; a right shift by at least the low lane's width shifts the extended high
    /// lane (or just extends it). An op whose output is already split is skipped; any other
    /// reader fails the trace.
    fn trace_forward(&mut self, f: &Funcdata, rvn: usize) -> (r: bool)
        requires
            old(self).wf(f),
            rvn + 1 < old(self).tm.vars@.len(),
            old(self).tm.vars@[rvn as int].vn is Some,
        ensures
            final(self).wf(f),
            progressed(old(self), final(self)),
            marks_kept(old(self), final(self)),
            r ==> forall|k: int| 0 <= k < f.descend_of(old(self).tm.vars@[rvn as int].vn.unwrap()).len()
                ==> reader_ok(final(self), f, #[trigger] f.descend_of(old(self).tm.vars@[rvn as int].vn.unwrap())[k]),
            (forall|k: int| 0 <= k < f.descend_of(old(self).tm.vars@[rvn as int].vn.unwrap()).len()
                ==> reader_sure(old(self), f, #[trigger] f.descend_of(old(self).tm.vars@[rvn as int].vn.unwrap())[k])) ==> r
                && final(self).worklist == old(self).worklist,
    {
        let ghost s0 = *self;
        let origvn = self.tm.var(rvn).vn.unwrap();
        proof {
            assert(tvar_wf(self.tm.vars@[rvn as int], f.vns@.len(), self.tm.ops@.len()));
        }
        let descends = f.descend(origvn);
        let _nops = f.num_ops();
        let mut j: usize = 0;
        while j < descends.len()
            invariant
                self.wf(f),
                s0 == *old(self),
                f.ops@.len() <= usize::MAX,
                progressed(&s0, self),
                rvn + 1 < self.tm.vars@.len(),
                origvn.0 < f.vns@.len(),
                origvn == s0.tm.vars@[rvn as int].vn.unwrap(),
                descends@ == f.descend_of(origvn),
                readers_sure(&s0, f, origvn) ==> self.worklist == s0.worklist,
                j <= descends@.len(),
                marks_kept(&s0, self),
                forall|k: int| 0 <= k < j ==> reader_ok(self, f, #[trigger] descends@[k]),
            decreases descends@.len() - j,
        {
            let ghost ps = *self;
            let op = descends[j];
            proof {
                lemma_descend_member(f.ops@, origvn, f.ops@.len() as int, j as int);
                assert(op_wf(f.ops@[op.0 as int], f.vns@.len(), f.ops@.len(), f.blocks@.len()));
            }
            let outvn = f.op(op).output;
            let skip = match outvn {
                Some(o) => self.marks[o.0].is_some(),
                None => false,
            };
            if !skip {
                let ghost p = *self;
                proof {
                    if let Some(o) = outvn {
                        if s0.marks@[o.0 as int] is Some {
                            assert(self.marks@[o.0 as int] is Some);
                        }
                    }
                    assert(descends@[j as int] == op);
                    assert(reader_sure(&s0, f, descends@[j as int]) ==> forward_shape_ok(s0.lane_description, f, op));
                }
                let code = f.op(op).code();
                match code {
                    OpCode::Copy | OpCode::Multiequal | OpCode::Indirect | OpCode::IntAnd | OpCode::IntOr
                    | OpCode::IntXor => {
                        let slot = self.get_slot(f, op, origvn);
                        let ok = self.add_op(f, op, rvn, slot);
                        proof {
                            lemma_chain(&s0, &p, self);
                            assert(!reader_sure(&s0, f, descends@[j as int]));
                        }
                        if !ok {
                            assert(!reader_sure(&s0, f, descends@[j as int]));
                            assert(!reader_sure(old(self), f, f.descend_of(old(self).tm.vars@[rvn as int].vn.unwrap())[j as int]));
                            return false;
                        }
                    },
                    OpCode::Subpiece => {
                        let out = match outvn {
                            Some(o) => o,
                            None => {
                                assert(!reader_sure(&s0, f, descends@[j as int]));
                            assert(!reader_sure(old(self), f, f.descend_of(old(self).tm.vars@[rvn as int].vn.unwrap())[j as int]));
                                return false;
                            },
                        };
                        if f.vn(out).is_precis_lo() || f.vn(out).is_precis_hi() {
                            return false;
                        }
                        let c = match f.op(op).input(1) {
                            Some(c) => c,
                            None => return false,
                        };
                        let val: i32 = #[verifier::truncate] (f.vn(c).constant_value() as i32);
                        let out_size = f.vn(out).size;
                        if val == 0 && out_size == self.lane_description.size(0) {
                            let rop = self.tm.new_preexisting_op(f, 1, OpCode::Copy, op);
                            let ghost q = *self;
                            self.tm.op_set_input(f, rop, rvn, 0);
                            proof {
                                lemma_extends_trans(&p.tm, &q.tm, &self.tm);
                            }
                        } else if val as i64 == self.lane_description.size(0) as i64 && out_size
                            == self.lane_description.size(1) {
                            let rop = self.tm.new_preexisting_op(f, 1, OpCode::Copy, op);
                            let ghost q = *self;
                            let h = self.tm.high(rvn);
                            self.tm.op_set_input(f, rop, h, 0);
                            proof {
                                lemma_extends_trans(&p.tm, &q.tm, &self.tm);
                            }
                        } else {
                            return false;
                        }
                        proof {
                            self.lemma_wf_extends(&p, f);
                            lemma_chain(&s0, &p, self);
                        }
                    },
                    OpCode::IntLeft => {
                        let sh = match f.op(op).input(1) {
                            Some(x) => x,
                            None => return false,
                        };
                        if !f.vn(sh).is_constant() {
                            return false;
                        }
                        let sh_size = f.vn(sh).size;
                        let sh_val = f.vn(sh).constant_value();
                        let amount: i32 = #[verifier::truncate] (sh_val as i32);
                        if (amount as i64) < (self.lane_description.size(1) as i64) * 8 {
                            return false;
                        }
                        let rop = self.tm.new_preexisting_op(f, 2, OpCode::IntLeft, op);
                        let ghost q1 = *self;
                        let zextrop = self.tm.new_op(f, 1, OpCode::IntZext, rop);
                        let ghost q2 = *self;
                        self.tm.op_set_input(f, zextrop, rvn, 0);
                        let ghost q3 = *self;
                        let uq = self.tm.new_unique(f, self.lane_description.whole_size());
                        let ghost q4 = *self;
                        self.tm.op_set_output(f, zextrop, uq);
                        let ghost q5 = *self;
                        self.tm.op_set_input(f, rop, uq, 0);
                        let ghost q6 = *self;
                        let c = self.tm.new_constant(f, sh_size, 0, sh_val);
                        let ghost q7 = *self;
                        self.tm.op_set_input(f, rop, c, 1);
                        proof {
                            lemma_extends_trans(&p.tm, &q1.tm, &q2.tm);
                            lemma_extends_trans(&p.tm, &q2.tm, &q3.tm);
                            lemma_extends_trans(&p.tm, &q3.tm, &q4.tm);
                            lemma_extends_trans(&p.tm, &q4.tm, &q5.tm);
                            lemma_extends_trans(&p.tm, &q5.tm, &q6.tm);
                            lemma_extends_trans(&p.tm, &q6.tm, &q7.tm);
                            lemma_extends_trans(&p.tm, &q7.tm, &self.tm);
                            self.lemma_wf_extends(&p, f);
                            lemma_chain(&s0, &p, self);
                        }
                    },
                    OpCode::IntSright | OpCode::IntRight => {
                        let sh = match f.op(op).input(1) {
                            Some(x) => x,
                            None => return false,
                        };
                        if !f.vn(sh).is_constant() {
                            return false;
                        }
                        let sh_size = f.vn(sh).size;
                        let sh_val = f.vn(sh).constant_value();
                        let val: i32 = #[verifier::truncate] (sh_val as i32);
                        let lo_bits: i64 = (self.lane_description.size(0) as i64) * 8;
                        if (val as i64) < lo_bits {
                            return false;
                        }
                        let ext_opcode = if code == OpCode::IntRight {
                            OpCode::IntZext
                        } else {
                            OpCode::IntSext
                        };
                        let h = self.tm.high(rvn);
                        if val as i64 == lo_bits {
                            let rop = self.tm.new_preexisting_op(f, 1, ext_opcode, op);
                            let ghost q = *self;
                            self.tm.op_set_input(f, rop, h, 0);
                            proof {
                                lemma_extends_trans(&p.tm, &q.tm, &self.tm);
                            }
                        } else {
                            let remain_shift = (val as i64 - lo_bits) as u64;
                            let rop = self.tm.new_preexisting_op(f, 2, code, op);
                            let ghost q1 = *self;
                            let extrop = self.tm.new_op(f, 1, ext_opcode, rop);
                            let ghost q2 = *self;
                            self.tm.op_set_input(f, extrop, h, 0);
                            let ghost q3 = *self;
                            let uq = self.tm.new_unique(f, self.lane_description.whole_size());
                            let ghost q4 = *self;
                            self.tm.op_set_output(f, extrop, uq);
                            let ghost q5 = *self;
                            self.tm.op_set_input(f, rop, uq, 0);
                            let ghost q6 = *self;
                            let c = self.tm.new_constant(f, sh_size, 0, remain_shift);
                            let ghost q7 = *self;
                            self.tm.op_set_input(f, rop, c, 1);
                            proof {
                                lemma_extends_trans(&p.tm, &q1.tm, &q2.tm);
                                lemma_extends_trans(&p.tm, &q2.tm, &q3.tm);
                                lemma_extends_trans(&p.tm, &q3.tm, &q4.tm);
                                lemma_extends_trans(&p.tm, &q4.tm, &q5.tm);
                                lemma_extends_trans(&p.tm, &q5.tm, &q6.tm);
                                lemma_extends_trans(&p.tm, &q6.tm, &q7.tm);
                                lemma_extends_trans(&p.tm, &q7.tm, &self.tm);
                            }
                        }
                        proof {
                            self.lemma_wf_extends(&p, f);
                            lemma_chain(&s0, &p, self);
                        }
                    },
                    _ => return false,
                }
            }
            proof {
                assert(marks_kept(&ps, self));
                assert(reader_ok(self, f, descends@[j as int]));
                assert forall|k: int| 0 <= k < j + 1 implies reader_ok(self, f, #[trigger] descends@[k]) by {
                    if k < j {
                        assert(reader_ok(&ps, f, descends@[k]));
                        lemma_descend_member(f.ops@, origvn, f.ops@.len() as int, k);
                        assert(op_wf(f.ops@[descends@[k].0 as int], f.vns@.len(), f.ops@.len(), f.blocks@.len()));
                        if let Some(o) = f.ops@[descends@[k].0 as int].output {
                            if ps.marks@[o.0 as int] is Some {
                                assert(self.marks@[o.0 as int] is Some);
                            }
                        }
                    }
                }
            }
            j += 1;
        }
        true
    }

    /// Pull the split back through the op writing the varnode `rvn` stands for: a COPY, MULTIEQUAL,
    /// INDIRECT or bitwise AND/OR/XOR is split in two; a PIECE of two values of the lanes'
    /// sizes gives each lane a COPY of its part; a zero extension of a low-lane-sized value gives
    /// the low lane a COPY of it and the high lane zero; a left shift by exactly the low lane's
    /// width of a zero-extended high-lane-sized value gives the low lane zero and the high lane a
    /// COPY of that value. An unwritten varnode needs nothing; any other writer fails the trace.
    /// When the trace succeeds and the lanes were not yet written, the writer is replaced.
    fn trace_backward(&mut self, f: &Funcdata, rvn: usize) -> (r: bool)
        requires
            old(self).wf(f),
            rvn + 1 < old(self).tm.vars@.len(),
            old(self).tm.vars@[rvn as int].vn is Some,
        ensures
            final(self).wf(f),
            progressed(old(self), final(self)),
            r && old(self).tm.vars@[rvn as int].def is None ==> (orig_def(f, old(self).tm.vars@[rvn as int])
                matches Some(d) ==> replaces(&final(self).tm, d)),
            r == backward_ok(old(self), f, rvn),
            !backward_splits_writer(old(self), f, rvn) ==> final(self).worklist == old(self).worklist && final(self).marks
                == old(self).marks,
    {
        let ghost s0 = *self;
        let origvn = self.tm.var(rvn).vn.unwrap();
        proof {
            assert(tvar_wf(self.tm.vars@[rvn as int], f.vns@.len(), self.tm.ops@.len()));
            assert(vn_wf(f.vns@[origvn.0 as int], f.ops@.len()));
        }
        let op = match f.vn(origvn).def {
            None => return true,
            Some(d) => d,
        };
        proof {
            assert(op_wf(f.ops@[op.0 as int], f.vns@.len(), f.ops@.len(), f.blocks@.len()));
        }
        match f.op(op).code() {
            OpCode::Copy | OpCode::Multiequal | OpCode::IntAnd | OpCode::IntOr | OpCode::IntXor | OpCode::Indirect => {
                if !self.add_op(f, op, rvn, -1) {
                    return false;
                }
            },
            OpCode::Piece => {
                let in0 = match f.op(op).input(0) {
                    Some(x) => x,
                    None => return false,
                };
                let in1 = match f.op(op).input(1) {
                    Some(x) => x,
                    None => return false,
                };
                if f.vn(in0).size != self.lane_description.size(1) {
                    return false;
                }
                if f.vn(in1).size != self.lane_description.size(0) {
                    return false;
                }
                let lo_pre = self.tm.get_preexisting_varnode(f, in1);
                let ghost q1 = *self;
                let lo_op = self.tm.new_op_replace(f, 1, OpCode::Copy, op);
                let ghost q2 = *self;
                self.tm.op_set_input(f, lo_op, lo_pre, 0);
                let ghost q3 = *self;
                self.tm.op_set_output(f, lo_op, rvn);
                let ghost q4 = *self;
                let hi_pre = self.tm.get_preexisting_varnode(f, in0);
                let ghost q5 = *self;
                let hi_op = self.tm.new_op_replace(f, 1, OpCode::Copy, op);
                let ghost q6 = *self;
                self.tm.op_set_input(f, hi_op, hi_pre, 0);
                let ghost q7 = *self;
                let h = self.tm.high(rvn);
                self.tm.op_set_output(f, hi_op, h);
                proof {
                    lemma_extends_trans(&s0.tm, &q1.tm, &q2.tm);
                    lemma_extends_trans(&s0.tm, &q2.tm, &q3.tm);
                    lemma_extends_trans(&q2.tm, &q3.tm, &q4.tm);
                    lemma_extends_trans(&s0.tm, &q3.tm, &q4.tm);
                    lemma_extends_trans(&q2.tm, &q4.tm, &q5.tm);
                    lemma_extends_trans(&s0.tm, &q4.tm, &q5.tm);
                    lemma_extends_trans(&q2.tm, &q5.tm, &q6.tm);
                    lemma_extends_trans(&s0.tm, &q5.tm, &q6.tm);
                    lemma_extends_trans(&q2.tm, &q6.tm, &q7.tm);
                    lemma_extends_trans(&s0.tm, &q6.tm, &q7.tm);
                    lemma_extends_trans(&q2.tm, &q7.tm, &self.tm);
                    lemma_extends_trans(&s0.tm, &q7.tm, &self.tm);
                    assert(self.tm.ops@[lo_op as int].kind == TOpKind::Replace && self.tm.ops@[lo_op as int].op == op);
                    self.lemma_wf_extends(&s0, f);
                }
            },
            OpCode::IntZext => {
                let in0 = match f.op(op).input(0) {
                    Some(x) => x,
                    None => return false,
                };
                let out = match f.op(op).output {
                    Some(x) => x,
                    None => return false,
                };
                if f.vn(in0).size != self.lane_description.size(0) {
                    return false;
                }
                if f.vn(out).size != self.lane_description.whole_size() {
                    return false;
                }
                let lo_pre = self.tm.get_preexisting_varnode(f, in0);
                let ghost q1 = *self;
                let lo_op = self.tm.new_op_replace(f, 1, OpCode::Copy, op);
                let ghost q2 = *self;
                self.tm.op_set_input(f, lo_op, lo_pre, 0);
                let ghost q3 = *self;
                self.tm.op_set_output(f, lo_op, rvn);
                let ghost q4 = *self;
                let hi_op = self.tm.new_op_replace(f, 1, OpCode::Copy, op);
                let ghost q5 = *self;
                let c = self.tm.new_constant(f, self.lane_description.size(1), 0, 0);
                let ghost q6 = *self;
                self.tm.op_set_input(f, hi_op, c, 0);
                let ghost q7 = *self;
                let h = self.tm.high(rvn);
                self.tm.op_set_output(f, hi_op, h);
                proof {
                    lemma_extends_trans(&s0.tm, &q1.tm, &q2.tm);
                    lemma_extends_trans(&s0.tm, &q2.tm, &q3.tm);
                    lemma_extends_trans(&q2.tm, &q3.tm, &q4.tm);
                    lemma_extends_trans(&s0.tm, &q3.tm, &q4.tm);
                    lemma_extends_trans(&q2.tm, &q4.tm, &q5.tm);
                    lemma_extends_trans(&s0.tm, &q4.tm, &q5.tm);
                    lemma_extends_trans(&q2.tm, &q5.tm, &q6.tm);
                    lemma_extends_trans(&s0.tm, &q5.tm, &q6.tm);
                    lemma_extends_trans(&q2.tm, &q6.tm, &q7.tm);
                    lemma_extends_trans(&s0.tm, &q6.tm, &q7.tm);
                    lemma_extends_trans(&q2.tm, &q7.tm, &self.tm);
                    lemma_extends_trans(&s0.tm, &q7.tm, &self.tm);
                    assert(self.tm.ops@[lo_op as int].kind == TOpKind::Replace && self.tm.ops@[lo_op as int].op == op);
                    self.lemma_wf_extends(&s0, f);
                }
            },
            OpCode::IntLeft => {
                let cvn = match f.op(op).input(1) {
                    Some(x) => x,
                    None => return false,
                };
                if !f.vn(cvn).is_constant() {
                    return false;
                }
                let amount: i32 = #[verifier::truncate] (f.vn(cvn).constant_value() as i32);
                if amount as i64 != (self.lane_description.size(0) as i64) * 8 {
                    return false;
                }
                let invn0 = match f.op(op).input(0) {
                    Some(x) => x,
                    None => return false,
                };
                proof {
                    assert(vn_wf(f.vns@[invn0.0 as int], f.ops@.len()));
                }
                let zext_op = match f.vn(invn0).def {
                    Some(z) => z,
                    None => return false,
                };
                if f.op(zext_op).code() != OpCode::IntZext {
                    return false;
                }
                proof {
                    assert(op_wf(f.ops@[zext_op.0 as int], f.vns@.len(), f.ops@.len(), f.blocks@.len()));
                }
                let invn = match f.op(zext_op).input(0) {
                    Some(x) => x,
                    None => return false,
                };
                if f.vn(invn).size != self.lane_description.size(1) {
                    return false;
                }
                if f.vn(invn).is_free() {
                    return false;
                }
                let lo_op = self.tm.new_op_replace(f, 1, OpCode::Copy, op);
                let ghost q1 = *self;
                let c = self.tm.new_constant(f, self.lane_description.size(0), 0, 0);
                let ghost q2 = *self;
                self.tm.op_set_input(f, lo_op, c, 0);
                let ghost q3 = *self;
                self.tm.op_set_output(f, lo_op, rvn);
                let ghost q4 = *self;
                let hi_pre = self.tm.get_preexisting_varnode(f, invn);
                let ghost q5 = *self;
                let hi_op = self.tm.new_op_replace(f, 1, OpCode::Copy, op);
                let ghost q6 = *self;
                self.tm.op_set_input(f, hi_op, hi_pre, 0);
                let ghost q7 = *self;
                let h = self.tm.high(rvn);
                self.tm.op_set_output(f, hi_op, h);
                proof {
                    lemma_extends_trans(&s0.tm, &q1.tm, &q2.tm);
                    lemma_extends_trans(&q1.tm, &q2.tm, &q3.tm);
                    lemma_extends_trans(&s0.tm, &q2.tm, &q3.tm);
                    lemma_extends_trans(&q1.tm, &q3.tm, &q4.tm);
                    lemma_extends_trans(&s0.tm, &q3.tm, &q4.tm);
                    lemma_extends_trans(&q1.tm, &q4.tm, &q5.tm);
                    lemma_extends_trans(&s0.tm, &q4.tm, &q5.tm);
                    lemma_extends_trans(&q1.tm, &q5.tm, &q6.tm);
                    lemma_extends_trans(&s0.tm, &q5.tm, &q6.tm);
                    lemma_extends_trans(&q1.tm, &q6.tm, &q7.tm);
                    lemma_extends_trans(&s0.tm, &q6.tm, &q7.tm);
                    lemma_extends_trans(&q1.tm, &q7.tm, &self.tm);
                    lemma_extends_trans(&s0.tm, &q7.tm, &self.tm);
                    assert(self.tm.ops@[lo_op as int].kind == TOpKind::Replace && self.tm.ops@[lo_op as int].op == op);
                    self.lemma_wf_extends(&s0, f);
                }
            },
            _ => return false,
        }
        true
    }

    /// Take the last queued placeholder and trace it back through its writer, then forward
    /// through its readers.
    fn process_next_work(&mut self, f: &Funcdata) -> (r: bool)
        requires
            old(self).wf(f),
            old(self).worklist@.len() > 0,
        ensures
            final(self).wf(f),
            extends(&old(self).tm, &final(self).tm),
            final(self).lane_description == old(self).lane_description,
            final(self).budget() < old(self).budget(),
            ({
                let w = old(self).worklist@.last();
                let x = old(self).tm.vars@[w as int];
                r && x.def is None ==> (orig_def(f, x) matches Some(d) ==> replaces(&final(self).tm, d))
            }),
            !backward_ok(old(self), f, old(self).worklist@.last()) ==> !r,
            traces_alone(old(self), f, old(self).worklist@.last()) ==> r && final(self).worklist@ == old(self).worklist@.drop_last(),
    {
        let ghost s0 = *self;
        let rvn = self.worklist.pop().unwrap();
        proof {
            assert(s0.worklist@.last() == rvn);
            assert(s0.worklist@[s0.worklist@.len() - 1] == rvn);
            assert forall|w: int| 0 <= w < self.worklist@.len() implies (#[trigger] self.worklist@[w]) + 1
                < self.tm.vars@.len() && self.tm.vars@[self.worklist@[w] as int].vn is Some by {
                assert(self.worklist@[w] == s0.worklist@[w]);
            }
        }
        let ghost s1 = *self;
        proof {
            assert(backward_ok(&s1, f, rvn) == backward_ok(&s0, f, rvn));
        }
        if !self.trace_backward(f, rvn) {
            return false;
        }
        let ghost s2 = *self;
        proof {
            if traces_alone(&s0, f, rvn) {
                assert(self.worklist@ =~= s0.worklist@.drop_last());
                let vn = s0.tm.vars@[rvn as int].vn.unwrap();
                assert(s2.tm.vars@[rvn as int].vn == s0.tm.vars@[rvn as int].vn);
                assert forall|k: int| 0 <= k < f.descend_of(vn).len() implies reader_sure(&s2, f, #[trigger] f.descend_of(vn)[k]) by {
                    assert(reader_sure(&s0, f, f.descend_of(vn)[k]));
                }
            }
        }
        let r = self.trace_forward(f, rvn);
        proof {
            lemma_extends_trans(&s1.tm, &s2.tm, &self.tm);
            if let Some(d) = orig_def(f, s0.tm.vars@[rvn as int]) {
                if r && s0.tm.vars@[rvn as int].def is None {
                    lemma_replaces_extends(&s2.tm, &self.tm, d);
                }
            }
        }
        r
    }

    /// Trace the split through the data-flow, building the plan. Returns whether a whole plan was
    /// built: nothing was queued, or some value could not be traced, gives `false`; a single
    /// queued value that traces on its own ([`traces_alone`]) gives `true`.
    pub fn do_trace(&mut self, f: &Funcdata) -> (r: bool)
        requires
            old(self).wf(f),
        ensures
            final(self).wf(f),
            extends(&old(self).tm, &final(self).tm),
            final(self).lane_description == old(self).lane_description,
            r ==> old(self).worklist@.len() > 0,
            old(self).worklist@.len() == 1 && traces_alone(old(self), f, old(self).worklist@[0]) ==> r,
            ({
                let w = old(self).worklist@.last();
                let x = old(self).tm.vars@[w as int];
                r && x.def is None ==> (orig_def(f, x) matches Some(d) ==> replaces(&final(self).tm, d))
            }),
            old(self).worklist@.len() > 0 && !backward_ok(old(self), f, old(self).worklist@.last()) ==> !r,
            r ==> final(self).worklist@.len() == 0,
            old(self).worklist@.len() > 0 ==> forall|v: int| 0 <= v < final(self).marks@.len() ==> (#[trigger] final(self).marks@[v]) is None,
    {
        if self.worklist.len() == 0 {
            return false;
        }
        let ghost s0 = *self;
        let ghost w = s0.worklist@.last();
        let ghost x = s0.tm.vars@[w as int];
        let mut retval = self.process_next_work(f);
        while retval && self.worklist.len() > 0
            invariant
                self.wf(f),
                extends(&s0.tm, &self.tm),
                self.lane_description == s0.lane_description,
                retval ==> (x.def is None ==> (orig_def(f, x) matches Some(d) ==> replaces(&self.tm, d))),
                !backward_ok(&s0, f, w) ==> !retval,
                s0.worklist@.len() == 1 && traces_alone(&s0, f, s0.worklist@[0]) ==> retval && self.worklist@.len() == 0,
            decreases self.budget(),
        {
            let ghost p = *self;
            retval = self.process_next_work(f);
            proof {
                lemma_extends_trans(&s0.tm, &p.tm, &self.tm);
                if let Some(d) = orig_def(f, x) {
                    if retval && x.def is None {
                        lemma_replaces_extends(&p.tm, &self.tm, d);
                    }
                }
            }
        }
        self.clear_varnode_marks(f);
        retval
    }

    /// Forget which varnodes were split.
    fn clear_varnode_marks(&mut self, f: &Funcdata)
        requires
            old(self).wf(f),
        ensures
            final(self).wf(f),
            final(self).tm == old(self).tm,
            final(self).lane_description == old(self).lane_description,
            final(self).worklist == old(self).worklist,
            forall|v: int| 0 <= v < final(self).marks@.len() ==> (#[trigger] final(self).marks@[v]) is None,
    {
        let n = self.marks.len();
        let mut k: usize = 0;
        while k < n
            invariant
                k <= n,
                n == self.marks@.len(),
                n == f.vns@.len(),
                self.tm == old(self).tm,
                self.lane_description == old(self).lane_description,
                self.worklist == old(self).worklist,
                forall|v: int| 0 <= v < n ==> (#[trigger] self.marks@[v] matches Some(b) ==> b + 1 < self.tm.vars@.len()),
                forall|v: int| 0 <= v < k ==> (#[trigger] self.marks@[v]) is None,
            decreases n - k,
        {
            self.marks.set(k, None);
            k += 1;
        }
    }

    /// Apply the plan the trace built: the split ops are replaced by their lanes' ops, and the
    /// ops reading a single lane are rewritten.
    pub fn apply(&self, fd: &mut Funcdata)
        requires
            old(fd).wf(),
            self.tm.wf(old(fd)),
        ensures
            final(fd).wf(),
            forall|k: int| 0 <= k < self.tm.ops@.len() && (#[trigger] self.tm.ops@[k]).kind is Replace ==> final(fd).ops@[self.tm.ops@[k].op.0 as int].dead,
            forall|i: int| 0 <= i < old(fd).ops@.len() && !planned(self.tm.ops@, i) ==> #[trigger] final(fd).ops@[i] == old(fd).ops@[i],
    {
        self.tm.apply(fd);
    }
}

/// The low-lane size a SUBPIECE names: its offset constant, as a 32-bit signed number.
pub open spec fn subpiece_low_size(f: &Funcdata, op: OpId) -> i32 {
    f.vns@[f.ops@[op.0 as int].inrefs@[1].0 as int].loc.offset as i32
}

/// Detect and split artificially joined values: fires on a SUBPIECE taking the high part of a
/// value that comes from a PIECE reached through INDIRECTs or a MULTIEQUAL, whose low part has
/// the size the SUBPIECE leaves out.
pub struct RuleSplitFlow;

impl RuleSplitFlow {
    pub fn name(&self) -> (r: &'static str)
        ensures
            r@ == "splitflow"@,
    {
        "splitflow"
    }

    /// The operations the rule applies to.
    pub fn oplist(&self) -> (r: Vec<OpCode>)
        ensures
            r@ == seq![OpCode::Subpiece],
    {
        let mut v = Vec::new();
        v.push(OpCode::Subpiece);
        v
    }

    /// Apply the rule to the SUBPIECE `op`. Returns 1 when the value it reads was split: its low
    /// size (the offset constant) is not zero, the value it reads is written and not half of a
    /// double-precision value, its output is the rest of that value, the writer (seen through
    /// INDIRECTs) is a PIECE other than the direct writer, or a MULTIEQUAL one of whose inputs
    /// is written by a PIECE, that PIECE's low part has the SUBPIECE's low size, and the split
    /// traces through the whole data-flow; the value's writer is then replaced by its lanes.
    /// Otherwise returns 0 and changes nothing.
    pub fn apply_op(&mut self, op: OpId, data: &mut Funcdata) -> (r: u32)
        requires
            old(data).wf(),
            op.0 < old(data).ops@.len(),
        ensures
            final(data).wf(),
            r <= 1,
            r == 0 ==> *final(data) == *old(data),
            r == 1 ==> {
                let o = old(data).ops@[op.0 as int];
                let lo = subpiece_low_size(old(data), op);
                &&& o.inrefs@.len() >= 2
                &&& lo != 0
                &&& !old(data).vns@[o.inrefs@[0].0 as int].precis_lo && !old(data).vns@[o.inrefs@[0].0 as int].precis_hi
                &&& o.output matches Some(out) && old(data).vns@[out.0 as int].size as int + lo as int == old(data).vns@[o.inrefs@[0].0 as int].size as int
                &&& old(data).vns@[o.inrefs@[0].0 as int].def matches Some(d) && final(data).ops@[d.0 as int].dead
                &&& exists|p: int|
                    0 <= p < old(data).ops@.len() && (#[trigger] old(data).ops@[p]).opc == OpCode::Piece
                        && old(data).ops@[p].inrefs@.len() >= 2 && old(data).vns@[old(data).ops@[p].inrefs@[1].0 as int].size
                        == lo
            },
    {
        proof {
            assert(op_wf(data.ops@[op.0 as int], data.vns@.len(), data.ops@.len(), data.blocks@.len()));
        }
        if data.op(op).num_inputs() < 2 {
            return 0;
        }
        let c = data.op(op).inrefs[1];
        let lo_size: i32 = #[verifier::truncate] (data.vn(c).constant_value() as i32);
        if lo_size == 0 {
            return 0;
        }
        let vn = data.op(op).inrefs[0];
        if !data.vn(vn).is_written() {
            return 0;
        }
        if data.vn(vn).is_precis_lo() || data.vn(vn).is_precis_hi() {
            return 0;
        }
        let out = match data.op(op).output {
            Some(o) => o,
            None => return 0,
        };
        if (data.vn(out).size as i64) + (lo_size as i64) != data.vn(vn).size as i64 {
            return 0;
        }
        proof {
            assert(vn_wf(data.vns@[vn.0 as int], data.ops@.len()));
        }
        let def = match data.vn(vn).def {
            Some(d) => d,
            None => return 0,
        };
        // The PIECE may come through INDIRECTs (a chain that loops back on itself cannot).
        let mut multi_op = def;
        let mut fuel = data.num_ops();
        while data.op(multi_op).code() == OpCode::Indirect
            invariant
                data.wf(),
                multi_op.0 < data.ops@.len(),
            decreases fuel,
        {
            if fuel == 0 {
                return 0;
            }
            fuel -= 1;
            proof {
                assert(op_wf(data.ops@[multi_op.0 as int], data.vns@.len(), data.ops@.len(), data.blocks@.len()));
            }
            let tmpvn = match data.op(multi_op).input(0) {
                Some(t) => t,
                None => return 0,
            };
            proof {
                assert(vn_wf(data.vns@[tmpvn.0 as int], data.ops@.len()));
            }
            match data.vn(tmpvn).def {
                Some(d) => {
                    multi_op = d;
                },
                None => return 0,
            }
        }
        let mut concat_op: Option<OpId> = None;
        if data.op(multi_op).code() == OpCode::Piece {
            if multi_op != def {
                concat_op = Some(multi_op);
            }
        } else if data.op(multi_op).code() == OpCode::Multiequal {
            proof {
                assert(op_wf(data.ops@[multi_op.0 as int], data.vns@.len(), data.ops@.len(), data.blocks@.len()));
            }
            let n = data.op(multi_op).num_inputs();
            let mut i: usize = 0;
            while i < n && concat_op.is_none()
                invariant
                    data.wf(),
                    multi_op.0 < data.ops@.len(),
                    n == data.ops@[multi_op.0 as int].inrefs@.len(),
                    i <= n,
                    concat_op matches Some(p) ==> p.0 < data.ops@.len() && data.ops@[p.0 as int].opc == OpCode::Piece,
                decreases n - i,
            {
                let invn = data.op(multi_op).inrefs[i];
                proof {
                    assert(op_wf(data.ops@[multi_op.0 as int], data.vns@.len(), data.ops@.len(), data.blocks@.len()));
                    assert(vn_wf(data.vns@[invn.0 as int], data.ops@.len()));
                }
                match data.vn(invn).def {
                    Some(tmp_op) => {
                        if data.op(tmp_op).code() == OpCode::Piece {
                            concat_op = Some(tmp_op);
                        }
                    },
                    None => {},
                }
                i += 1;
            }
        }
        let concat = match concat_op {
            Some(p) => p,
            None => return 0,
        };
        proof {
            assert(op_wf(data.ops@[concat.0 as int], data.vns@.len(), data.ops@.len(), data.blocks@.len()));
        }
        let c1 = match data.op(concat).input(1) {
            Some(x) => x,
            None => return 0,
        };
        if data.vn(c1).size as i64 != lo_size as i64 {
            return 0;
        }
        let mut split_flow = SplitFlow::new(data, vn, lo_size);
        if !split_flow.do_trace(data) {
            return 0;
        }
        split_flow.apply(data);
        proof {
            let k = choose|k: int|
                0 <= k < split_flow.tm.ops@.len() && (#[trigger] split_flow.tm.ops@[k]).kind == TOpKind::Replace
                    && split_flow.tm.ops@[k].op == def;
            assert(split_flow.tm.ops@[k].kind is Replace);
            assert(old(data).ops@[concat.0 as int].opc == OpCode::Piece);
        }
        1
    }
}

} // verus!
