//! A planned rewrite of part of a function's data-flow: placeholder variables and ops are
//! gathered first, while the function is only read, and the whole plan is then applied at once,
//! so that a trace which fails halfway leaves the function untouched.

use vstd::prelude::*;

use crate::funcdata::{op_wf, same_but_inputs, Funcdata, OpId, PcodeOp, Varnode, VarnodeId};
use crate::opcode::OpCode;
use crate::space::{calc_mask, byte_mask, Address, SpaceKind};

verus! {

/// How a placeholder variable becomes a varnode when the plan is applied.
#[derive(Clone, Copy, PartialEq, Eq, Structural, Debug)]
pub enum TVarKind {
    /// An existing varnode, used as it is.
    Preexisting,
    /// A new constant.
    Constant,
    /// A new temporary.
    NormalTemp,
    /// A lane of an existing varnode, kept at the lane's own address.
    Piece,
    /// A lane of an existing varnode that lives in a temporary of its own.
    PieceTemp,
}

/// A placeholder for a value of the rewritten data-flow.
#[derive(Clone, Copy, Debug)]
pub struct TransformVar {
    pub kind: TVarKind,
    /// The varnode this stands for, or is a lane of.
    pub vn: Option<VarnodeId>,
    /// Size in bytes.
    pub size: u32,
    /// For a lane, the byte offset of its least significant byte within the varnode it is a lane of.
    pub bytepos: u32,
    /// For a constant, its value.
    pub val: u64,
    /// The placeholder op writing this value.
    pub def: Option<usize>,
}

/// Where a placeholder op comes from when the plan is applied.
#[derive(Clone, Copy, PartialEq, Eq, Structural, Debug)]
pub enum TOpKind {
    /// A new op placed just before the op it replaces, which is then destroyed.
    Replace,
    /// The existing op itself, given a new opcode and new inputs.
    Preexisting,
    /// A new op placed just before the op that the placeholder op with this index becomes.
    Before(usize),
}

/// A placeholder for an op of the rewritten data-flow.
#[derive(Debug)]
pub struct TransformOp {
    pub opc: OpCode,
    /// The placeholder variable it writes.
    pub output: Option<usize>,
    /// The placeholder variables it reads, by slot.
    pub input: Vec<Option<usize>>,
    /// The op replaced or rewritten; for [`TOpKind::Before`], the op of the placeholder it
    /// precedes.
    pub op: OpId,
    pub kind: TOpKind,
    /// For an INDIRECT, the op whose side effect it models.
    pub guard: Option<OpId>,
    /// Its output stands for a value a call creates.
    pub indirect_creation: bool,
}

/// A split of a value into a low lane and a high lane, by byte size.
#[derive(Clone, Copy, Debug)]
pub struct LaneDescription {
    pub whole: u32,
    pub lo: u32,
    pub hi: u32,
}

impl LaneDescription {
    /// A two-lane split of a `whole`-byte value: `lo` bytes at offset 0, `hi` bytes after them.
    pub fn two(whole: u32, lo: u32, hi: u32) -> (r: LaneDescription)
        ensures
            r.whole == whole && r.lo == lo && r.hi == hi,
    {
        LaneDescription { whole, lo, hi }
    }

    /// The size of lane `i` (0 is the low lane).
    pub fn size(&self, i: usize) -> (r: u32)
        requires
            i < 2,
        ensures
            r == if i == 0 { self.lo } else { self.hi },
    {
        if i == 0 { self.lo } else { self.hi }
    }

    /// The byte offset of lane `i` within the whole.
    pub fn position(&self, i: usize) -> (r: u32)
        requires
            i < 2,
        ensures
            r == if i == 0 { 0 } else { self.lo },
    {
        if i == 0 { 0 } else { self.lo }
    }

    pub fn whole_size(&self) -> (r: u32)
        ensures
            r == self.whole,
    {
        self.whole
    }
}

/// `val` shifted right by `bits` (0 once every bit is shifted out).
pub open spec fn shr_spec(val: u64, bits: u64) -> u64 {
    if bits >= 64 { 0 } else { val >> bits }
}

fn shr(val: u64, bits: u64) -> (r: u64)
    ensures
        r == shr_spec(val, bits),
{
    if bits >= 64 { 0 } else { val >> bits }
}

/// The value of the `size`-byte lane at bit `lsb` of the constant `val`.
pub open spec fn lane_value(val: u64, lsb: u64, size: u32) -> u64 {
    shr_spec(val, lsb) & byte_mask(size as nat)
}

/// A placeholder variable's handles are in range for `f` and for a plan with `nops` ops.
pub open spec fn tvar_wf(v: TransformVar, nvns: nat, nops: nat) -> bool {
    &&& (v.vn matches Some(x) ==> x.0 < nvns)
    &&& (v.def matches Some(d) ==> d < nops)
    &&& (v.kind is Preexisting || v.kind is Piece || v.kind is PieceTemp ==> v.vn is Some)
}

/// A placeholder op's handles are in range, and one placed before another refers back.
pub open spec fn top_wf(o: TransformOp, k: int, nvars: nat, nfops: nat) -> bool {
    &&& o.op.0 < nfops
    &&& (o.output matches Some(x) ==> x < nvars)
    &&& forall|s: int| 0 <= s < o.input@.len() ==> (#[trigger] o.input@[s] matches Some(x) ==> x < nvars)
    &&& (o.kind matches TOpKind::Before(j) ==> 0 <= j < k)
    &&& (o.guard matches Some(g) ==> g.0 < nfops)
}

/// The varnodes the first `n` input slots of a placeholder op became (`vreps` per placeholder
/// variable), unset slots left out.
pub open spec fn placed_inputs(input: Seq<Option<usize>>, vreps: Seq<VarnodeId>, n: int) -> Seq<VarnodeId>
    decreases n,
{
    if n <= 0 {
        Seq::empty()
    } else {
        let p = placed_inputs(input, vreps, n - 1);
        match input[n - 1] {
            Some(x) => p.push(vreps[x as int]),
            None => p,
        }
    }
}

/// The op with index `i` of the function is named by some placeholder op.
pub open spec fn planned(ops: Seq<TransformOp>, i: int) -> bool {
    exists|k: int| 0 <= k < ops.len() && (#[trigger] ops[k]).op.0 == i
}

/// The plan `b` extends `a`: its earlier variables and ops are those of `a`, though a variable
/// may have gained a writer and an op its inputs and output.
pub open spec fn extends(a: &TransformManager, b: &TransformManager) -> bool {
    &&& a.vars@.len() <= b.vars@.len()
    &&& a.ops@.len() <= b.ops@.len()
    &&& forall|i: int|
        0 <= i < a.vars@.len() ==> {
            let (x, y) = (a.vars@[i], #[trigger] b.vars@[i]);
            &&& y.kind == x.kind && y.vn == x.vn && y.size == x.size && y.bytepos == x.bytepos && y.val == x.val
        }
    &&& forall|k: int|
        0 <= k < a.ops@.len() ==> {
            let (x, y) = (a.ops@[k], #[trigger] b.ops@[k]);
            &&& y.opc == x.opc && y.op == x.op && y.kind == x.kind
        }
}

/// Extending a plan is transitive.
pub proof fn lemma_extends_trans(a: &TransformManager, b: &TransformManager, c: &TransformManager)
    requires
        extends(a, b),
        extends(b, c),
    ensures
        extends(a, c),
{
    assert forall|i: int| 0 <= i < a.vars@.len() implies {
        let (x, y) = (a.vars@[i], #[trigger] c.vars@[i]);
        &&& y.kind == x.kind && y.vn == x.vn && y.size == x.size && y.bytepos == x.bytepos && y.val == x.val
    } by {
        assert(b.vars@[i].vn == a.vars@[i].vn);
    }
    assert forall|k: int| 0 <= k < a.ops@.len() implies {
        let (x, y) = (a.ops@[k], #[trigger] c.ops@[k]);
        &&& y.opc == x.opc && y.op == x.op && y.kind == x.kind
    } by {
        assert(b.ops@[k].op == a.ops@[k].op);
    }
}

/// The placeholder variables and ops of a rewrite under construction.
pub struct TransformManager {
    pub vars: Vec<TransformVar>,
    pub ops: Vec<TransformOp>,
    /// Per existing varnode, the first of its placeholder variables (a split's low lane, or the
    /// varnode itself): the first entry for a varnode counts.
    pub pieces: Vec<(VarnodeId, usize)>,
}

/// The first entry of `pieces` for `v`, if any.
pub open spec fn piece_entry(pieces: Seq<(VarnodeId, usize)>, v: VarnodeId) -> Option<usize>
    decreases pieces.len(),
{
    if pieces.len() == 0 {
        None
    } else if pieces[0].0 == v {
        Some(pieces[0].1)
    } else {
        piece_entry(pieces.drop_first(), v)
    }
}

proof fn lemma_piece_entry_bound(pieces: Seq<(VarnodeId, usize)>, v: VarnodeId, n: nat)
    requires
        forall|i: int| 0 <= i < pieces.len() ==> (#[trigger] pieces[i]).1 < n,
    ensures
        piece_entry(pieces, v) matches Some(b) ==> b < n,
    decreases pieces.len(),
{
    if pieces.len() > 0 && pieces[0].0 != v {
        lemma_piece_entry_bound(pieces.drop_first(), v, n);
    }
}

impl TransformManager {
    /// An empty plan.
    pub fn new() -> (r: TransformManager)
        ensures
            r.vars@.len() == 0,
            r.ops@.len() == 0,
            r.pieces@.len() == 0,
    {
        TransformManager { vars: Vec::new(), ops: Vec::new(), pieces: Vec::new() }
    }

    /// Every handle in the plan is in range for `f` and for the plan itself.
    pub open spec fn wf(&self, f: &Funcdata) -> bool {
        &&& forall|i: int| 0 <= i < self.vars@.len() ==> tvar_wf(#[trigger] self.vars@[i], f.vns@.len(), self.ops@.len())
        &&& forall|k: int| 0 <= k < self.ops@.len() ==> top_wf(#[trigger] self.ops@[k], k, self.vars@.len(), f.ops@.len())
        &&& forall|i: int|
            0 <= i < self.pieces@.len() ==> (#[trigger] self.pieces@[i]).0.0 < f.vns@.len() && self.pieces@[i].1
                < self.vars@.len()
    }

    /// The high-lane placeholder of the split whose low lane is `lo`.
    pub fn high(&self, lo: usize) -> (r: usize)
        requires
            lo + 1 < self.vars@.len(),
        ensures
            r == lo + 1,
    {
        let _n = self.vars.len();
        lo + 1
    }

    /// The placeholder variable with index `i`.
    pub fn var(&self, i: usize) -> (r: &TransformVar)
        requires
            i < self.vars@.len(),
        ensures
            *r == self.vars@[i as int],
    {
        &self.vars[i]
    }

    /// The first placeholder of `v` recorded so far.
    fn find_piece(&self, v: VarnodeId) -> (r: Option<usize>)
        ensures
            r == piece_entry(self.pieces@, v),
    {
        let mut i: usize = 0;
        while i < self.pieces.len()
            invariant
                i <= self.pieces@.len(),
                forall|j: int| 0 <= j < i ==> (#[trigger] self.pieces@[j]).0 != v,
            decreases self.pieces@.len() - i,
        {
            if self.pieces[i].0 == v {
                proof {
                    lemma_piece_entry_at(self.pieces@, i as int, v);
                }
                return Some(self.pieces[i].1);
            }
            i += 1;
        }
        proof {
            lemma_piece_entry_none(self.pieces@, v);
        }
        None
    }

    /// Record `base` as the first placeholder of `v`, replacing an earlier record.
    fn set_piece(&mut self, v: VarnodeId, base: usize)
        ensures
            final(self).vars == old(self).vars,
            final(self).ops == old(self).ops,
            piece_entry(final(self).pieces@, v) == Some(base),
            forall|i: int|
                0 <= i < final(self).pieces@.len() ==> #[trigger] final(self).pieces@[i] == (v, base) || old(self).pieces@.contains(final(self).pieces@[i]),
    {
        let mut i: usize = 0;
        while i < self.pieces.len()
            invariant
                i <= self.pieces@.len(),
                self.pieces == old(self).pieces,
                self.vars == old(self).vars,
                self.ops == old(self).ops,
                forall|j: int| 0 <= j < i ==> (#[trigger] self.pieces@[j]).0 != v,
            decreases self.pieces@.len() - i,
        {
            if self.pieces[i].0 == v {
                self.pieces.set(i, (v, base));
                proof {
                    assert forall|j: int| 0 <= j < i implies (#[trigger] self.pieces@[j]).0 != v by {
                        assert(self.pieces@[j] == old(self).pieces@[j]);
                    }
                    lemma_piece_entry_at(self.pieces@, i as int, v);
                    assert forall|j: int| 0 <= j < self.pieces@.len() implies #[trigger] self.pieces@[j] == (v, base)
                        || old(self).pieces@.contains(self.pieces@[j]) by {
                        if j != i {
                            assert(old(self).pieces@[j] == self.pieces@[j]);
                        }
                    }
                }
                return;
            }
            i += 1;
        }
        let ghost p0 = self.pieces@;
        self.pieces.push((v, base));
        proof {
            assert forall|j: int| 0 <= j < p0.len() implies (#[trigger] self.pieces@[j]).0 != v by {
                assert(self.pieces@[j] == p0[j]);
            }
            lemma_piece_entry_at(self.pieces@, p0.len() as int, v);
            assert forall|j: int| 0 <= j < self.pieces@.len() implies #[trigger] self.pieces@[j] == (v, base)
                || old(self).pieces@.contains(self.pieces@[j]) by {
                if j < p0.len() {
                    assert(old(self).pieces@[j] == self.pieces@[j]);
                }
            }
        }
    }

    /// A placeholder for the existing varnode `vn`, used as it is.
    pub fn new_preexisting_varnode(&mut self, f: &Funcdata, vn: VarnodeId) -> (r: usize)
        requires
            old(self).wf(f),
            vn.0 < f.vns@.len(),
        ensures
            final(self).wf(f),
            extends(old(self), final(self)),
            r == old(self).vars@.len(),
            final(self).vars@.len() == r + 1,
            final(self).ops@ == old(self).ops@,
            final(self).vars@[r as int].kind == TVarKind::Preexisting,
            final(self).vars@[r as int].vn == Some(vn),
            piece_entry(final(self).pieces@, vn) == Some(r),
    {
        let r = self.vars.len();
        self.vars.push(
            TransformVar {
                kind: TVarKind::Preexisting,
                vn: Some(vn),
                size: f.vn(vn).size,
                bytepos: 0,
                val: 0,
                def: None,
            },
        );
        self.set_piece(vn, r);
        proof {
            self.lemma_pieces_wf(old(self), f, vn, r);
        }
        r
    }

    proof fn lemma_pieces_wf(&self, prev: &TransformManager, f: &Funcdata, vn: VarnodeId, base: usize)
        requires
            vn.0 < f.vns@.len(),
            base < self.vars@.len(),
            forall|i: int|
                0 <= i < prev.pieces@.len() ==> (#[trigger] prev.pieces@[i]).0.0 < f.vns@.len() && prev.pieces@[i].1
                    < prev.vars@.len(),
            prev.vars@.len() <= self.vars@.len(),
            forall|i: int|
                0 <= i < self.pieces@.len() ==> #[trigger] self.pieces@[i] == (vn, base) || prev.pieces@.contains(
                    self.pieces@[i],
                ),
        ensures
            forall|i: int|
                0 <= i < self.pieces@.len() ==> (#[trigger] self.pieces@[i]).0.0 < f.vns@.len() && self.pieces@[i].1
                    < self.vars@.len(),
    {
        assert forall|i: int| 0 <= i < self.pieces@.len() implies (#[trigger] self.pieces@[i]).0.0 < f.vns@.len()
            && self.pieces@[i].1 < self.vars@.len() by {
            if self.pieces@[i] != (vn, base) {
                let j = choose|j: int| 0 <= j < prev.pieces@.len() && prev.pieces@[j] == self.pieces@[i];
                assert(prev.pieces@[j].0.0 < f.vns@.len());
            }
        }
    }

    /// The placeholder that reads `vn` as it stands: a new constant for a constant, else the
    /// varnode's first recorded placeholder (its low lane, once split), else a new one for it.
    pub fn get_preexisting_varnode(&mut self, f: &Funcdata, vn: VarnodeId) -> (r: usize)
        requires
            old(self).wf(f),
            vn.0 < f.vns@.len(),
        ensures
            final(self).wf(f),
            extends(old(self), final(self)),
            r < final(self).vars@.len(),
            final(self).ops@ == old(self).ops@,
            f.vns@[vn.0 as int].constant ==> final(self).vars@[r as int].kind == TVarKind::Constant && final(self).vars@[r as int].val == lane_value(f.vns@[vn.0 as int].loc.offset, 0, f.vns@[vn.0 as int].size),
            !f.vns@[vn.0 as int].constant ==> piece_entry(final(self).pieces@, vn) == Some(r),
    {
        if f.vn(vn).is_constant() {
            let size = f.vn(vn).size;
            let val = f.vn(vn).constant_value();
            return self.new_constant(f, size, 0, val);
        }
        match self.find_piece(vn) {
            Some(b) => {
                proof {
                    lemma_piece_entry_bound(self.pieces@, vn, self.vars@.len());
                }
                b
            },
            None => self.new_preexisting_varnode(f, vn),
        }
    }

    /// A placeholder for a new temporary of `size` bytes.
    pub fn new_unique(&mut self, f: &Funcdata, size: u32) -> (r: usize)
        requires
            old(self).wf(f),
        ensures
            final(self).wf(f),
            extends(old(self), final(self)),
            r == old(self).vars@.len(),
            final(self).vars@.len() == r + 1,
            final(self).ops@ == old(self).ops@,
            final(self).pieces@ == old(self).pieces@,
            final(self).vars@[r as int].kind == TVarKind::NormalTemp,
            final(self).vars@[r as int].size == size,
            final(self).vars@[r as int].def is None,
    {
        let r = self.vars.len();
        self.vars.push(TransformVar { kind: TVarKind::NormalTemp, vn: None, size, bytepos: 0, val: 0, def: None });
        r
    }

    /// A placeholder for a new `size`-byte constant: the lane at bit `lsb` of `val`.
    pub fn new_constant(&mut self, f: &Funcdata, size: u32, lsb: u64, val: u64) -> (r: usize)
        requires
            old(self).wf(f),
        ensures
            final(self).wf(f),
            extends(old(self), final(self)),
            r == old(self).vars@.len(),
            final(self).vars@.len() == r + 1,
            final(self).ops@ == old(self).ops@,
            final(self).pieces@ == old(self).pieces@,
            final(self).vars@[r as int].kind == TVarKind::Constant,
            final(self).vars@[r as int].size == size,
            final(self).vars@[r as int].val == lane_value(val, lsb, size),
            final(self).vars@[r as int].def is None,
    {
        let r = self.vars.len();
        let v = shr(val, lsb) & calc_mask(size);
        self.vars.push(TransformVar { kind: TVarKind::Constant, vn: None, size, bytepos: 0, val: v, def: None });
        r
    }

    /// Placeholders for the two lanes of `vn` (low first), recorded as its placeholder: for a
    /// constant, the constants of its lanes; else lanes kept at their own address unless the
    /// varnode is a temporary.
    pub fn new_split(&mut self, f: &Funcdata, vn: VarnodeId, desc: &LaneDescription) -> (r: usize)
        requires
            old(self).wf(f),
            f.wf(),
            vn.0 < f.vns@.len(),
        ensures
            final(self).wf(f),
            extends(old(self), final(self)),
            r == old(self).vars@.len(),
            final(self).vars@.len() == r + 2,
            final(self).vars@.take(r as int) == old(self).vars@,
            final(self).ops@ == old(self).ops@,
            piece_entry(final(self).pieces@, vn) == Some(r),
            forall|i: int|
                0 <= i < 2 ==> {
                    let v = #[trigger] final(self).vars@[r + i];
                    &&& v.size == if i == 0 { desc.lo } else { desc.hi }
                    &&& v.def is None
                    &&& f.vns@[vn.0 as int].constant ==> v.kind == TVarKind::Constant && v.val == lane_value(
                        f.vns@[vn.0 as int].loc.offset,
                        (8 * (if i == 0 { 0 } else { desc.lo as int })) as u64,
                        v.size,
                    )
                    &&& !f.vns@[vn.0 as int].constant ==> (v.kind == TVarKind::Piece || v.kind == TVarKind::PieceTemp)
                        && v.vn == Some(vn) && v.bytepos == if i == 0 { 0 } else { desc.lo }
                },
    {
        let r = self.vars.len();
        let mut i: usize = 0;
        while i < 2
            invariant
                i <= 2,
                r == old(self).vars@.len(),
                self.vars@.len() == r + i,
                self.vars@.take(r as int) == old(self).vars@,
                self.ops == old(self).ops,
                self.pieces == old(self).pieces,
                f.wf(),
                vn.0 < f.vns@.len(),
                forall|j: int|
                    0 <= j < i ==> {
                        let v = #[trigger] self.vars@[r + j];
                        &&& (v.vn matches Some(x) ==> x == vn)
                        &&& v.size == if j == 0 { desc.lo } else { desc.hi }
                        &&& v.def is None
                        &&& f.vns@[vn.0 as int].constant ==> v.kind == TVarKind::Constant && v.val == lane_value(
                            f.vns@[vn.0 as int].loc.offset,
                            (8 * (if j == 0 { 0 } else { desc.lo as int })) as u64,
                            v.size,
                        )
                        &&& !f.vns@[vn.0 as int].constant ==> (v.kind == TVarKind::Piece || v.kind
                            == TVarKind::PieceTemp) && v.vn == Some(vn) && v.bytepos == if j == 0 { 0 } else { desc.lo }
                    },
            decreases 2 - i,
        {
            let size = desc.size(i);
            let pos = desc.position(i);
            let o = f.vn(vn);
            let nv = if o.is_constant() {
                let bits: u64 = 8 * (pos as u64);
                let v = shr(o.constant_value(), bits) & calc_mask(size);
                TransformVar { kind: TVarKind::Constant, vn: None, size, bytepos: 0, val: v, def: None }
            } else {
                proof {
                    assert(f.vns@[vn.0 as int].loc.space.0 < f.spaces@.len());
                }
                let kind = if f.spaces.get(o.loc.space).kind == SpaceKind::Internal {
                    TVarKind::PieceTemp
                } else {
                    TVarKind::Piece
                };
                TransformVar { kind, vn: Some(vn), size, bytepos: pos, val: 0, def: None }
            };
            let ghost before = self.vars@;
            self.vars.push(nv);
            proof {
                assert(self.vars@.take(r as int) =~= before.take(r as int));
                assert forall|j: int| 0 <= j < i + 1 implies {
                    let v = #[trigger] self.vars@[r + j];
                    &&& (v.vn matches Some(x) ==> x == vn)
                    &&& v.size == if j == 0 { desc.lo } else { desc.hi }
                    &&& v.def is None
                    &&& f.vns@[vn.0 as int].constant ==> v.kind == TVarKind::Constant && v.val == lane_value(
                        f.vns@[vn.0 as int].loc.offset,
                        (8 * (if j == 0 { 0 } else { desc.lo as int })) as u64,
                        v.size,
                    )
                    &&& !f.vns@[vn.0 as int].constant ==> (v.kind == TVarKind::Piece || v.kind == TVarKind::PieceTemp)
                        && v.vn == Some(vn) && v.bytepos == if j == 0 { 0 } else { desc.lo }
                } by {
                    if j < i {
                        assert(self.vars@[r + j] == before[r + j]);
                    }
                }
            }
            i += 1;
        }
        let ghost mid = *self;
        self.set_piece(vn, r);
        proof {
            assert forall|k: int| 0 <= k < self.vars@.len() implies tvar_wf(#[trigger] self.vars@[k], f.vns@.len(), self.ops@.len()) by {
                if k < r {
                    assert(self.vars@.take(r as int)[k] == self.vars@[k]);
                    assert(tvar_wf(old(self).vars@[k], f.vns@.len(), old(self).ops@.len()));
                } else {
                    let j = k - r;
                    assert(self.vars@[r + j] == self.vars@[k]);
                }
            }
            assert forall|k: int| 0 <= k < self.ops@.len() implies top_wf(#[trigger] self.ops@[k], k, self.vars@.len(), f.ops@.len()) by {
                assert(top_wf(old(self).ops@[k], k, old(self).vars@.len(), f.ops@.len()));
            }
            self.lemma_pieces_wf(old(self), f, vn, r);
            assert forall|k: int| 0 <= k < old(self).vars@.len() implies #[trigger] self.vars@[k] == old(self).vars@[k] by {
                assert(self.vars@.take(r as int)[k] == self.vars@[k]);
            }
        }
        r
    }

    /// A placeholder for a new op with `num` unset inputs, replacing `replace`.
    pub fn new_op_replace(&mut self, f: &Funcdata, num: usize, opc: OpCode, replace: OpId) -> (r: usize)
        requires
            old(self).wf(f),
            replace.0 < f.ops@.len(),
        ensures
            final(self).wf(f),
            extends(old(self), final(self)),
            r == old(self).ops@.len(),
            final(self).ops@.len() == r + 1,
            forall|j: int| 0 <= j < r ==> #[trigger] final(self).ops@[j] == old(self).ops@[j],
            final(self).vars@ == old(self).vars@,
            final(self).pieces@ == old(self).pieces@,
            final(self).ops@[r as int].opc == opc,
            final(self).ops@[r as int].op == replace,
            final(self).ops@[r as int].kind == TOpKind::Replace,
            final(self).ops@[r as int].input@.len() == num,
            final(self).ops@[r as int].output is None,
    {
        self.push_op(f, num, opc, replace, TOpKind::Replace)
    }

    /// A placeholder for a new op with `num` unset inputs, placed just before what the
    /// placeholder op `follow` becomes.
    pub fn new_op(&mut self, f: &Funcdata, num: usize, opc: OpCode, follow: usize) -> (r: usize)
        requires
            old(self).wf(f),
            follow < old(self).ops@.len(),
        ensures
            final(self).wf(f),
            extends(old(self), final(self)),
            r == old(self).ops@.len(),
            final(self).ops@.len() == r + 1,
            forall|j: int| 0 <= j < r ==> #[trigger] final(self).ops@[j] == old(self).ops@[j],
            final(self).vars@ == old(self).vars@,
            final(self).pieces@ == old(self).pieces@,
            final(self).ops@[r as int].opc == opc,
            final(self).ops@[r as int].op == old(self).ops@[follow as int].op,
            final(self).ops@[r as int].kind == TOpKind::Before(follow),
            final(self).ops@[r as int].input@.len() == num,
            final(self).ops@[r as int].output is None,
    {
        let op = self.ops[follow].op;
        proof {
            assert(top_wf(self.ops@[follow as int], follow as int, self.vars@.len(), f.ops@.len()));
        }
        self.push_op(f, num, opc, op, TOpKind::Before(follow))
    }

    /// A placeholder that rewrites the existing op `orig` in place, with `num` unset inputs.
    pub fn new_preexisting_op(&mut self, f: &Funcdata, num: usize, opc: OpCode, orig: OpId) -> (r: usize)
        requires
            old(self).wf(f),
            orig.0 < f.ops@.len(),
        ensures
            final(self).wf(f),
            extends(old(self), final(self)),
            r == old(self).ops@.len(),
            final(self).ops@.len() == r + 1,
            forall|j: int| 0 <= j < r ==> #[trigger] final(self).ops@[j] == old(self).ops@[j],
            final(self).vars@ == old(self).vars@,
            final(self).pieces@ == old(self).pieces@,
            final(self).ops@[r as int].opc == opc,
            final(self).ops@[r as int].op == orig,
            final(self).ops@[r as int].kind == TOpKind::Preexisting,
            final(self).ops@[r as int].input@.len() == num,
            final(self).ops@[r as int].output is None,
    {
        self.push_op(f, num, opc, orig, TOpKind::Preexisting)
    }

    fn push_op(&mut self, f: &Funcdata, num: usize, opc: OpCode, op: OpId, kind: TOpKind) -> (r: usize)
        requires
            old(self).wf(f),
            op.0 < f.ops@.len(),
            kind matches TOpKind::Before(j) ==> j < old(self).ops@.len(),
        ensures
            final(self).wf(f),
            extends(old(self), final(self)),
            r == old(self).ops@.len(),
            final(self).ops@.len() == r + 1,
            forall|j: int| 0 <= j < r ==> #[trigger] final(self).ops@[j] == old(self).ops@[j],
            final(self).ops@.take(r as int) == old(self).ops@,
            final(self).vars@ == old(self).vars@,
            final(self).pieces@ == old(self).pieces@,
            final(self).ops@[r as int].opc == opc,
            final(self).ops@[r as int].op == op,
            final(self).ops@[r as int].kind == kind,
            final(self).ops@[r as int].input@.len() == num,
            final(self).ops@[r as int].output is None,
            final(self).ops@[r as int].guard is None,
            !final(self).ops@[r as int].indirect_creation,
    {
        let mut input: Vec<Option<usize>> = Vec::new();
        let mut i: usize = 0;
        while i < num
            invariant
                i <= num,
                input@.len() == i,
                forall|s: int| 0 <= s < i ==> (#[trigger] input@[s]) is None,
            decreases num - i,
        {
            input.push(None);
            i += 1;
        }
        let r = self.ops.len();
        self.ops.push(TransformOp { opc, output: None, input, op, kind, guard: None, indirect_creation: false });
        proof {
            assert(self.ops@.take(r as int) =~= old(self).ops@);
            assert forall|k: int| 0 <= k < self.ops@.len() implies top_wf(#[trigger] self.ops@[k], k, self.vars@.len(), f.ops@.len()) by {
                if k < r {
                    assert(self.ops@[k] == old(self).ops@[k]);
                    assert(top_wf(old(self).ops@[k], k, old(self).vars@.len(), f.ops@.len()));
                }
            }
            assert forall|k: int| 0 <= k < self.vars@.len() implies tvar_wf(#[trigger] self.vars@[k], f.vns@.len(), self.ops@.len()) by {
                assert(tvar_wf(old(self).vars@[k], f.vns@.len(), old(self).ops@.len()));
            }
            assert forall|k: int| 0 <= k < old(self).ops@.len() implies #[trigger] self.ops@[k] == old(self).ops@[k] by {
                assert(self.ops@.take(r as int)[k] == self.ops@[k]);
            }
        }
        r
    }

    /// Make placeholder variable `v` input `slot` of placeholder op `k`.
    pub fn op_set_input(&mut self, f: &Funcdata, k: usize, v: usize, slot: usize)
        requires
            old(self).wf(f),
            k < old(self).ops@.len(),
            v < old(self).vars@.len(),
            slot < old(self).ops@[k as int].input@.len(),
        ensures
            final(self).wf(f),
            extends(old(self), final(self)),
            final(self).vars@ == old(self).vars@,
            final(self).pieces@ == old(self).pieces@,
            final(self).ops@.len() == old(self).ops@.len(),
            forall|j: int| 0 <= j < old(self).ops@.len() && j != k ==> #[trigger] final(self).ops@[j] == old(self).ops@[j],
            final(self).ops@[k as int].input@ == old(self).ops@[k as int].input@.update(slot as int, Some(v)),
            final(self).ops@[k as int].output == old(self).ops@[k as int].output,
            final(self).ops@[k as int].guard == old(self).ops@[k as int].guard,
            final(self).ops@[k as int].indirect_creation == old(self).ops@[k as int].indirect_creation,
    {
        let ghost o = self.ops@;
        let mut t = self.take_op(k);
        t.input.set(slot, Some(v));
        self.ops.set(k, t);
        proof {
            assert forall|j: int| 0 <= j < self.ops@.len() implies top_wf(#[trigger] self.ops@[j], j, self.vars@.len(), f.ops@.len()) by {
                assert(top_wf(old(self).ops@[j], j, old(self).vars@.len(), f.ops@.len()));
                if j == k {
                    assert forall|s: int| 0 <= s < self.ops@[j].input@.len() implies (#[trigger] self.ops@[j].input@[s]
                        matches Some(x) ==> x < self.vars@.len()) by {
                        if s != slot {
                            assert(self.ops@[j].input@[s] == old(self).ops@[j].input@[s]);
                        }
                    }
                }
            }
        }
    }

    /// Take placeholder op `k` out of the plan (a placeholder with no inputs takes its place).
    fn take_op(&mut self, k: usize) -> (r: TransformOp)
        requires
            k < old(self).ops@.len(),
        ensures
            r == old(self).ops@[k as int],
            final(self).vars == old(self).vars,
            final(self).pieces == old(self).pieces,
            final(self).ops@.len() == old(self).ops@.len(),
            forall|j: int| 0 <= j < old(self).ops@.len() && j != k ==> #[trigger] final(self).ops@[j] == old(self).ops@[j],
    {
        let o = self.ops[k].op;
        let kind = self.ops[k].kind;
        let opc = self.ops[k].opc;
        let mut t = TransformOp { opc, output: None, input: Vec::new(), op: o, kind, guard: None, indirect_creation: false };
        std::mem::swap(&mut self.ops[k], &mut t);
        t
    }

    /// Make placeholder variable `v` the output of placeholder op `k`.
    pub fn op_set_output(&mut self, f: &Funcdata, k: usize, v: usize)
        requires
            old(self).wf(f),
            k < old(self).ops@.len(),
            v < old(self).vars@.len(),
        ensures
            final(self).wf(f),
            extends(old(self), final(self)),
            final(self).vars@.len() == old(self).vars@.len(),
            forall|i: int| 0 <= i < old(self).vars@.len() && i != v ==> #[trigger] final(self).vars@[i] == old(self).vars@[i],
            final(self).vars@[v as int] == (TransformVar { def: Some(k), ..old(self).vars@[v as int] }),
            final(self).pieces@ == old(self).pieces@,
            final(self).ops@.len() == old(self).ops@.len(),
            forall|j: int| 0 <= j < old(self).ops@.len() && j != k ==> #[trigger] final(self).ops@[j] == old(self).ops@[j],
            final(self).ops@[k as int].output == Some(v),
            final(self).ops@[k as int].input@ == old(self).ops@[k as int].input@,
            final(self).ops@[k as int].opc == old(self).ops@[k as int].opc,
            final(self).ops@[k as int].op == old(self).ops@[k as int].op,
            final(self).ops@[k as int].kind == old(self).ops@[k as int].kind,
            final(self).ops@[k as int].guard == old(self).ops@[k as int].guard,
            final(self).ops@[k as int].indirect_creation == old(self).ops@[k as int].indirect_creation,
    {
        let mut t = self.take_op(k);
        t.output = Some(v);
        self.ops.set(k, t);
        let mut x = self.vars[v];
        x.def = Some(k);
        self.vars.set(v, x);
        proof {
            assert forall|j: int| 0 <= j < self.ops@.len() implies top_wf(#[trigger] self.ops@[j], j, self.vars@.len(), f.ops@.len()) by {
                assert(top_wf(old(self).ops@[j], j, old(self).vars@.len(), f.ops@.len()));
                if j == k {
                    assert forall|s: int| 0 <= s < self.ops@[j].input@.len() implies (#[trigger] self.ops@[j].input@[s]
                        matches Some(y) ==> y < self.vars@.len()) by {
                        assert(self.ops@[j].input@[s] == old(self).ops@[j].input@[s]);
                    }
                }
            }
            assert forall|i: int| 0 <= i < self.vars@.len() implies tvar_wf(#[trigger] self.vars@[i], f.vns@.len(), self.ops@.len()) by {
                assert(tvar_wf(old(self).vars@[i], f.vns@.len(), old(self).ops@.len()));
            }
        }
    }

    /// Record `guard` as the op whose side effect the INDIRECT placeholder `k` models.
    pub fn op_set_guarded(&mut self, f: &Funcdata, k: usize, guard: Option<OpId>)
        requires
            old(self).wf(f),
            k < old(self).ops@.len(),
            guard matches Some(g) ==> g.0 < f.ops@.len(),
        ensures
            final(self).wf(f),
            extends(old(self), final(self)),
            final(self).vars@ == old(self).vars@,
            final(self).pieces@ == old(self).pieces@,
            final(self).ops@.len() == old(self).ops@.len(),
            forall|j: int| 0 <= j < old(self).ops@.len() && j != k ==> #[trigger] final(self).ops@[j] == old(self).ops@[j],
            final(self).ops@[k as int].input@ == old(self).ops@[k as int].input@,
            final(self).ops@[k as int].output == old(self).ops@[k as int].output,
            final(self).ops@[k as int].guard == guard,
            final(self).ops@[k as int].indirect_creation == old(self).ops@[k as int].indirect_creation,
    {
        let mut t = self.take_op(k);
        t.guard = guard;
        self.ops.set(k, t);
        proof {
            assert forall|j: int| 0 <= j < self.ops@.len() implies top_wf(#[trigger] self.ops@[j], j, self.vars@.len(), f.ops@.len()) by {
                assert(top_wf(old(self).ops@[j], j, old(self).vars@.len(), f.ops@.len()));
                if j == k {
                    assert forall|s: int| 0 <= s < self.ops@[j].input@.len() implies (#[trigger] self.ops@[j].input@[s]
                        matches Some(y) ==> y < self.vars@.len()) by {
                        assert(self.ops@[j].input@[s] == old(self).ops@[j].input@[s]);
                    }
                }
            }
        }
    }

    /// The INDIRECT placeholder `k` inherits from the INDIRECT `ind` whether its value stands for
    /// one a call creates.
    pub fn inherit_indirect(&mut self, f: &Funcdata, k: usize, ind: OpId)
        requires
            old(self).wf(f),
            f.wf(),
            k < old(self).ops@.len(),
            ind.0 < f.ops@.len(),
        ensures
            final(self).wf(f),
            extends(old(self), final(self)),
            final(self).vars@ == old(self).vars@,
            final(self).pieces@ == old(self).pieces@,
            final(self).ops@.len() == old(self).ops@.len(),
            forall|j: int| 0 <= j < old(self).ops@.len() && j != k ==> #[trigger] final(self).ops@[j] == old(self).ops@[j],
            final(self).ops@[k as int].input@ == old(self).ops@[k as int].input@,
            final(self).ops@[k as int].output == old(self).ops@[k as int].output,
            final(self).ops@[k as int].guard == old(self).ops@[k as int].guard,
            final(self).ops@[k as int].indirect_creation == (f.ops@[ind.0 as int].output matches Some(o)
                && f.vns@[o.0 as int].indirect_creation),
    {
        proof {
            assert(op_wf(f.ops@[ind.0 as int], f.vns@.len(), f.ops@.len(), f.blocks@.len()));
        }
        let creation = match f.op(ind).output {
            Some(o) => f.vn(o).is_indirect_creation(),
            None => false,
        };
        let mut t = self.take_op(k);
        t.indirect_creation = creation;
        self.ops.set(k, t);
        proof {
            assert forall|j: int| 0 <= j < self.ops@.len() implies top_wf(#[trigger] self.ops@[j], j, self.vars@.len(), f.ops@.len()) by {
                assert(top_wf(old(self).ops@[j], j, old(self).vars@.len(), f.ops@.len()));
                if j == k {
                    assert forall|s: int| 0 <= s < self.ops@[j].input@.len() implies (#[trigger] self.ops@[j].input@[s]
                        matches Some(y) ==> y < self.vars@.len()) by {
                        assert(self.ops@[j].input@[s] == old(self).ops@[j].input@[s]);
                    }
                }
            }
        }
    }
}

/// Varnode `b` is `a`, or `a` with its writer taken away.
pub open spec fn kept_or_unlinked(a: Varnode, b: Varnode) -> bool {
    b == a || b == (Varnode { def: None, ..a })
}

impl TransformManager {
    /// A plan that is well formed for a function stays so as the function grows.
    proof fn lemma_wf_grow(&self, f: &Funcdata, g: &Funcdata)
        requires
            self.wf(f),
            f.vns@.len() <= g.vns@.len(),
            f.ops@.len() <= g.ops@.len(),
        ensures
            self.wf(g),
    {
        assert forall|i: int| 0 <= i < self.vars@.len() implies tvar_wf(#[trigger] self.vars@[i], g.vns@.len(), self.ops@.len()) by {
            assert(tvar_wf(self.vars@[i], f.vns@.len(), self.ops@.len()));
        }
        assert forall|k: int| 0 <= k < self.ops@.len() implies top_wf(#[trigger] self.ops@[k], k, self.vars@.len(), g.ops@.len()) by {
            assert(top_wf(self.ops@[k], k, self.vars@.len(), f.ops@.len()));
        }
    }

    /// Make the op each placeholder op becomes: the existing op with its new opcode, or a new op
    /// placed before the op it replaces or the op its placeholder precedes (a MULTIEQUAL first
    /// in that op's block, with the other MULTIEQUALs).
    #[verifier::rlimit(40)]
    #[verifier::spinoff_prover]
    fn create_ops(&self, f: &mut Funcdata) -> (reps: Vec<OpId>)
        requires
            old(f).wf(),
            self.wf(old(f)),
        ensures
            final(f).wf(),
            final(f).vns == old(f).vns,
            final(f).same_meta(old(f)),
            final(f).unique_next == old(f).unique_next,
            old(f).ops@.len() <= final(f).ops@.len(),
            forall|i: int| 0 <= i < old(f).ops@.len() && !planned(self.ops@, i) ==> #[trigger] final(f).ops@[i] == old(f).ops@[i],
            reps@.len() == self.ops@.len(),
            forall|k: int| 0 <= k < reps@.len() ==> (#[trigger] reps@[k]).0 < final(f).ops@.len(),
            forall|k: int|
                0 <= k < reps@.len() ==> if self.ops@[k].kind is Preexisting {
                    (#[trigger] reps@[k]) == self.ops@[k].op
                } else {
                    reps@[k].0 >= old(f).ops@.len()
                },
    {
        let ghost f0 = *f;
        let mut reps: Vec<OpId> = Vec::new();
        let mut k: usize = 0;
        while k < self.ops.len()
            invariant
                f.wf(),
                self.wf(&f0),
                k <= self.ops@.len(),
                f.vns == f0.vns,
                f.same_meta(&f0),
                f.unique_next == f0.unique_next,
                f0.ops@.len() <= f.ops@.len(),
                forall|i: int| 0 <= i < f0.ops@.len() && !planned(self.ops@, i) ==> #[trigger] f.ops@[i] == f0.ops@[i],
                reps@.len() == k,
                forall|j: int| 0 <= j < k ==> (#[trigger] reps@[j]).0 < f.ops@.len(),
                forall|j: int|
                    0 <= j < k ==> if self.ops@[j].kind is Preexisting {
                        (#[trigger] reps@[j]) == self.ops@[j].op
                    } else {
                        reps@[j].0 >= f0.ops@.len()
                    },
            decreases self.ops@.len() - k,
        {
            let t = &self.ops[k];
            proof {
                assert(top_wf(self.ops@[k as int], k as int, self.vars@.len(), f0.ops@.len()));
                assert(planned(self.ops@, t.op.0 as int));
            }
            let ghost g = *f;
            match t.kind {
                TOpKind::Preexisting => {
                    f.op_set_opcode(t.op, t.opc);
                    reps.push(t.op);
                },
                _ => {
                    let follow = match t.kind {
                        TOpKind::Before(j) => reps[j],
                        _ => t.op,
                    };
                    let seq = f.op(t.op).seqnum;
                    let n = f.new_op(t.opc, seq, Vec::new());
                    if t.opc == OpCode::Multiequal {
                        proof {
                            assert(op_wf(f.ops@[follow.0 as int], f.vns@.len(), f.ops@.len(), f.blocks@.len()));
                        }
                        match f.op(follow).parent {
                            Some(b) => f.op_insert_begin(n, b),
                            None => {},
                        }
                    } else {
                        f.op_insert_before(n, follow);
                    }
                    match t.guard {
                        Some(gd) => f.op_set_guarded(n, gd),
                        None => {},
                    }
                    reps.push(n);
                },
            }
            proof {
                assert forall|i: int| 0 <= i < f0.ops@.len() && !planned(self.ops@, i) implies #[trigger] f.ops@[i] == f0.ops@[i] by {
                    assert(g.ops@[i] == f0.ops@[i]);
                    assert(i != t.op.0);
                }
                assert forall|j: int| 0 <= j < k + 1 implies (#[trigger] reps@[j]).0 < f.ops@.len() by {
                    if j < k {
                        assert(reps@[j].0 < g.ops@.len());
                    }
                }
            }
            k += 1;
        }
        reps
    }

    /// Make the varnode each placeholder variable becomes: the existing one, a new constant, or a
    /// new temporary or lane written by the op its writer became (free when it has none).
    #[verifier::rlimit(40)]
    #[verifier::spinoff_prover]
    fn create_vars(&self, f: &mut Funcdata, reps: &Vec<OpId>, n0: Ghost<nat>) -> (vreps: Vec<VarnodeId>)
        requires
            old(f).wf(),
            self.wf(old(f)),
            reps@.len() == self.ops@.len(),
            forall|k: int| 0 <= k < reps@.len() ==> (#[trigger] reps@[k]).0 < old(f).ops@.len(),
            forall|k: int| 0 <= k < reps@.len() ==> (#[trigger] reps@[k]).0 >= n0@ || planned(self.ops@, reps@[k].0 as int),
        ensures
            final(f).wf(),
            final(f).same_meta(old(f)),
            final(f).ops@.len() == old(f).ops@.len(),
            final(f).blocks == old(f).blocks,
            forall|i: int| 0 <= i < n0@ && i < old(f).ops@.len() && !planned(self.ops@, i) ==> #[trigger] final(f).ops@[i] == old(f).ops@[i],
            forall|i: int| 0 <= i < old(f).ops@.len() ==> (#[trigger] final(f).ops@[i]).dead == old(f).ops@[i].dead,
            old(f).vns@.len() <= final(f).vns@.len(),
            forall|i: int| 0 <= i < old(f).vns@.len() ==> #[trigger] final(f).vns@[i] == old(f).vns@[i],
            vreps@.len() == self.vars@.len(),
            forall|i: int| 0 <= i < vreps@.len() ==> (#[trigger] vreps@[i]).0 < final(f).vns@.len(),
    {
        let ghost f0 = *f;
        let mut vreps: Vec<VarnodeId> = Vec::new();
        let mut i: usize = 0;
        while i < self.vars.len()
            invariant
                f.wf(),
                self.wf(&f0),
                i <= self.vars@.len(),
                f.same_meta(&f0),
                f.ops@.len() == f0.ops@.len(),
                f.blocks == f0.blocks,
                reps@.len() == self.ops@.len(),
                forall|k: int| 0 <= k < reps@.len() ==> (#[trigger] reps@[k]).0 < f0.ops@.len(),
                forall|k: int| 0 <= k < reps@.len() ==> (#[trigger] reps@[k]).0 >= n0@ || planned(self.ops@, reps@[k].0 as int),
                forall|j: int| 0 <= j < n0@ && j < f0.ops@.len() && !planned(self.ops@, j) ==> #[trigger] f.ops@[j] == f0.ops@[j],
                forall|j: int| 0 <= j < f0.ops@.len() ==> (#[trigger] f.ops@[j]).dead == f0.ops@[j].dead,
                f0.vns@.len() <= f.vns@.len(),
                forall|j: int| 0 <= j < f0.vns@.len() ==> #[trigger] f.vns@[j] == f0.vns@[j],
                vreps@.len() == i,
                forall|j: int| 0 <= j < i ==> (#[trigger] vreps@[j]).0 < f.vns@.len(),
            decreases self.vars@.len() - i,
        {
            let v = self.vars[i];
            proof {
                assert(tvar_wf(self.vars@[i as int], f0.vns@.len(), self.ops@.len()));
            }
            let ghost g = *f;
            let writer: Option<OpId> = match v.def {
                Some(d) => Some(reps[d]),
                None => None,
            };
            let r = match v.kind {
                TVarKind::Preexisting => v.vn.unwrap(),
                TVarKind::Constant => f.new_const(v.size, v.val),
                TVarKind::NormalTemp | TVarKind::PieceTemp => match writer {
                    Some(w) => f.new_output_unique(w, v.size),
                    None => f.new_unique(v.size),
                },
                TVarKind::Piece => {
                    let o = v.vn.unwrap();
                    proof {
                        assert(f.vns@[o.0 as int] == f0.vns@[o.0 as int]);
                        assert(f0.vns@[o.0 as int].loc.space.0 < f0.spaces@.len());
                    }
                    let loc = f.vn(o).loc;
                    let addr = Address::new(loc.space, loc.offset.wrapping_add(v.bytepos as u64));
                    match writer {
                        Some(w) => f.new_output(w, v.size, addr),
                        None => f.new_varnode(v.size, addr),
                    }
                },
            };
            let created = match v.kind {
                TVarKind::Preexisting => false,
                _ => true,
            };
            if created {
                match v.def {
                    Some(d) => {
                        if self.ops[d].indirect_creation {
                            f.vn_set_indirect_creation(r);
                        }
                    },
                    None => {},
                }
            }
            vreps.push(r);
            proof {
                assert forall|j: int| 0 <= j < n0@ && j < f0.ops@.len() && !planned(self.ops@, j) implies #[trigger] f.ops@[j] == f0.ops@[j] by {
                    assert(g.ops@[j] == f0.ops@[j]);
                    if let Some(w) = writer {
                        assert(w.0 >= n0@ || planned(self.ops@, w.0 as int));
                        assert(j != w.0);
                    }
                }
                assert forall|j: int| 0 <= j < f0.ops@.len() implies (#[trigger] f.ops@[j]).dead == f0.ops@[j].dead by {
                    assert(g.ops@[j].dead == f0.ops@[j].dead);
                }
                assert forall|j: int| 0 <= j < f0.vns@.len() implies #[trigger] f.vns@[j] == f0.vns@[j] by {
                    assert(g.vns@[j] == f0.vns@[j]);
                }
                assert forall|j: int| 0 <= j < i + 1 implies (#[trigger] vreps@[j]).0 < f.vns@.len() by {
                    if j < i {
                        assert(vreps@[j].0 < g.vns@.len());
                    }
                }
            }
            i += 1;
        }
        vreps
    }

    /// Destroy every op a placeholder op replaces.
    #[verifier::rlimit(40)]
    #[verifier::spinoff_prover]
    fn remove_old(&self, f: &mut Funcdata)
        requires
            old(f).wf(),
            self.wf(old(f)),
        ensures
            final(f).wf(),
            final(f).same_meta(old(f)),
            final(f).unique_next == old(f).unique_next,
            final(f).ops@.len() == old(f).ops@.len(),
            forall|i: int| 0 <= i < old(f).ops@.len() && !planned(self.ops@, i) ==> #[trigger] final(f).ops@[i] == old(f).ops@[i],
            forall|i: int| 0 <= i < old(f).ops@.len() && old(f).ops@[i].dead ==> (#[trigger] final(f).ops@[i]).dead,
            forall|k: int| 0 <= k < self.ops@.len() && (#[trigger] self.ops@[k]).kind is Replace ==> final(f).ops@[self.ops@[k].op.0 as int].dead,
            final(f).vns@.len() == old(f).vns@.len(),
            forall|i: int| 0 <= i < old(f).vns@.len() ==> kept_or_unlinked(old(f).vns@[i], #[trigger] final(f).vns@[i]),
    {
        let ghost f0 = *f;
        let mut k: usize = 0;
        while k < self.ops.len()
            invariant
                f.wf(),
                self.wf(&f0),
                k <= self.ops@.len(),
                f.same_meta(&f0),
                f.unique_next == f0.unique_next,
                f.ops@.len() == f0.ops@.len(),
                forall|i: int| 0 <= i < f0.ops@.len() && !planned(self.ops@, i) ==> #[trigger] f.ops@[i] == f0.ops@[i],
                forall|i: int| 0 <= i < f0.ops@.len() && f0.ops@[i].dead ==> (#[trigger] f.ops@[i]).dead,
                forall|j: int| 0 <= j < k && (#[trigger] self.ops@[j]).kind is Replace ==> f.ops@[self.ops@[j].op.0 as int].dead,
                f.vns@.len() == f0.vns@.len(),
                forall|i: int| 0 <= i < f0.vns@.len() ==> kept_or_unlinked(f0.vns@[i], #[trigger] f.vns@[i]),
            decreases self.ops@.len() - k,
        {
            let t = &self.ops[k];
            proof {
                assert(top_wf(self.ops@[k as int], k as int, self.vars@.len(), f0.ops@.len()));
                assert(planned(self.ops@, t.op.0 as int));
            }
            let ghost g = *f;
            let replace = match t.kind {
                TOpKind::Replace => true,
                _ => false,
            };
            if replace && !f.op(t.op).is_dead() {
                f.op_destroy(t.op);
                proof {
                    assert forall|i: int| 0 <= i < f0.vns@.len() implies kept_or_unlinked(f0.vns@[i], #[trigger] f.vns@[i]) by {
                        assert(kept_or_unlinked(f0.vns@[i], g.vns@[i]));
                    }
                    assert forall|j: int| 0 <= j < k + 1 && (#[trigger] self.ops@[j]).kind is Replace implies f.ops@[self.ops@[j].op.0 as int].dead by {
                        if j < k && self.ops@[j].op != t.op {
                            assert(g.ops@[self.ops@[j].op.0 as int].dead);
                        }
                    }
                    assert forall|i: int| 0 <= i < f0.ops@.len() && f0.ops@[i].dead implies (#[trigger] f.ops@[i]).dead by {
                        assert(g.ops@[i].dead);
                    }
                }
            }
            k += 1;
        }
    }

    /// Give each op its placeholder's inputs, as the varnodes they became (an unset slot is left
    /// out).
    #[verifier::rlimit(40)]
    #[verifier::spinoff_prover]
    fn place_inputs(&self, f: &mut Funcdata, reps: &Vec<OpId>, vreps: &Vec<VarnodeId>, n0: Ghost<nat>)
        requires
            old(f).wf(),
            reps@.len() == self.ops@.len(),
            vreps@.len() == self.vars@.len(),
            forall|k: int| 0 <= k < self.ops@.len() ==> top_wf(#[trigger] self.ops@[k], k, self.vars@.len(), old(f).ops@.len()),
            forall|k: int| 0 <= k < reps@.len() ==> (#[trigger] reps@[k]).0 < old(f).ops@.len(),
            forall|k: int| 0 <= k < reps@.len() ==> (#[trigger] reps@[k]).0 >= n0@ || planned(self.ops@, reps@[k].0 as int),
            forall|i: int| 0 <= i < vreps@.len() ==> (#[trigger] vreps@[i]).0 < old(f).vns@.len(),
        ensures
            final(f).wf(),
            final(f).same_meta(old(f)),
            final(f).unique_next == old(f).unique_next,
            final(f).vns == old(f).vns,
            final(f).ops@.len() == old(f).ops@.len(),
            forall|i: int| 0 <= i < n0@ && i < old(f).ops@.len() && !planned(self.ops@, i) ==> #[trigger] final(f).ops@[i] == old(f).ops@[i],
            forall|i: int| 0 <= i < old(f).ops@.len() ==> (#[trigger] final(f).ops@[i]).dead == old(f).ops@[i].dead,
            forall|k: int|
                0 <= k < reps@.len() && (forall|k2: int| k < k2 < reps@.len() ==> (#[trigger] reps@[k2]) != reps@[k]) ==> (#[trigger] final(f).ops@[reps@[k].0 as int]).inrefs@
                    == placed_inputs(self.ops@[k].input@, vreps@, self.ops@[k].input@.len() as int),
            forall|i: int| 0 <= i < old(f).ops@.len() ==> same_but_inputs(#[trigger] final(f).ops@[i], old(f).ops@[i]),
    {
        let ghost f0 = *f;
        let mut k: usize = 0;
        while k < self.ops.len()
            invariant
                f.wf(),
                k <= self.ops@.len(),
                reps@.len() == self.ops@.len(),
                vreps@.len() == self.vars@.len(),
                forall|j: int| 0 <= j < self.ops@.len() ==> top_wf(#[trigger] self.ops@[j], j, self.vars@.len(), f0.ops@.len()),
                forall|j: int| 0 <= j < reps@.len() ==> (#[trigger] reps@[j]).0 < f0.ops@.len(),
                forall|j: int| 0 <= j < reps@.len() ==> (#[trigger] reps@[j]).0 >= n0@ || planned(self.ops@, reps@[j].0 as int),
                forall|i: int| 0 <= i < vreps@.len() ==> (#[trigger] vreps@[i]).0 < f0.vns@.len(),
                f.same_meta(&f0),
                f.unique_next == f0.unique_next,
                f.vns == f0.vns,
                f.ops@.len() == f0.ops@.len(),
                forall|i: int| 0 <= i < n0@ && i < f0.ops@.len() && !planned(self.ops@, i) ==> #[trigger] f.ops@[i] == f0.ops@[i],
                forall|i: int| 0 <= i < f0.ops@.len() ==> (#[trigger] f.ops@[i]).dead == f0.ops@[i].dead,
                forall|j: int|
                    0 <= j < k && (forall|k2: int| j < k2 < k ==> (#[trigger] reps@[k2]) != reps@[j]) ==> (#[trigger] f.ops@[reps@[j].0 as int]).inrefs@
                        == placed_inputs(self.ops@[j].input@, vreps@, self.ops@[j].input@.len() as int),
                forall|i: int| 0 <= i < f0.ops@.len() ==> same_but_inputs(#[trigger] f.ops@[i], f0.ops@[i]),
            decreases self.ops@.len() - k,
        {
            let t = &self.ops[k];
            proof {
                assert(top_wf(self.ops@[k as int], k as int, self.vars@.len(), f0.ops@.len()));
            }
            let mut ins: Vec<VarnodeId> = Vec::new();
            let mut s: usize = 0;
            while s < t.input.len()
                invariant
                    s <= t.input@.len(),
                    top_wf(*t, k as int, self.vars@.len(), f0.ops@.len()),
                    vreps@.len() == self.vars@.len(),
                    forall|i: int| 0 <= i < vreps@.len() ==> (#[trigger] vreps@[i]).0 < f0.vns@.len(),
                    forall|j: int| 0 <= j < ins@.len() ==> (#[trigger] ins@[j]).0 < f0.vns@.len(),
                    ins@ == placed_inputs(t.input@, vreps@, s as int),
                decreases t.input@.len() - s,
            {
                match t.input[s] {
                    Some(x) => {
                        proof {
                            assert(t.input@[s as int] matches Some(y) ==> y < self.vars@.len());
                        }
                        ins.push(vreps[x]);
                    },
                    None => {},
                }
                s += 1;
            }
            let ghost g = *f;
            let w = reps[k];
            f.op_set_all_input(w, &ins);
            proof {
                assert forall|i: int| 0 <= i < n0@ && i < f0.ops@.len() && !planned(self.ops@, i) implies #[trigger] f.ops@[i] == f0.ops@[i] by {
                    assert(g.ops@[i] == f0.ops@[i]);
                    assert(w.0 >= n0@ || planned(self.ops@, w.0 as int));
                }
                assert forall|i: int| 0 <= i < f0.ops@.len() implies (#[trigger] f.ops@[i]).dead == f0.ops@[i].dead by {
                    assert(g.ops@[i].dead == f0.ops@[i].dead);
                }
                assert forall|i: int| 0 <= i < f0.ops@.len() implies same_but_inputs(#[trigger] f.ops@[i], f0.ops@[i]) by {
                    assert(same_but_inputs(g.ops@[i], f0.ops@[i]));
                }
                assert forall|j: int|
                    0 <= j < k + 1 && (forall|k2: int| j < k2 < k + 1 ==> (#[trigger] reps@[k2]) != reps@[j]) implies (#[trigger] f.ops@[reps@[j].0 as int]).inrefs@
                        == placed_inputs(self.ops@[j].input@, vreps@, self.ops@[j].input@.len() as int) by {
                    if j < k {
                        assert(reps@[k as int] != reps@[j]);
                        assert(f.ops@[reps@[j].0 as int] == g.ops@[reps@[j].0 as int]);
                    }
                }
            }
            k += 1;
        }
    }

    /// Apply the plan: the placeholder ops become ops (new ones, or the existing op they rewrite),
    /// the placeholder variables varnodes, the replaced ops are destroyed, and each op is given its
    /// placeholder's inputs. Ops the plan does not name are left as they were, and existing
    /// varnodes at most lose their writer.
    pub fn apply(&self, f: &mut Funcdata)
        requires
            old(f).wf(),
            self.wf(old(f)),
        ensures
            final(f).wf(),
            final(f).spaces == old(f).spaces,
            final(f).proto_model == old(f).proto_model,
            final(f).call_specs@ == old(f).call_specs@,
            final(f).active_inputs == old(f).active_inputs,
            old(f).ops@.len() <= final(f).ops@.len(),
            forall|i: int| 0 <= i < old(f).ops@.len() && !planned(self.ops@, i) ==> #[trigger] final(f).ops@[i] == old(f).ops@[i],
            forall|k: int| 0 <= k < self.ops@.len() && (#[trigger] self.ops@[k]).kind is Replace ==> final(f).ops@[self.ops@[k].op.0 as int].dead,
            old(f).vns@.len() <= final(f).vns@.len(),
            forall|i: int| 0 <= i < old(f).vns@.len() ==> kept_or_unlinked(old(f).vns@[i], #[trigger] final(f).vns@[i]),
    {
        let ghost f0 = *f;
        let n0: Ghost<nat> = Ghost(f.ops@.len());
        let reps = self.create_ops(f);
        let ghost f1 = *f;
        proof {
            self.lemma_wf_grow(&f0, &f1);
            assert forall|k: int| 0 <= k < reps@.len() implies (#[trigger] reps@[k]).0 >= n0@ || planned(self.ops@, reps@[k].0 as int) by {
                if self.ops@[k].kind is Preexisting {
                    assert(reps@[k] == self.ops@[k].op);
                }
            }
        }
        let vreps = self.create_vars(f, &reps, n0);
        let ghost f2 = *f;
        proof {
            self.lemma_wf_grow(&f1, &f2);
        }
        self.remove_old(f);
        let ghost f3 = *f;
        proof {
            self.lemma_wf_grow(&f2, &f3);
            assert forall|k: int| 0 <= k < self.ops@.len() implies top_wf(#[trigger] self.ops@[k], k, self.vars@.len(), f3.ops@.len()) by {
            }
        }
        self.place_inputs(f, &reps, &vreps, n0);
        proof {
            assert forall|i: int| 0 <= i < f0.ops@.len() && !planned(self.ops@, i) implies #[trigger] f.ops@[i] == f0.ops@[i] by {
                assert(f1.ops@[i] == f0.ops@[i]);
                assert(f2.ops@[i] == f1.ops@[i]);
                assert(f3.ops@[i] == f2.ops@[i]);
            }
            assert forall|k: int| 0 <= k < self.ops@.len() && (#[trigger] self.ops@[k]).kind is Replace implies f.ops@[self.ops@[k].op.0 as int].dead by {
                assert(top_wf(self.ops@[k], k, self.vars@.len(), f0.ops@.len()));
                assert(f3.ops@[self.ops@[k].op.0 as int].dead);
            }
            assert forall|i: int| 0 <= i < f0.vns@.len() implies kept_or_unlinked(f0.vns@[i], #[trigger] f.vns@[i]) by {
                assert(f1.vns@[i] == f0.vns@[i]);
                assert(f2.vns@[i] == f1.vns@[i]);
                assert(kept_or_unlinked(f2.vns@[i], f3.vns@[i]));
            }
        }
    }
}

/// The first entry for `v` is entry `i` when no earlier entry names it.
proof fn lemma_piece_entry_at(p: Seq<(VarnodeId, usize)>, i: int, v: VarnodeId)
    requires
        0 <= i < p.len(),
        p[i].0 == v,
        forall|j: int| 0 <= j < i ==> (#[trigger] p[j]).0 != v,
    ensures
        piece_entry(p, v) == Some(p[i].1),
    decreases i,
{
    if i > 0 {
        assert(p[0].0 != v);
        let q = p.drop_first();
        assert forall|j: int| 0 <= j < i - 1 implies (#[trigger] q[j]).0 != v by {
            assert(q[j] == p[j + 1]);
        }
        lemma_piece_entry_at(q, i - 1, v);
    }
}

/// No entry names `v`: it has no first entry.
proof fn lemma_piece_entry_none(p: Seq<(VarnodeId, usize)>, v: VarnodeId)
    requires
        forall|j: int| 0 <= j < p.len() ==> (#[trigger] p[j]).0 != v,
    ensures
        piece_entry(p, v) is None,
    decreases p.len(),
{
    if p.len() > 0 {
        assert(p[0].0 != v);
        let q = p.drop_first();
        assert forall|j: int| 0 <= j < q.len() implies (#[trigger] q[j]).0 != v by {
            assert(q[j] == p[j + 1]);
        }
        lemma_piece_entry_none(q, v);
    }
}

} // verus!
