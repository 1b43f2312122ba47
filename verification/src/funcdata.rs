//! The function under decompilation: its varnodes, p-code ops and basic blocks, and the
//! editing operations the analyses use to rewrite them.
//!
//! Varnodes, ops and blocks live in arenas and are named by their index. A varnode's readers
//! (its *descendants*) are not stored: they are the ops whose inputs name it, one entry per
//! input slot, in op order.

use vstd::prelude::*;

use crate::fspec::{CallSpec, ParamActive, ProtoModel, EXTRAPOP_UNKNOWN};
use crate::opcode::OpCode;
use crate::space::{byte_mask, calc_mask, space_named, Address, RangeList, SpaceId, SpaceManager};
use crate::types::{copy_type, type_wf, Datatype};

verus! {

/// A handle to a varnode: its index in [`Funcdata::vns`].
#[derive(Clone, Copy, PartialEq, Eq, Structural, Debug, Hash)]
pub struct VarnodeId(pub usize);

/// A handle to a p-code op: its index in [`Funcdata::ops`].
#[derive(Clone, Copy, PartialEq, Eq, Structural, Debug, Hash)]
pub struct OpId(pub usize);

/// A handle to a basic block: its index in [`Funcdata::blocks`].
#[derive(Clone, Copy, PartialEq, Eq, Structural, Debug, Hash)]
pub struct BlockId(pub usize);

/// The address of the instruction an op came from, and its position among that
/// instruction's ops.
#[derive(Clone, Copy, PartialEq, Eq, Structural, Debug)]
pub struct SeqNum {
    pub pc: Address,
    pub uniq: u32,
}

/// A storage location holding one value: a register, memory, a temporary or a constant.
#[derive(Debug)]
pub struct Varnode {
    /// Where the value lives; for a constant, `loc.offset` is the value.
    pub loc: Address,
    /// Size in bytes.
    pub size: u32,
    /// The op writing this varnode, if any.
    pub def: Option<OpId>,
    /// The data-type given to the value.
    pub ty: Datatype,
    /// The varnode's position in creation order.
    pub create_index: usize,
    /// An input to the function: its value comes from outside.
    pub input: bool,
    /// A constant.
    pub constant: bool,
    /// Storage that persists beyond the function (a global).
    pub persist: bool,
    /// Storage tied to a fixed address.
    pub addrtied: bool,
    /// A pointer to the base of a spacebase space (the stack pointer).
    pub spacebase: bool,
    /// Kept alive though nothing reads it.
    pub auto_live: bool,
    /// The output of an INDIRECT standing for a value a call creates.
    pub indirect_creation: bool,
    /// Holds a return address.
    pub return_address: bool,
    /// An input whose value every call preserves (a callee-saved register).
    pub unaffected: bool,
    /// Written by an operation that can be tracked directly (not through memory effects).
    pub direct_write: bool,
    /// Written by an op added after data-flow was built; it needs no further heritage.
    pub write_mask: bool,
    /// The data-type is fixed and may not be changed by analysis.
    pub typelock: bool,
    /// The least significant half of a double-precision value.
    pub precis_lo: bool,
    /// The most significant half of a double-precision value.
    pub precis_hi: bool,
    /// Made after data-flow was built: the next heritage pass is to link it.
    pub active_heritage: bool,
}

/// One p-code operation.
#[derive(Debug)]
pub struct PcodeOp {
    pub opc: OpCode,
    /// The inputs, by slot.
    pub inrefs: Vec<VarnodeId>,
    pub output: Option<VarnodeId>,
    pub seqnum: SeqNum,
    /// The basic block holding the op, once the control-flow graph is built.
    pub parent: Option<BlockId>,
    /// The op has been removed from the function.
    pub dead: bool,
    /// For an INDIRECT, the op (a call or a store) whose side effect it models.
    pub guarded_op: Option<OpId>,
}

/// A basic block: straight-line ops and the edges joining it to other blocks.
#[derive(Debug, Default)]
pub struct BlockBasic {
    pub ops: Vec<OpId>,
    pub in_edges: Vec<BlockId>,
    pub out_edges: Vec<BlockId>,
}

/// A variable recovered in the local stack frame.
#[derive(Debug)]
pub struct StackSymbol {
    /// Offset of the first byte from the incoming stack pointer.
    pub start: i64,
    /// Size in bytes.
    pub size: u32,
    pub ty: Datatype,
}

/// The function under decompilation.
pub struct Funcdata {
    pub name: String,
    /// Entry point.
    pub entry: Address,
    pub spaces: SpaceManager,
    pub vns: Vec<Varnode>,
    pub ops: Vec<PcodeOp>,
    pub blocks: Vec<BlockBasic>,
    /// The compiler's stack-pointer register, when known.
    pub stack_pointer: Option<Address>,
    pub proto_model: ProtoModel,
    /// Per call op, what is known of the call.
    pub call_specs: Vec<(OpId, CallSpec)>,
    /// Per call op, its open input trials.
    pub active_inputs: Vec<(OpId, ParamActive)>,
    /// Whether data-type recovery has begun.
    pub type_recovery_started: bool,
    /// The variables recovered in the local stack frame.
    pub stack_syms: Vec<StackSymbol>,
    /// The next free offset in the `unique` space.
    pub unique_next: u64,
    /// Storage carved out of the local variables (space, offset, size): it holds saved
    /// registers, not variables.
    pub not_mapped: Vec<(SpaceId, u64, u32)>,
    /// The open trials for the function's return value, while return recovery is in progress.
    pub active_output: Option<ParamActive>,
    /// Every return path writes the 4-byte return register just before returning.
    pub tail_return_write: bool,
    /// Calls whose arguments were committed while one of them still awaited the output of an
    /// earlier call: they are to be reopened once call outputs are committed.
    pub calls_awaiting_output: Vec<OpId>,
}

/// How many times `v` occurs in `s`.
pub open spec fn count_in(s: Seq<VarnodeId>, v: VarnodeId) -> nat
    decreases s.len(),
{
    if s.len() == 0 {
        0
    } else {
        count_in(s.drop_last(), v) + if s.last() == v { 1nat } else { 0nat }
    }
}

/// The readers of `v` among the first `n` ops: each op once per input slot naming `v`.
pub open spec fn descend_upto(ops: Seq<PcodeOp>, v: VarnodeId, n: int) -> Seq<OpId>
    decreases n,
{
    if n <= 0 {
        Seq::empty()
    } else {
        descend_upto(ops, v, n - 1) + Seq::new(count_in(ops[n - 1].inrefs@, v), |_i: int| OpId((n - 1) as usize))
    }
}

/// The readers of `v`: each op once per input slot naming `v`, in op order.
pub open spec fn descend_spec(ops: Seq<PcodeOp>, v: VarnodeId) -> Seq<OpId> {
    descend_upto(ops, v, ops.len() as int)
}

/// The single reader of `v`, when it has exactly one.
pub open spec fn lone_descend_spec(ops: Seq<PcodeOp>, v: VarnodeId) -> Option<OpId> {
    if descend_spec(ops, v).len() == 1 {
        Some(descend_spec(ops, v)[0])
    } else {
        None
    }
}

pub open spec fn op_wf(op: PcodeOp, nv: nat, no: nat, nb: nat) -> bool {
    &&& forall|k: int| 0 <= k < op.inrefs@.len() ==> (#[trigger] op.inrefs@[k]).0 < nv
    &&& op.output matches Some(o) ==> o.0 < nv
    &&& op.parent matches Some(b) ==> b.0 < nb
    &&& op.guarded_op matches Some(g) ==> g.0 < no
}

pub open spec fn vn_wf(v: Varnode, no: nat) -> bool {
    &&& v.def matches Some(d) ==> d.0 < no
    &&& type_wf(v.ty)
}

pub open spec fn block_wf(b: BlockBasic, no: nat, nb: nat) -> bool {
    &&& forall|k: int| 0 <= k < b.ops@.len() ==> (#[trigger] b.ops@[k]).0 < no
    &&& forall|k: int| 0 <= k < b.in_edges@.len() ==> (#[trigger] b.in_edges@[k]).0 < nb
    &&& forall|k: int| 0 <= k < b.out_edges@.len() ==> (#[trigger] b.out_edges@[k]).0 < nb
}

/// Two ops that differ at most in their inputs.
pub open spec fn same_but_inputs(a: PcodeOp, b: PcodeOp) -> bool {
    a.opc == b.opc && a.output == b.output && a.seqnum == b.seqnum && a.parent == b.parent && a.dead
        == b.dead && a.guarded_op == b.guarded_op
}

/// Two ops that differ at most in their outputs.
pub open spec fn same_but_outputs(a: PcodeOp, b: PcodeOp) -> bool {
    a.opc == b.opc && a.inrefs@ == b.inrefs@ && a.seqnum == b.seqnum && a.parent == b.parent && a.dead
        == b.dead && a.guarded_op == b.guarded_op
}

/// `p` is the first position of `x` in `s`.
pub open spec fn is_first_pos(s: Seq<OpId>, x: OpId, p: int) -> bool {
    0 <= p < s.len() && s[p] == x && forall|k: int| 0 <= k < p ==> s[k] != x
}

/// The first position of `x` in `s`, or -1 when `x` does not occur.
pub open spec fn first_pos(s: Seq<OpId>, x: OpId) -> int {
    if exists|p: int| is_first_pos(s, x, p) {
        choose|p: int| is_first_pos(s, x, p)
    } else {
        -1
    }
}

/// The first position of `x` in `v`.
pub fn position(v: &Vec<OpId>, x: OpId) -> (r: Option<usize>)
    ensures
        match r {
            Some(p) => p as int == first_pos(v@, x) && is_first_pos(v@, x, p as int),
            None => first_pos(v@, x) == -1 && forall|k: int| 0 <= k < v@.len() ==> v@[k] != x,
        },
{
    let mut i: usize = 0;
    while i < v.len()
        invariant
            i <= v@.len(),
            forall|k: int| 0 <= k < i ==> v@[k] != x,
        decreases v@.len() - i,
    {
        if v[i] == x {
            assert(is_first_pos(v@, x, i as int));
            assert forall|q: int| is_first_pos(v@, x, q) implies q == i by {
                if q < i {
                    assert(v@[q] != x);
                } else if q > i {
                    assert(v@[i as int] != x);
                }
            }
            return Some(i);
        }
        i += 1;
    }
    assert(!exists|p: int| is_first_pos(v@, x, p));
    None
}

impl Varnode {
    pub fn is_constant(&self) -> (r: bool)
        ensures
            r == self.constant,
    {
        self.constant
    }

    /// The value of a constant.
    pub fn constant_value(&self) -> (r: u64)
        ensures
            r == self.loc.offset,
    {
        self.loc.offset
    }

    pub fn is_input(&self) -> (r: bool)
        ensures
            r == self.input,
    {
        self.input
    }

    /// Written by an op.
    pub fn is_written(&self) -> (r: bool)
        ensures
            r == self.def is Some,
    {
        self.def.is_some()
    }

    /// Neither written nor an input: not (yet) linked into the data-flow.
    pub fn is_free(&self) -> (r: bool)
        ensures
            r == (self.def is None && !self.input),
    {
        self.def.is_none() && !self.input
    }

    pub fn is_addrtied(&self) -> (r: bool)
        ensures
            r == self.addrtied,
    {
        self.addrtied
    }

    pub fn is_spacebase(&self) -> (r: bool)
        ensures
            r == self.spacebase,
    {
        self.spacebase
    }

    pub fn is_auto_live(&self) -> (r: bool)
        ensures
            r == self.auto_live,
    {
        self.auto_live
    }

    pub fn is_persist(&self) -> (r: bool)
        ensures
            r == self.persist,
    {
        self.persist
    }

    pub fn is_indirect_creation(&self) -> (r: bool)
        ensures
            r == self.indirect_creation,
    {
        self.indirect_creation
    }

    pub fn is_return_address(&self) -> (r: bool)
        ensures
            r == self.return_address,
    {
        self.return_address
    }

    /// An input every call preserves.
    pub fn is_unaffected(&self) -> (r: bool)
        ensures
            r == self.unaffected,
    {
        self.unaffected
    }

    /// Written directly.
    pub fn is_direct_write(&self) -> (r: bool)
        ensures
            r == self.direct_write,
    {
        self.direct_write
    }

    pub fn is_typelock(&self) -> (r: bool)
        ensures
            r == self.typelock,
    {
        self.typelock
    }

    pub fn is_precis_lo(&self) -> (r: bool)
        ensures
            r == self.precis_lo,
    {
        self.precis_lo
    }

    pub fn is_precis_hi(&self) -> (r: bool)
        ensures
            r == self.precis_hi,
    {
        self.precis_hi
    }

    /// The data-type of the value.
    pub fn get_type(&self) -> (r: &Datatype)
        ensures
            *r == self.ty,
    {
        &self.ty
    }
}

impl PcodeOp {
    pub fn code(&self) -> (r: OpCode)
        ensures
            r == self.opc,
    {
        self.opc
    }

    /// The input at `slot`, if the op has that many inputs.
    pub fn input(&self, slot: usize) -> (r: Option<VarnodeId>)
        ensures
            r == (if slot < self.inrefs@.len() { Some(self.inrefs@[slot as int]) } else { None::<VarnodeId> }),
    {
        if slot < self.inrefs.len() {
            Some(self.inrefs[slot])
        } else {
            None
        }
    }

    pub fn num_inputs(&self) -> (r: usize)
        ensures
            r == self.inrefs@.len(),
    {
        self.inrefs.len()
    }

    pub fn is_dead(&self) -> (r: bool)
        ensures
            r == self.dead,
    {
        self.dead
    }

    /// A CALL, CALLIND or CALLOTHER.
    pub fn is_call(&self) -> (r: bool)
        ensures
            r == (self.opc == OpCode::Call || self.opc == OpCode::Callind || self.opc == OpCode::Callother),
    {
        matches!(self.opc, OpCode::Call | OpCode::Callind | OpCode::Callother)
    }

    /// A MULTIEQUAL or INDIRECT: an op marking a join of values rather than computing one.
    pub fn is_marker(&self) -> (r: bool)
        ensures
            r == (self.opc == OpCode::Multiequal || self.opc == OpCode::Indirect),
    {
        matches!(self.opc, OpCode::Multiequal | OpCode::Indirect)
    }

    /// The op an INDIRECT stands guard for.
    pub fn guarded_op(&self) -> (r: Option<OpId>)
        ensures
            r == self.guarded_op,
    {
        self.guarded_op
    }

    /// A copy of the op.
    fn duplicate(&self) -> (r: PcodeOp)
        ensures
            same_but_inputs(r, *self),
            r.inrefs@ == self.inrefs@,
    {
        let mut ins: Vec<VarnodeId> = Vec::new();
        let mut k: usize = 0;
        while k < self.inrefs.len()
            invariant
                k <= self.inrefs@.len(),
                ins@ == self.inrefs@.take(k as int),
            decreases self.inrefs@.len() - k,
        {
            ins.push(self.inrefs[k]);
            k += 1;
            assert(ins@ =~= self.inrefs@.take(k as int));
        }
        assert(ins@ =~= self.inrefs@);
        PcodeOp {
            opc: self.opc,
            inrefs: ins,
            output: self.output,
            seqnum: self.seqnum,
            parent: self.parent,
            dead: self.dead,
            guarded_op: self.guarded_op,
        }
    }
}

/// `count_in` over a prefix grows by one step at a time.
proof fn lemma_count_take(s: Seq<VarnodeId>, v: VarnodeId, j: int)
    requires
        0 <= j < s.len(),
    ensures
        count_in(s.take(j + 1), v) == count_in(s.take(j), v) + if s[j] == v { 1nat } else { 0nat },
{
    assert(s.take(j + 1).drop_last() =~= s.take(j));
}

/// The number of readers of `v` among the first `n` ops.
pub open spec fn desc_count(ops: Seq<PcodeOp>, v: VarnodeId, n: int) -> nat
    decreases n,
{
    if n <= 0 {
        0
    } else {
        desc_count(ops, v, n - 1) + count_in(ops[n - 1].inrefs@, v)
    }
}

/// The readers of `v` number [`desc_count`].
pub proof fn lemma_descend_len(ops: Seq<PcodeOp>, v: VarnodeId, n: int)
    ensures
        descend_upto(ops, v, n).len() == desc_count(ops, v, n),
    decreases n,
{
    if n > 0 {
        lemma_descend_len(ops, v, n - 1);
    }
}

/// A value occurring in a sequence is counted there.
pub proof fn lemma_count_contains(s: Seq<VarnodeId>, v: VarnodeId)
    ensures
        count_in(s, v) > 0 <==> s.contains(v),
    decreases s.len(),
{
    if s.len() > 0 {
        lemma_count_contains(s.drop_last(), v);
        if s.drop_last().contains(v) {
            let k = choose|k: int| 0 <= k < s.drop_last().len() && s.drop_last()[k] == v;
            assert(s[k] == v);
        }
        if s.contains(v) && s.last() != v {
            let k = choose|k: int| 0 <= k < s.len() && s[k] == v;
            assert(s.drop_last()[k] == v);
        }
    }
}

/// Changing one element of a sequence changes its count of `v` by that element alone.
pub proof fn lemma_count_update(s: Seq<VarnodeId>, k: int, x: VarnodeId, v: VarnodeId)
    requires
        0 <= k < s.len(),
    ensures
        count_in(s.update(k, x), v) + (if s[k] == v { 1nat } else { 0nat }) == count_in(s, v) + (if x == v { 1nat } else { 0nat }),
    decreases s.len(),
{
    if k < s.len() - 1 {
        assert(s.update(k, x).drop_last() =~= s.drop_last().update(k, x));
        lemma_count_update(s.drop_last(), k, x, v);
    } else {
        assert(s.update(k, x).drop_last() =~= s.drop_last());
    }
}

/// Ops with the same inputs have the same readers.
pub proof fn lemma_desc_count_same(a: Seq<PcodeOp>, b: Seq<PcodeOp>, v: VarnodeId, n: int)
    requires
        n <= a.len(),
        n <= b.len(),
        forall|j: int| 0 <= j < n ==> (#[trigger] a[j]).inrefs@ == b[j].inrefs@,
    ensures
        desc_count(a, v, n) == desc_count(b, v, n),
    decreases n,
{
    if n > 0 {
        lemma_desc_count_same(a, b, v, n - 1);
    }
}

/// When the inputs of one op change, its readers change by that op's count alone.
pub proof fn lemma_desc_count_one(a: Seq<PcodeOp>, b: Seq<PcodeOp>, v: VarnodeId, i: int, n: int)
    requires
        0 <= i < n,
        n <= a.len(),
        n <= b.len(),
        forall|j: int| 0 <= j < n && j != i ==> (#[trigger] a[j]).inrefs@ == b[j].inrefs@,
    ensures
        desc_count(b, v, n) + count_in(a[i].inrefs@, v) == desc_count(a, v, n) + count_in(b[i].inrefs@, v),
    decreases n,
{
    if n - 1 == i {
        lemma_desc_count_same(a, b, v, n - 1);
    } else {
        lemma_desc_count_one(a, b, v, i, n - 1);
    }
}

/// Every reader listed for `v` is an op that has `v` among its inputs.
pub proof fn lemma_descend_member(ops: Seq<PcodeOp>, v: VarnodeId, n: int, k: int)
    requires
        0 <= k < descend_upto(ops, v, n).len(),
        n <= ops.len(),
        ops.len() <= usize::MAX,
    ensures
        descend_upto(ops, v, n)[k].0 < n,
        ops[descend_upto(ops, v, n)[k].0 as int].inrefs@.contains(v),
    decreases n,
{
    if n > 0 {
        let prev = descend_upto(ops, v, n - 1);
        let tail = Seq::new(count_in(ops[n - 1].inrefs@, v), |_i: int| OpId((n - 1) as usize));
        assert(descend_upto(ops, v, n) == prev + tail);
        if k < prev.len() {
            lemma_descend_member(ops, v, n - 1, k);
            assert(descend_upto(ops, v, n)[k] == prev[k]);
        } else {
            assert(descend_upto(ops, v, n)[k] == tail[k - prev.len()]);
            lemma_count_contains(ops[n - 1].inrefs@, v);
        }
    }
}

impl Funcdata {
    /// Every handle stored anywhere in the function names an existing varnode, op or block,
    /// every type is well formed, and the constant and `unique` spaces exist.
    pub open spec fn wf(&self) -> bool {
        &&& self.spaces.wf()
        &&& space_named(self.spaces@, "const"@) is Some
        &&& space_named(self.spaces@, "unique"@) is Some
        &&& forall|i: int|
            0 <= i < self.ops@.len() ==> op_wf(
                #[trigger] self.ops@[i],
                self.vns@.len(),
                self.ops@.len(),
                self.blocks@.len(),
            )
        &&& forall|i: int| 0 <= i < self.vns@.len() ==> vn_wf(#[trigger] self.vns@[i], self.ops@.len())
        &&& forall|i: int| 0 <= i < self.stack_syms@.len() ==> type_wf((#[trigger] self.stack_syms@[i]).ty)
        &&& forall|i: int| 0 <= i < self.vns@.len() ==> (#[trigger] self.vns@[i]).loc.space.0 < self.spaces@.len()
        &&& forall|i: int|
            0 <= i < self.blocks@.len() ==> block_wf(#[trigger] self.blocks@[i], self.ops@.len(), self.blocks@.len())
    }

    /// The parts of the function other than its varnodes, ops and blocks are the same.
    pub open spec fn same_meta(&self, other: &Funcdata) -> bool {
        &&& self.name == other.name
        &&& self.entry == other.entry
        &&& self.spaces == other.spaces
        &&& self.stack_pointer == other.stack_pointer
        &&& self.proto_model == other.proto_model
        &&& self.call_specs@ == other.call_specs@
        &&& self.active_inputs == other.active_inputs
        &&& self.type_recovery_started == other.type_recovery_started
        &&& self.stack_syms == other.stack_syms
        &&& self.not_mapped@ == other.not_mapped@
        &&& self.active_output == other.active_output
        &&& self.tail_return_write == other.tail_return_write
        &&& self.calls_awaiting_output@ == other.calls_awaiting_output@
    }

    /// Readers of `v` (see [`descend_spec`]).
    pub open spec fn descend_of(&self, v: VarnodeId) -> Seq<OpId> {
        descend_spec(self.ops@, v)
    }

    /// An empty function with the given name, entry point and address spaces.
    pub fn new(name: &str, entry: Address, spaces: SpaceManager) -> (r: Funcdata)
        requires
            spaces.wf(),
            space_named(spaces@, "const"@) is Some,
            space_named(spaces@, "unique"@) is Some,
        ensures
            r.wf(),
            r.name@ == name@,
            r.entry == entry,
            r.spaces == spaces,
            r.vns@.len() == 0,
            r.ops@.len() == 0,
            r.blocks@.len() == 0,
            r.stack_pointer is None,
            r.proto_model.extrapop == EXTRAPOP_UNKNOWN,
            r.proto_model.effectlist@.len() == 0,
            r.proto_model.localrange@.len() == 0,
            r.not_mapped@.len() == 0,
            r.active_output is None,
            !r.tail_return_write,
            r.calls_awaiting_output@.len() == 0,
            r.call_specs@.len() == 0,
            r.active_inputs@.len() == 0,
            !r.type_recovery_started,
            r.stack_syms@.len() == 0,
    {
        Funcdata {
            name: name.to_owned(),
            entry,
            spaces,
            vns: Vec::new(),
            ops: Vec::new(),
            blocks: Vec::new(),
            stack_pointer: None,
            proto_model: ProtoModel { extrapop: EXTRAPOP_UNKNOWN, effectlist: Vec::new(), localrange: RangeList::new() },
            call_specs: Vec::new(),
            active_inputs: Vec::new(),
            type_recovery_started: false,
            stack_syms: Vec::new(),
            unique_next: 0x10000,
            not_mapped: Vec::new(),
            active_output: None,
            tail_return_write: false,
            calls_awaiting_output: Vec::new(),
        }
    }

    pub fn vn(&self, v: VarnodeId) -> (r: &Varnode)
        requires
            v.0 < self.vns@.len(),
        ensures
            *r == self.vns@[v.0 as int],
    {
        &self.vns[v.0]
    }

    pub fn op(&self, o: OpId) -> (r: &PcodeOp)
        requires
            o.0 < self.ops@.len(),
        ensures
            *r == self.ops@[o.0 as int],
    {
        &self.ops[o.0]
    }

    pub fn block(&self, b: BlockId) -> (r: &BlockBasic)
        requires
            b.0 < self.blocks@.len(),
        ensures
            *r == self.blocks@[b.0 as int],
    {
        &self.blocks[b.0]
    }

    pub fn num_varnodes(&self) -> (r: usize)
        ensures
            r == self.vns@.len(),
    {
        self.vns.len()
    }

    pub fn num_ops(&self) -> (r: usize)
        ensures
            r == self.ops@.len(),
    {
        self.ops.len()
    }

    pub fn num_blocks(&self) -> (r: usize)
        ensures
            r == self.blocks@.len(),
    {
        self.blocks.len()
    }

    /// Carve the `size` bytes at `off` in space `spc` out of the local variables.
    pub fn mark_not_mapped(&mut self, spc: SpaceId, off: u64, size: u32)
        ensures
            final(self).not_mapped@ == old(self).not_mapped@.push((spc, off, size)),
            *final(self) == (Funcdata { not_mapped: final(self).not_mapped, ..*old(self) }),
    {
        self.not_mapped.push((spc, off, size));
    }

    /// Whether data-type recovery has begun.
    pub fn has_type_recovery_started(&self) -> (r: bool)
        ensures
            r == self.type_recovery_started,
    {
        self.type_recovery_started
    }

    /// Mark data-type recovery as begun.
    pub fn start_type_recovery(&mut self)
        ensures
            final(self).type_recovery_started,
            final(self).vns == old(self).vns,
            final(self).ops == old(self).ops,
            final(self).blocks == old(self).blocks,
            final(self).spaces == old(self).spaces,
            final(self).unique_next == old(self).unique_next,
    {
        self.type_recovery_started = true;
    }

    /// The readers of `v`, one entry per input slot naming it, in op order.
    pub fn descend(&self, v: VarnodeId) -> (r: Vec<OpId>)
        ensures
            r@ == self.descend_of(v),
    {
        let mut res: Vec<OpId> = Vec::new();
        let mut i: usize = 0;
        while i < self.ops.len()
            invariant
                i <= self.ops@.len(),
                res@ == descend_upto(self.ops@, v, i as int),
            decreases self.ops@.len() - i,
        {
            let ins = &self.ops[i].inrefs;
            let mut j: usize = 0;
            while j < ins.len()
                invariant
                    i < self.ops@.len(),
                    j <= ins@.len(),
                    ins@ == self.ops@[i as int].inrefs@,
                    res@ == descend_upto(self.ops@, v, i as int) + Seq::new(
                        count_in(ins@.take(j as int), v),
                        |_k: int| OpId(i),
                    ),
                decreases ins@.len() - j,
            {
                proof {
                    lemma_count_take(ins@, v, j as int);
                }
                if ins[j] == v {
                    res.push(OpId(i));
                }
                j += 1;
                assert(res@ =~= descend_upto(self.ops@, v, i as int) + Seq::new(
                    count_in(ins@.take(j as int), v),
                    |_k: int| OpId(i),
                ));
            }
            assert(ins@.take(j as int) =~= ins@);
            i += 1;
        }
        res
    }

    /// A fresh varnode record.
    pub open spec fn fresh_vn(loc: Address, size: u32, def: Option<OpId>, idx: int, input: bool, constant: bool) -> Varnode {
        Varnode {
            loc,
            size,
            def,
            ty: Datatype::Unknown(size),
            create_index: idx as usize,
            input,
            constant,
            persist: false,
            addrtied: false,
            spacebase: false,
            auto_live: false,
            indirect_creation: false,
            return_address: false,
            unaffected: false,
            direct_write: false,
            write_mask: false,
            typelock: false,
            precis_lo: false,
            precis_hi: false,
            active_heritage: false,
        }
    }

    /// The constant space.
    pub open spec fn const_space(&self) -> SpaceId {
        space_named(self.spaces@, "const"@).unwrap()
    }

    /// The `unique` (temporary) space.
    pub open spec fn unique_space(&self) -> SpaceId {
        space_named(self.spaces@, "unique"@).unwrap()
    }

    fn push_vn(&mut self, loc: Address, size: u32, def: Option<OpId>, input: bool, constant: bool) -> (r: VarnodeId)
        requires
            old(self).wf(),
            loc.space.0 < old(self).spaces@.len(),
            def matches Some(d) ==> d.0 < old(self).ops@.len(),
        ensures
            final(self).wf(),
            r.0 == old(self).vns@.len(),
            final(self).vns@ == old(self).vns@.push(Self::fresh_vn(loc, size, def, r.0 as int, input, constant)),
            final(self).ops == old(self).ops,
            final(self).blocks == old(self).blocks,
            final(self).same_meta(old(self)),
            final(self).unique_next == old(self).unique_next,
    {
        let idx = self.vns.len();
        self.vns.push(Varnode {
            loc,
            size,
            def,
            ty: Datatype::Unknown(size),
            create_index: idx,
            input,
            constant,
            persist: false,
            addrtied: false,
            spacebase: false,
            auto_live: false,
            indirect_creation: false,
            return_address: false,
            unaffected: false,
            direct_write: false,
            write_mask: false,
            typelock: false,
            precis_lo: false,
            precis_hi: false,
            active_heritage: false,
        });
        proof {
            assert forall|i: int| 0 <= i < self.ops@.len() implies op_wf(
                #[trigger] self.ops@[i],
                self.vns@.len(),
                self.ops@.len(),
                self.blocks@.len(),
            ) by {
                assert(op_wf(old(self).ops@[i], old(self).vns@.len(), old(self).ops@.len(), old(self).blocks@.len()));
            }
            assert(vn_wf(self.vns@[idx as int], self.ops@.len()));
            assert forall|i: int| 0 <= i < self.vns@.len() implies vn_wf(#[trigger] self.vns@[i], self.ops@.len()) by {
                if i < idx {
                    assert(self.vns@[i] == old(self).vns@[i]);
                }
            }
        }
        VarnodeId(idx)
    }

    /// A new function input of `size` bytes stored at `addr`.
    pub fn new_input(&mut self, size: u32, addr: Address) -> (r: VarnodeId)
        requires
            old(self).wf(),
            addr.space.0 < old(self).spaces@.len(),
        ensures
            final(self).wf(),
            r.0 == old(self).vns@.len(),
            final(self).vns@ == old(self).vns@.push(Self::fresh_vn(addr, size, None, r.0 as int, true, false)),
            final(self).ops == old(self).ops,
            final(self).blocks == old(self).blocks,
            final(self).same_meta(old(self)),
            final(self).unique_next == old(self).unique_next,
    {
        self.push_vn(addr, size, None, true, false)
    }

    /// A new free varnode of `size` bytes at `addr`: neither written, an input nor a constant.
    pub fn new_varnode(&mut self, size: u32, addr: Address) -> (r: VarnodeId)
        requires
            old(self).wf(),
            addr.space.0 < old(self).spaces@.len(),
        ensures
            final(self).wf(),
            r.0 == old(self).vns@.len(),
            final(self).vns@ == old(self).vns@.push(Self::fresh_vn(addr, size, None, r.0 as int, false, false)),
            final(self).ops == old(self).ops,
            final(self).blocks == old(self).blocks,
            final(self).same_meta(old(self)),
            final(self).unique_next == old(self).unique_next,
    {
        self.push_vn(addr, size, None, false, false)
    }

    /// A new free temporary of `size` bytes at the next free offset of the `unique` space.
    pub fn new_unique(&mut self, size: u32) -> (r: VarnodeId)
        requires
            old(self).wf(),
        ensures
            final(self).wf(),
            r.0 == old(self).vns@.len(),
            final(self).vns@ == old(self).vns@.push(
                Self::fresh_vn(
                    Address { space: old(self).unique_space(), offset: old(self).unique_next },
                    size,
                    None,
                    r.0 as int,
                    false,
                    false,
                ),
            ),
            final(self).ops == old(self).ops,
            final(self).blocks == old(self).blocks,
            final(self).same_meta(old(self)),
            final(self).unique_next == old(self).unique_next.wrapping_add(size as u64),
    {
        let us = self.spaces.by_name("unique").unwrap();
        let off = self.unique_next;
        let r = self.push_vn(Address::new(us, off), size, None, false, false);
        self.unique_next = off.wrapping_add(size as u64);
        r
    }

    /// A new constant of `size` bytes with value `val`.
    pub fn new_const(&mut self, size: u32, val: u64) -> (r: VarnodeId)
        requires
            old(self).wf(),
        ensures
            final(self).wf(),
            r.0 == old(self).vns@.len(),
            final(self).vns@ == old(self).vns@.push(
                Self::fresh_vn(Address { space: old(self).const_space(), offset: val }, size, None, r.0 as int, false, true),
            ),
            final(self).ops == old(self).ops,
            final(self).blocks == old(self).blocks,
            final(self).same_meta(old(self)),
            final(self).unique_next == old(self).unique_next,
    {
        let cs = self.spaces.constant();
        self.push_vn(Address::new(cs, val), size, None, false, true)
    }

    /// A new op with the given inputs and no output, in no block.
    pub fn new_op(&mut self, opc: OpCode, seq: SeqNum, inputs: Vec<VarnodeId>) -> (r: OpId)
        requires
            old(self).wf(),
            forall|k: int| 0 <= k < inputs@.len() ==> (#[trigger] inputs@[k]).0 < old(self).vns@.len(),
        ensures
            final(self).wf(),
            r.0 == old(self).ops@.len(),
            final(self).ops@.len() == old(self).ops@.len() + 1,
            forall|i: int| 0 <= i < old(self).ops@.len() ==> #[trigger] final(self).ops@[i] == old(self).ops@[i],
            final(self).ops@[r.0 as int].opc == opc,
            final(self).ops@[r.0 as int].inrefs@ == inputs@,
            final(self).ops@[r.0 as int].output is None,
            final(self).ops@[r.0 as int].seqnum == seq,
            final(self).ops@[r.0 as int].parent is None,
            !final(self).ops@[r.0 as int].dead,
            final(self).ops@[r.0 as int].guarded_op is None,
            final(self).vns == old(self).vns,
            final(self).blocks == old(self).blocks,
            final(self).same_meta(old(self)),
            final(self).unique_next == old(self).unique_next,
    {
        let idx = self.ops.len();
        self.ops.push(PcodeOp { opc, inrefs: inputs, output: None, seqnum: seq, parent: None, dead: false, guarded_op: None });
        proof {
            assert forall|i: int| 0 <= i < self.ops@.len() implies op_wf(
                #[trigger] self.ops@[i],
                self.vns@.len(),
                self.ops@.len(),
                self.blocks@.len(),
            ) by {
                if i < idx {
                    assert(op_wf(old(self).ops@[i], old(self).vns@.len(), old(self).ops@.len(), old(self).blocks@.len()));
                }
            }
            assert forall|i: int| 0 <= i < self.vns@.len() implies vn_wf(#[trigger] self.vns@[i], self.ops@.len()) by {
                assert(vn_wf(old(self).vns@[i], old(self).ops@.len()));
            }
            assert forall|i: int| 0 <= i < self.blocks@.len() implies block_wf(
                #[trigger] self.blocks@[i],
                self.ops@.len(),
                self.blocks@.len(),
            ) by {
                assert(block_wf(old(self).blocks@[i], old(self).ops@.len(), old(self).blocks@.len()));
            }
        }
        OpId(idx)
    }

    /// Give `op` a new output varnode of `size` bytes at `addr`.
    pub fn new_output(&mut self, op: OpId, size: u32, addr: Address) -> (r: VarnodeId)
        requires
            old(self).wf(),
            addr.space.0 < old(self).spaces@.len(),
            op.0 < old(self).ops@.len(),
        ensures
            final(self).wf(),
            r.0 == old(self).vns@.len(),
            final(self).vns@ == old(self).vns@.push(Self::fresh_vn(addr, size, Some(op), r.0 as int, false, false)),
            final(self).ops@.len() == old(self).ops@.len(),
            forall|i: int| 0 <= i < old(self).ops@.len() && i != op.0 ==> #[trigger] final(self).ops@[i] == old(self).ops@[i],
            final(self).ops@[op.0 as int].output == Some(r),
            same_but_outputs(final(self).ops@[op.0 as int], old(self).ops@[op.0 as int]),
            final(self).blocks == old(self).blocks,
            final(self).same_meta(old(self)),
            final(self).unique_next == old(self).unique_next,
    {
        let v = self.push_vn(addr, size, Some(op), false, false);
        self.ops[op.0].output = Some(v);
        proof {
            assert forall|i: int| 0 <= i < self.ops@.len() implies op_wf(
                #[trigger] self.ops@[i],
                self.vns@.len(),
                self.ops@.len(),
                self.blocks@.len(),
            ) by {
                assert(op_wf(old(self).ops@[i], old(self).vns@.len(), old(self).ops@.len(), old(self).blocks@.len()));
                if i == op.0 {
                    assert(forall|k: int| 0 <= k < self.ops@[i].inrefs@.len() ==> self.ops@[i].inrefs@[k] == old(self).ops@[i].inrefs@[k]);
                }
            }
        }
        v
    }

    /// Give `op` a new output of `size` bytes in a fresh location of the `unique` space.
    pub fn new_output_unique(&mut self, op: OpId, size: u32) -> (r: VarnodeId)
        requires
            old(self).wf(),
            op.0 < old(self).ops@.len(),
        ensures
            final(self).wf(),
            r.0 == old(self).vns@.len(),
            final(self).vns@ == old(self).vns@.push(
                Self::fresh_vn(
                    Address { space: old(self).unique_space(), offset: old(self).unique_next },
                    size,
                    Some(op),
                    r.0 as int,
                    false,
                    false,
                ),
            ),
            final(self).ops@.len() == old(self).ops@.len(),
            forall|i: int| 0 <= i < old(self).ops@.len() && i != op.0 ==> #[trigger] final(self).ops@[i] == old(self).ops@[i],
            final(self).ops@[op.0 as int].output == Some(r),
            same_but_outputs(final(self).ops@[op.0 as int], old(self).ops@[op.0 as int]),
            final(self).blocks == old(self).blocks,
            final(self).same_meta(old(self)),
            final(self).unique_next == old(self).unique_next.wrapping_add(size as u64),
    {
        let us = self.spaces.by_name("unique").unwrap();
        let off = self.unique_next;
        let r = self.new_output(op, size, Address::new(us, off));
        self.unique_next = off.wrapping_add(size as u64);
        r
    }

    /// Replace op `o` by `newop`.
    fn set_op(&mut self, o: OpId, newop: PcodeOp)
        requires
            old(self).wf(),
            o.0 < old(self).ops@.len(),
            op_wf(newop, old(self).vns@.len(), old(self).ops@.len(), old(self).blocks@.len()),
        ensures
            final(self).wf(),
            final(self).ops@ == old(self).ops@.update(o.0 as int, newop),
            final(self).vns == old(self).vns,
            final(self).blocks == old(self).blocks,
            final(self).same_meta(old(self)),
            final(self).unique_next == old(self).unique_next,
    {
        self.ops.set(o.0, newop);
        proof {
            assert forall|i: int| 0 <= i < self.ops@.len() implies op_wf(
                #[trigger] self.ops@[i],
                self.vns@.len(),
                self.ops@.len(),
                self.blocks@.len(),
            ) by {
                if i != o.0 {
                    assert(op_wf(old(self).ops@[i], old(self).vns@.len(), old(self).ops@.len(), old(self).blocks@.len()));
                }
            }
            assert forall|i: int| 0 <= i < self.vns@.len() implies vn_wf(#[trigger] self.vns@[i], self.ops@.len()) by {
                assert(vn_wf(old(self).vns@[i], old(self).ops@.len()));
            }
            assert forall|i: int| 0 <= i < self.blocks@.len() implies block_wf(
                #[trigger] self.blocks@[i],
                self.ops@.len(),
                self.blocks@.len(),
            ) by {
                assert(block_wf(old(self).blocks@[i], old(self).ops@.len(), old(self).blocks@.len()));
            }
        }
    }

    /// Replace the inputs of `o` by `ins`.
    fn set_inputs(&mut self, o: OpId, ins: Vec<VarnodeId>)
        requires
            old(self).wf(),
            o.0 < old(self).ops@.len(),
            forall|k: int| 0 <= k < ins@.len() ==> (#[trigger] ins@[k]).0 < old(self).vns@.len(),
        ensures
            final(self).wf(),
            final(self).ops@.len() == old(self).ops@.len(),
            forall|i: int| 0 <= i < old(self).ops@.len() && i != o.0 ==> #[trigger] final(self).ops@[i] == old(self).ops@[i],
            final(self).ops@[o.0 as int].inrefs@ == ins@,
            same_but_inputs(final(self).ops@[o.0 as int], old(self).ops@[o.0 as int]),
            final(self).vns == old(self).vns,
            final(self).blocks == old(self).blocks,
            final(self).same_meta(old(self)),
            final(self).unique_next == old(self).unique_next,
    {
        let cur = &self.ops[o.0];
        let newop = PcodeOp {
            opc: cur.opc,
            inrefs: ins,
            output: cur.output,
            seqnum: cur.seqnum,
            parent: cur.parent,
            dead: cur.dead,
            guarded_op: cur.guarded_op,
        };
        proof {
            assert(op_wf(old(self).ops@[o.0 as int], old(self).vns@.len(), old(self).ops@.len(), old(self).blocks@.len()));
        }
        self.set_op(o, newop);
    }

    /// The inputs of `o`, copied.
    fn inputs_of(&self, o: OpId) -> (r: Vec<VarnodeId>)
        requires
            o.0 < self.ops@.len(),
        ensures
            r@ == self.ops@[o.0 as int].inrefs@,
    {
        self.ops[o.0].duplicate().inrefs
    }

    /// Set input `slot` of `op` to `vn`.
    pub fn op_set_input(&mut self, op: OpId, slot: usize, vn: VarnodeId)
        requires
            old(self).wf(),
            op.0 < old(self).ops@.len(),
            slot < old(self).ops@[op.0 as int].inrefs@.len(),
            vn.0 < old(self).vns@.len(),
        ensures
            final(self).wf(),
            final(self).ops@.len() == old(self).ops@.len(),
            forall|i: int| 0 <= i < old(self).ops@.len() && i != op.0 ==> #[trigger] final(self).ops@[i] == old(self).ops@[i],
            final(self).ops@[op.0 as int].inrefs@ == old(self).ops@[op.0 as int].inrefs@.update(slot as int, vn),
            same_but_inputs(final(self).ops@[op.0 as int], old(self).ops@[op.0 as int]),
            final(self).vns == old(self).vns,
            final(self).blocks == old(self).blocks,
            final(self).same_meta(old(self)),
            final(self).unique_next == old(self).unique_next,
    {
        let mut ins = self.inputs_of(op);
        proof {
            assert(op_wf(old(self).ops@[op.0 as int], old(self).vns@.len(), old(self).ops@.len(), old(self).blocks@.len()));
        }
        ins.set(slot, vn);
        self.set_inputs(op, ins);
    }

    /// Make `ins` the whole input list of `op`.
    pub fn op_set_all_input(&mut self, op: OpId, ins: &[VarnodeId])
        requires
            old(self).wf(),
            op.0 < old(self).ops@.len(),
            forall|k: int| 0 <= k < ins@.len() ==> (#[trigger] ins@[k]).0 < old(self).vns@.len(),
        ensures
            final(self).wf(),
            final(self).ops@.len() == old(self).ops@.len(),
            forall|i: int| 0 <= i < old(self).ops@.len() && i != op.0 ==> #[trigger] final(self).ops@[i] == old(self).ops@[i],
            final(self).ops@[op.0 as int].inrefs@ == ins@,
            same_but_inputs(final(self).ops@[op.0 as int], old(self).ops@[op.0 as int]),
            final(self).vns == old(self).vns,
            final(self).blocks == old(self).blocks,
            final(self).same_meta(old(self)),
            final(self).unique_next == old(self).unique_next,
    {
        let mut v: Vec<VarnodeId> = Vec::new();
        let mut k: usize = 0;
        while k < ins.len()
            invariant
                k <= ins@.len(),
                v@ == ins@.take(k as int),
            decreases ins@.len() - k,
        {
            v.push(ins[k]);
            k += 1;
            assert(v@ =~= ins@.take(k as int));
        }
        assert(v@ =~= ins@);
        self.set_inputs(op, v);
    }

    /// Remove input `slot` of `op`, shifting the later inputs down.
    pub fn op_remove_input(&mut self, op: OpId, slot: usize)
        requires
            old(self).wf(),
            op.0 < old(self).ops@.len(),
            slot < old(self).ops@[op.0 as int].inrefs@.len(),
        ensures
            final(self).wf(),
            final(self).ops@.len() == old(self).ops@.len(),
            forall|i: int| 0 <= i < old(self).ops@.len() && i != op.0 ==> #[trigger] final(self).ops@[i] == old(self).ops@[i],
            final(self).ops@[op.0 as int].inrefs@ == old(self).ops@[op.0 as int].inrefs@.remove(slot as int),
            same_but_inputs(final(self).ops@[op.0 as int], old(self).ops@[op.0 as int]),
            final(self).vns == old(self).vns,
            final(self).blocks == old(self).blocks,
            final(self).same_meta(old(self)),
            final(self).unique_next == old(self).unique_next,
    {
        let mut ins = self.inputs_of(op);
        proof {
            assert(op_wf(old(self).ops@[op.0 as int], old(self).vns@.len(), old(self).ops@.len(), old(self).blocks@.len()));
        }
        ins.remove(slot);
        self.set_inputs(op, ins);
    }

    /// Add `vn` as a new last input of `op`.
    pub fn op_append_input(&mut self, op: OpId, vn: VarnodeId)
        requires
            old(self).wf(),
            op.0 < old(self).ops@.len(),
            vn.0 < old(self).vns@.len(),
        ensures
            final(self).wf(),
            final(self).ops@.len() == old(self).ops@.len(),
            forall|i: int| 0 <= i < old(self).ops@.len() && i != op.0 ==> #[trigger] final(self).ops@[i] == old(self).ops@[i],
            final(self).ops@[op.0 as int].inrefs@ == old(self).ops@[op.0 as int].inrefs@.push(vn),
            same_but_inputs(final(self).ops@[op.0 as int], old(self).ops@[op.0 as int]),
            final(self).vns == old(self).vns,
            final(self).blocks == old(self).blocks,
            final(self).same_meta(old(self)),
            final(self).unique_next == old(self).unique_next,
    {
        let mut ins = self.inputs_of(op);
        proof {
            assert(op_wf(old(self).ops@[op.0 as int], old(self).vns@.len(), old(self).ops@.len(), old(self).blocks@.len()));
        }
        ins.push(vn);
        self.set_inputs(op, ins);
    }

    /// Change the operation `op` performs.
    pub fn op_set_opcode(&mut self, op: OpId, opc: OpCode)
        requires
            old(self).wf(),
            op.0 < old(self).ops@.len(),
        ensures
            final(self).wf(),
            final(self).ops@.len() == old(self).ops@.len(),
            forall|i: int| 0 <= i < old(self).ops@.len() && i != op.0 ==> #[trigger] final(self).ops@[i] == old(self).ops@[i],
            final(self).ops@[op.0 as int] == (PcodeOp { opc, ..old(self).ops@[op.0 as int] }),
            final(self).vns == old(self).vns,
            final(self).blocks == old(self).blocks,
            final(self).same_meta(old(self)),
            final(self).unique_next == old(self).unique_next,
    {
        self.ops[op.0].opc = opc;
        proof {
            assert forall|i: int| 0 <= i < self.ops@.len() implies op_wf(
                #[trigger] self.ops@[i],
                self.vns@.len(),
                self.ops@.len(),
                self.blocks@.len(),
            ) by {
                assert(op_wf(old(self).ops@[i], old(self).vns@.len(), old(self).ops@.len(), old(self).blocks@.len()));
            }
        }
    }

    /// Place `op` in block `b`.
    pub fn op_set_parent(&mut self, op: OpId, b: BlockId)
        requires
            old(self).wf(),
            op.0 < old(self).ops@.len(),
            b.0 < old(self).blocks@.len(),
        ensures
            final(self).wf(),
            final(self).ops@.len() == old(self).ops@.len(),
            forall|i: int| 0 <= i < old(self).ops@.len() && i != op.0 ==> #[trigger] final(self).ops@[i] == old(self).ops@[i],
            final(self).ops@[op.0 as int] == (PcodeOp { parent: Some(b), ..old(self).ops@[op.0 as int] }),
            final(self).vns == old(self).vns,
            final(self).blocks == old(self).blocks,
            final(self).same_meta(old(self)),
            final(self).unique_next == old(self).unique_next,
    {
        self.ops[op.0].parent = Some(b);
        proof {
            assert forall|i: int| 0 <= i < self.ops@.len() implies op_wf(
                #[trigger] self.ops@[i],
                self.vns@.len(),
                self.ops@.len(),
                self.blocks@.len(),
            ) by {
                assert(op_wf(old(self).ops@[i], old(self).vns@.len(), old(self).ops@.len(), old(self).blocks@.len()));
            }
        }
    }

    /// Record that the INDIRECT `op` stands guard for the side effect of `guard`.
    pub fn op_set_guarded(&mut self, op: OpId, guard: OpId)
        requires
            old(self).wf(),
            op.0 < old(self).ops@.len(),
            guard.0 < old(self).ops@.len(),
        ensures
            final(self).wf(),
            final(self).ops@.len() == old(self).ops@.len(),
            forall|i: int| 0 <= i < old(self).ops@.len() && i != op.0 ==> #[trigger] final(self).ops@[i] == old(self).ops@[i],
            final(self).ops@[op.0 as int] == (PcodeOp { guarded_op: Some(guard), ..old(self).ops@[op.0 as int] }),
            final(self).vns == old(self).vns,
            final(self).blocks == old(self).blocks,
            final(self).same_meta(old(self)),
            final(self).unique_next == old(self).unique_next,
    {
        self.ops[op.0].guarded_op = Some(guard);
        proof {
            assert forall|i: int| 0 <= i < self.ops@.len() implies op_wf(
                #[trigger] self.ops@[i],
                self.vns@.len(),
                self.ops@.len(),
                self.blocks@.len(),
            ) by {
                assert(op_wf(old(self).ops@[i], old(self).vns@.len(), old(self).ops@.len(), old(self).blocks@.len()));
            }
        }
    }

    /// Give varnode `v` the data-type `ty`.
    pub fn vn_update_type(&mut self, v: VarnodeId, ty: Datatype)
        requires
            old(self).wf(),
            v.0 < old(self).vns@.len(),
            type_wf(ty),
        ensures
            final(self).wf(),
            final(self).vns@ == old(self).vns@.update(v.0 as int, Varnode { ty, ..old(self).vns@[v.0 as int] }),
            final(self).ops == old(self).ops,
            final(self).blocks == old(self).blocks,
            final(self).same_meta(old(self)),
            final(self).unique_next == old(self).unique_next,
    {
        self.vns[v.0].ty = ty;
        proof {
            assert forall|i: int| 0 <= i < self.vns@.len() implies vn_wf(#[trigger] self.vns@[i], self.ops@.len()) by {
                assert(vn_wf(old(self).vns@[i], old(self).ops@.len()));
            }
        }
    }

    /// Replace the control-flow graph.
    pub fn set_blocks(&mut self, blocks: Vec<BlockBasic>)
        requires
            old(self).wf(),
            forall|i: int| 0 <= i < blocks@.len() ==> block_wf(#[trigger] blocks@[i], old(self).ops@.len(), blocks@.len()),
            forall|i: int|
                0 <= i < old(self).ops@.len() ==> ((#[trigger] old(self).ops@[i]).parent matches Some(b) ==> b.0
                    < blocks@.len()),
        ensures
            final(self).wf(),
            final(self).blocks@ == blocks@,
            final(self).vns == old(self).vns,
            final(self).ops == old(self).ops,
            final(self).same_meta(old(self)),
            final(self).unique_next == old(self).unique_next,
    {
        self.blocks = blocks;
        proof {
            assert forall|i: int| 0 <= i < self.ops@.len() implies op_wf(
                #[trigger] self.ops@[i],
                self.vns@.len(),
                self.ops@.len(),
                self.blocks@.len(),
            ) by {
                assert(op_wf(old(self).ops@[i], old(self).vns@.len(), old(self).ops@.len(), old(self).blocks@.len()));
            }
        }
    }

    /// The block an op inserted before `follow` lands in: `follow`'s block, when `follow` is
    /// listed there.
    pub open spec fn placed_parent(&self, follow: OpId) -> Option<BlockId> {
        match self.ops@[follow.0 as int].parent {
            Some(b) => if first_pos(self.blocks@[b.0 as int].ops@, follow) >= 0 {
                Some(b)
            } else {
                None
            },
            None => None,
        }
    }

    /// Replace the op list of block `b`.
    pub fn set_block_ops(&mut self, b: BlockId, ops: Vec<OpId>)
        requires
            old(self).wf(),
            b.0 < old(self).blocks@.len(),
            forall|k: int| 0 <= k < ops@.len() ==> (#[trigger] ops@[k]).0 < old(self).ops@.len(),
        ensures
            final(self).wf(),
            final(self).blocks@.len() == old(self).blocks@.len(),
            forall|i: int| 0 <= i < old(self).blocks@.len() && i != b.0 ==> #[trigger] final(self).blocks@[i] == old(self).blocks@[i],
            final(self).blocks@[b.0 as int].ops@ == ops@,
            final(self).blocks@[b.0 as int].in_edges == old(self).blocks@[b.0 as int].in_edges,
            final(self).blocks@[b.0 as int].out_edges == old(self).blocks@[b.0 as int].out_edges,
            final(self).vns == old(self).vns,
            final(self).ops == old(self).ops,
            final(self).same_meta(old(self)),
            final(self).unique_next == old(self).unique_next,
    {
        self.blocks[b.0].ops = ops;
        proof {
            assert forall|i: int| 0 <= i < self.ops@.len() implies op_wf(
                #[trigger] self.ops@[i],
                self.vns@.len(),
                self.ops@.len(),
                self.blocks@.len(),
            ) by {
                assert(op_wf(old(self).ops@[i], old(self).vns@.len(), old(self).ops@.len(), old(self).blocks@.len()));
            }
            assert forall|i: int| 0 <= i < self.blocks@.len() implies block_wf(
                #[trigger] self.blocks@[i],
                self.ops@.len(),
                self.blocks@.len(),
            ) by {
                assert(block_wf(old(self).blocks@[i], old(self).ops@.len(), old(self).blocks@.len()));
            }
        }
    }

    /// The op list of block `b`, copied.
    pub fn block_ops(&self, b: BlockId) -> (r: Vec<OpId>)
        requires
            b.0 < self.blocks@.len(),
        ensures
            r@ == self.blocks@[b.0 as int].ops@,
    {
        let src = &self.blocks[b.0].ops;
        let mut v: Vec<OpId> = Vec::new();
        let mut k: usize = 0;
        while k < src.len()
            invariant
                k <= src@.len(),
                v@ == src@.take(k as int),
            decreases src@.len() - k,
        {
            v.push(src[k]);
            k += 1;
            assert(v@ =~= src@.take(k as int));
        }
        assert(v@ =~= src@);
        v
    }

    /// Place `newop` first in block `b`.
    pub fn op_insert_begin(&mut self, newop: OpId, b: BlockId)
        requires
            old(self).wf(),
            newop.0 < old(self).ops@.len(),
            b.0 < old(self).blocks@.len(),
        ensures
            final(self).wf(),
            final(self).vns == old(self).vns,
            final(self).same_meta(old(self)),
            final(self).unique_next == old(self).unique_next,
            final(self).ops@.len() == old(self).ops@.len(),
            final(self).blocks@.len() == old(self).blocks@.len(),
            final(self).blocks@[b.0 as int].ops@ == old(self).blocks@[b.0 as int].ops@.insert(0, newop),
            final(self).blocks@[b.0 as int].in_edges == old(self).blocks@[b.0 as int].in_edges,
            final(self).blocks@[b.0 as int].out_edges == old(self).blocks@[b.0 as int].out_edges,
            forall|i: int| 0 <= i < old(self).blocks@.len() && i != b.0 ==> #[trigger] final(self).blocks@[i] == old(self).blocks@[i],
            final(self).ops@[newop.0 as int] == (PcodeOp { parent: Some(b), ..old(self).ops@[newop.0 as int] }),
            forall|i: int| 0 <= i < old(self).ops@.len() && i != newop.0 ==> #[trigger] final(self).ops@[i] == old(self).ops@[i],
    {
        proof {
            assert(block_wf(old(self).blocks@[b.0 as int], old(self).ops@.len(), old(self).blocks@.len()));
        }
        let mut list = self.block_ops(b);
        list.insert(0, newop);
        assert forall|k: int| 0 <= k < list@.len() implies (#[trigger] list@[k]).0 < self.ops@.len() by {
            if k > 0 {
                assert(list@[k] == old(self).blocks@[b.0 as int].ops@[k - 1]);
            }
        }
        self.set_block_ops(b, list);
        self.op_set_parent(newop, b);
    }

    /// Put `newop` into the block of `follow`, just before it. Nothing changes when `follow`
    /// is in no block.
    pub fn op_insert_before(&mut self, newop: OpId, follow: OpId)
        requires
            old(self).wf(),
            newop.0 < old(self).ops@.len(),
            follow.0 < old(self).ops@.len(),
        ensures
            final(self).wf(),
            final(self).vns == old(self).vns,
            final(self).same_meta(old(self)),
            final(self).unique_next == old(self).unique_next,
            final(self).ops@.len() == old(self).ops@.len(),
            final(self).blocks@.len() == old(self).blocks@.len(),
            match old(self).ops@[follow.0 as int].parent {
                Some(b) => if first_pos(old(self).blocks@[b.0 as int].ops@, follow) >= 0 {
                    &&& final(self).blocks@[b.0 as int].ops@ == old(self).blocks@[b.0 as int].ops@.insert(
                        first_pos(old(self).blocks@[b.0 as int].ops@, follow),
                        newop,
                    )
                    &&& final(self).blocks@[b.0 as int].in_edges == old(self).blocks@[b.0 as int].in_edges
                    &&& final(self).blocks@[b.0 as int].out_edges == old(self).blocks@[b.0 as int].out_edges
                    &&& forall|i: int| 0 <= i < old(self).blocks@.len() && i != b.0 ==> #[trigger] final(self).blocks@[i] == old(self).blocks@[i]
                    &&& final(self).ops@[newop.0 as int] == (PcodeOp { parent: Some(b), ..old(self).ops@[newop.0 as int] })
                    &&& forall|i: int| 0 <= i < old(self).ops@.len() && i != newop.0 ==> #[trigger] final(self).ops@[i] == old(self).ops@[i]
                } else {
                    final(self).blocks == old(self).blocks && final(self).ops == old(self).ops
                },
                None => final(self).blocks == old(self).blocks && final(self).ops == old(self).ops,
            },
    {
        let parent = self.ops[follow.0].parent;
        if let Some(b) = parent {
            proof {
                assert(op_wf(old(self).ops@[follow.0 as int], old(self).vns@.len(), old(self).ops@.len(), old(self).blocks@.len()));
                assert(block_wf(old(self).blocks@[b.0 as int], old(self).ops@.len(), old(self).blocks@.len()));
            }
            let mut list = self.block_ops(b);
            match position(&list, follow) {
                Some(p) => {
                    list.insert(p, newop);
                    assert forall|k: int| 0 <= k < list@.len() implies (#[trigger] list@[k]).0 < self.ops@.len() by {
                        if k < p {
                            assert(list@[k] == old(self).blocks@[b.0 as int].ops@[k]);
                        } else if k > p {
                            assert(list@[k] == old(self).blocks@[b.0 as int].ops@[k - 1]);
                        }
                    }
                    self.set_block_ops(b, list);
                    self.op_set_parent(newop, b);
                },
                None => {},
            }
        }
    }

    /// A new op at the address of `follow`, with the given inputs and a fresh `unique` output
    /// as wide as the first input, placed just before `follow`.
    pub fn new_op_before(&mut self, follow: OpId, opc: OpCode, inputs: Vec<VarnodeId>) -> (r: OpId)
        requires
            old(self).wf(),
            follow.0 < old(self).ops@.len(),
            inputs@.len() > 0,
            forall|k: int| 0 <= k < inputs@.len() ==> (#[trigger] inputs@[k]).0 < old(self).vns@.len(),
        ensures
            final(self).wf(),
            r.0 == old(self).ops@.len(),
            final(self).ops@.len() == old(self).ops@.len() + 1,
            forall|i: int| 0 <= i < old(self).ops@.len() ==> #[trigger] final(self).ops@[i] == old(self).ops@[i],
            final(self).ops@[r.0 as int].opc == opc,
            final(self).ops@[r.0 as int].inrefs@ == inputs@,
            final(self).ops@[r.0 as int].output == Some(VarnodeId(old(self).vns@.len() as usize)),
            final(self).ops@[r.0 as int].seqnum.pc == old(self).ops@[follow.0 as int].seqnum.pc,
            final(self).ops@[r.0 as int].parent == old(self).placed_parent(follow),
            !final(self).ops@[r.0 as int].dead,
            final(self).ops@[r.0 as int].guarded_op is None,
            final(self).vns@ == old(self).vns@.push(
                Self::fresh_vn(
                    Address { space: old(self).unique_space(), offset: old(self).unique_next },
                    old(self).vns@[inputs@[0].0 as int].size,
                    Some(r),
                    old(self).vns@.len() as int,
                    false,
                    false,
                ),
            ),
            final(self).same_meta(old(self)),
            final(self).blocks@.len() == old(self).blocks@.len(),
    {
        let pc = self.ops[follow.0].seqnum.pc;
        let uniq = #[verifier::truncate] (self.ops.len() as u32);
        let sz = self.vns[inputs[0].0].size;
        let o = self.new_op(opc, SeqNum { pc, uniq }, inputs);
        self.new_output_unique(o, sz);
        self.op_insert_before(o, follow);
        o
    }

    /// Mark varnode `v` as needing no further heritage.
    pub fn vn_set_write_mask(&mut self, v: VarnodeId)
        requires
            old(self).wf(),
            v.0 < old(self).vns@.len(),
        ensures
            final(self).wf(),
            final(self).vns@ == old(self).vns@.update(v.0 as int, Varnode { write_mask: true, ..old(self).vns@[v.0 as int] }),
            final(self).ops == old(self).ops,
            final(self).blocks == old(self).blocks,
            final(self).same_meta(old(self)),
            final(self).unique_next == old(self).unique_next,
    {
        self.vns[v.0].write_mask = true;
        proof {
            assert forall|i: int| 0 <= i < self.vns@.len() implies vn_wf(#[trigger] self.vns@[i], self.ops@.len()) by {
                assert(vn_wf(old(self).vns@[i], old(self).ops@.len()));
            }
        }
    }

    /// Mark varnode `v` for linking by the next heritage pass.
    pub fn vn_set_active_heritage(&mut self, v: VarnodeId)
        requires
            old(self).wf(),
            v.0 < old(self).vns@.len(),
        ensures
            final(self).wf(),
            final(self).vns@ == old(self).vns@.update(v.0 as int, Varnode { active_heritage: true, ..old(self).vns@[v.0 as int] }),
            final(self).ops == old(self).ops,
            final(self).blocks == old(self).blocks,
            final(self).same_meta(old(self)),
            final(self).unique_next == old(self).unique_next,
    {
        self.vns[v.0].active_heritage = true;
        proof {
            assert forall|i: int| 0 <= i < self.vns@.len() implies vn_wf(#[trigger] self.vns@[i], self.ops@.len()) by {
                assert(vn_wf(old(self).vns@[i], old(self).ops@.len()));
            }
        }
    }

    /// Mark varnode `v` as standing for a value a call creates.
    pub fn vn_set_indirect_creation(&mut self, v: VarnodeId)
        requires
            old(self).wf(),
            v.0 < old(self).vns@.len(),
        ensures
            final(self).wf(),
            final(self).vns@ == old(self).vns@.update(v.0 as int, Varnode { indirect_creation: true, ..old(self).vns@[v.0 as int] }),
            final(self).ops == old(self).ops,
            final(self).blocks == old(self).blocks,
            final(self).same_meta(old(self)),
            final(self).unique_next == old(self).unique_next,
    {
        self.vns[v.0].indirect_creation = true;
        proof {
            assert forall|i: int| 0 <= i < self.vns@.len() implies vn_wf(#[trigger] self.vns@[i], self.ops@.len()) by {
                assert(vn_wf(old(self).vns@[i], old(self).ops@.len()));
            }
        }
    }

    /// Set the `def` of varnode `v`.
    fn set_def(&mut self, v: VarnodeId, def: Option<OpId>)
        requires
            old(self).wf(),
            v.0 < old(self).vns@.len(),
            def matches Some(d) ==> d.0 < old(self).ops@.len(),
        ensures
            final(self).wf(),
            final(self).vns@ == old(self).vns@.update(v.0 as int, Varnode { def, ..old(self).vns@[v.0 as int] }),
            final(self).ops == old(self).ops,
            final(self).blocks == old(self).blocks,
            final(self).same_meta(old(self)),
            final(self).unique_next == old(self).unique_next,
    {
        self.vns[v.0].def = def;
        proof {
            assert forall|i: int| 0 <= i < self.vns@.len() implies vn_wf(#[trigger] self.vns@[i], self.ops@.len()) by {
                assert(vn_wf(old(self).vns@[i], old(self).ops@.len()));
            }
        }
    }

    /// Set the `output` of op `o`.
    fn set_output_field(&mut self, o: OpId, out: Option<VarnodeId>)
        requires
            old(self).wf(),
            o.0 < old(self).ops@.len(),
            out matches Some(v) ==> v.0 < old(self).vns@.len(),
        ensures
            final(self).wf(),
            final(self).ops@ == old(self).ops@.update(o.0 as int, PcodeOp { output: out, ..old(self).ops@[o.0 as int] }),
            final(self).vns == old(self).vns,
            final(self).blocks == old(self).blocks,
            final(self).same_meta(old(self)),
            final(self).unique_next == old(self).unique_next,
    {
        self.ops[o.0].output = out;
        proof {
            assert forall|i: int| 0 <= i < self.ops@.len() implies op_wf(
                #[trigger] self.ops@[i],
                self.vns@.len(),
                self.ops@.len(),
                self.blocks@.len(),
            ) by {
                assert(op_wf(old(self).ops@[i], old(self).vns@.len(), old(self).ops@.len(), old(self).blocks@.len()));
                if i == o.0 {
                    assert(forall|k: int| 0 <= k < self.ops@[i].inrefs@.len() ==> self.ops@[i].inrefs@[k] == old(self).ops@[i].inrefs@[k]);
                }
            }
            assert(self.ops@ =~= old(self).ops@.update(o.0 as int, PcodeOp { output: out, ..old(self).ops@[o.0 as int] }));
        }
    }

    /// Remove `op` from the function: it loses its inputs, its output (which becomes free) and
    /// its place in its block, and is marked dead.
    pub fn op_destroy(&mut self, op: OpId)
        requires
            old(self).wf(),
            op.0 < old(self).ops@.len(),
        ensures
            final(self).wf(),
            final(self).same_meta(old(self)),
            final(self).unique_next == old(self).unique_next,
            final(self).ops@.len() == old(self).ops@.len(),
            forall|i: int| 0 <= i < old(self).ops@.len() && i != op.0 ==> #[trigger] final(self).ops@[i] == old(self).ops@[i],
            final(self).ops@[op.0 as int].dead,
            final(self).ops@[op.0 as int].inrefs@.len() == 0,
            final(self).ops@[op.0 as int].output is None,
            final(self).ops@[op.0 as int].parent is None,
            final(self).ops@[op.0 as int].opc == old(self).ops@[op.0 as int].opc,
            final(self).ops@[op.0 as int].seqnum == old(self).ops@[op.0 as int].seqnum,
            final(self).ops@[op.0 as int].guarded_op == old(self).ops@[op.0 as int].guarded_op,
            match old(self).ops@[op.0 as int].output {
                Some(v) => final(self).vns@ == old(self).vns@.update(v.0 as int, Varnode { def: None, ..old(self).vns@[v.0 as int] }),
                None => final(self).vns == old(self).vns,
            },
            final(self).blocks@.len() == old(self).blocks@.len(),
            match old(self).ops@[op.0 as int].parent {
                Some(b) => if first_pos(old(self).blocks@[b.0 as int].ops@, op) >= 0 {
                    &&& final(self).blocks@[b.0 as int].ops@ == old(self).blocks@[b.0 as int].ops@.remove(
                        first_pos(old(self).blocks@[b.0 as int].ops@, op),
                    )
                    &&& final(self).blocks@[b.0 as int].in_edges == old(self).blocks@[b.0 as int].in_edges
                    &&& final(self).blocks@[b.0 as int].out_edges == old(self).blocks@[b.0 as int].out_edges
                    &&& forall|i: int| 0 <= i < old(self).blocks@.len() && i != b.0 ==> #[trigger] final(self).blocks@[i] == old(self).blocks@[i]
                } else {
                    final(self).blocks == old(self).blocks
                },
                None => final(self).blocks == old(self).blocks,
            },
    {
        let cur_out = self.ops[op.0].output;
        let parent = self.ops[op.0].parent;
        let opc = self.ops[op.0].opc;
        let seqnum = self.ops[op.0].seqnum;
        let guarded = self.ops[op.0].guarded_op;
        proof {
            assert(op_wf(old(self).ops@[op.0 as int], old(self).vns@.len(), old(self).ops@.len(), old(self).blocks@.len()));
        }
        let dead = PcodeOp { opc, inrefs: Vec::new(), output: None, seqnum, parent: None, dead: true, guarded_op: guarded };
        self.set_op(op, dead);
        if let Some(v) = cur_out {
            self.set_def(v, None);
        }
        if let Some(b) = parent {
            proof {
                assert(block_wf(old(self).blocks@[b.0 as int], old(self).ops@.len(), old(self).blocks@.len()));
            }
            let mut list = self.block_ops(b);
            match position(&list, op) {
                Some(p) => {
                    list.remove(p);
                    assert forall|k: int| 0 <= k < list@.len() implies (#[trigger] list@[k]).0 < self.ops@.len() by {
                        if k < p {
                            assert(list@[k] == old(self).blocks@[b.0 as int].ops@[k]);
                        } else {
                            assert(list@[k] == old(self).blocks@[b.0 as int].ops@[k + 1]);
                        }
                    }
                    self.set_block_ops(b, list);
                },
                None => {},
            }
        }
    }

    /// The varnodes after `op_set_output(op, vn)` on a function whose `op` does not already
    /// write `vn`: the op's previous output is freed and `vn` is written by `op`.
    pub open spec fn vns_after_set_output(&self, op: OpId, vn: VarnodeId) -> Seq<Varnode> {
        let cleared = match self.ops@[op.0 as int].output {
            Some(c) => self.vns@.update(c.0 as int, Varnode { def: None, ..self.vns@[c.0 as int] }),
            None => self.vns@,
        };
        cleared.update(vn.0 as int, Varnode { def: Some(op), ..self.vns@[vn.0 as int] })
    }

    /// The ops after `op_set_output(op, vn)` on a function whose `op` does not already write
    /// `vn`: the previous writer of `vn` loses its output and `op` gains it.
    pub open spec fn ops_after_set_output(&self, op: OpId, vn: VarnodeId) -> Seq<PcodeOp> {
        let detached = match self.vns@[vn.0 as int].def {
            Some(d) => self.ops@.update(d.0 as int, PcodeOp { output: None, ..self.ops@[d.0 as int] }),
            None => self.ops@,
        };
        detached.update(op.0 as int, PcodeOp { output: Some(vn), ..self.ops@[op.0 as int] })
    }

    /// Make `vn` the output of `op`. The op's previous output and the previous writer of `vn`
    /// are detached first; nothing changes when `op` already writes `vn`.
    pub fn op_set_output(&mut self, op: OpId, vn: VarnodeId)
        requires
            old(self).wf(),
            op.0 < old(self).ops@.len(),
            vn.0 < old(self).vns@.len(),
        ensures
            final(self).wf(),
            final(self).same_meta(old(self)),
            final(self).unique_next == old(self).unique_next,
            final(self).blocks == old(self).blocks,
            old(self).ops@[op.0 as int].output == Some(vn) ==> final(self).ops == old(self).ops && final(self).vns == old(self).vns,
            old(self).ops@[op.0 as int].output != Some(vn) ==> final(self).ops@ == old(self).ops_after_set_output(op, vn)
                && final(self).vns@ == old(self).vns_after_set_output(op, vn),
    {
        let cur = self.ops[op.0].output;
        if cur == Some(vn) {
            return;
        }
        proof {
            assert(op_wf(old(self).ops@[op.0 as int], old(self).vns@.len(), old(self).ops@.len(), old(self).blocks@.len()));
            assert(vn_wf(old(self).vns@[vn.0 as int], old(self).ops@.len()));
        }
        if let Some(c) = cur {
            self.set_def(c, None);
        }
        let d = self.vns[vn.0].def;
        if let Some(d) = d {
            self.set_output_field(d, None);
        }
        self.set_output_field(op, Some(vn));
        self.set_def(vn, Some(op));
    }

    /// Turn the PTRADD `op` back into an INT_ADD: `PTRADD(p, i, size)` becomes `p + i*size`.
    /// A constant index is scaled in place (masked to its size); any other index gets a new
    /// INT_MULT by the size, placed just before `op`. With `finalize`, the new value takes the
    /// data-type of the index (constant case) or of the size (multiply case).
    pub fn op_undo_ptradd(&mut self, op: OpId, finalize: bool)
        requires
            old(self).wf(),
            op.0 < old(self).ops@.len(),
            old(self).ops@[op.0 as int].inrefs@.len() >= 3,
        ensures
            final(self).wf(),
            final(self).same_meta(old(self)),
            final(self).ops@[op.0 as int].opc == OpCode::IntAdd,
            ptradd_undone(old(self), final(self), op, finalize),
            forall|i: int| 0 <= i < old(self).ops@.len() && i != op.0 ==> #[trigger] final(self).ops@[i] == old(self).ops@[i],
            final(self).ops@.len() >= old(self).ops@.len(),
            final(self).vns@.len() >= old(self).vns@.len(),
    {
        proof {
            assert(op_wf(old(self).ops@[op.0 as int], old(self).vns@.len(), old(self).ops@.len(), old(self).blocks@.len()));
        }
        let multvn = self.ops[op.0].inrefs[2];
        let offvn = self.ops[op.0].inrefs[1];
        let mult_size = self.vns[multvn.0].loc.offset;
        self.op_remove_input(op, 2);
        self.op_set_opcode(op, OpCode::IntAdd);
        if mult_size == 1 {
            return;
        }
        let offsize = self.vns[offvn.0].size;
        if self.vns[offvn.0].constant {
            let newval = mult_size.wrapping_mul(self.vns[offvn.0].loc.offset) & calc_mask(offsize);
            let newc = self.new_const(offsize, newval);
            if finalize {
                let t = copy_type(&self.vns[offvn.0].ty);
                proof {
                    assert(vn_wf(self.vns@[offvn.0 as int], self.ops@.len()));
                }
                self.vn_update_type(newc, t);
            }
            self.op_set_input(op, 1, newc);
            proof {
                assert(self.vns@.take(old(self).vns@.len() as int) =~= old(self).vns@);
            }
            return;
        }
        let pc = self.ops[op.0].seqnum.pc;
        let uniq = #[verifier::truncate] (self.ops.len() as u32);
        let mut ins: Vec<VarnodeId> = Vec::new();
        ins.push(offvn);
        ins.push(multvn);
        let multop = self.new_op(OpCode::IntMult, SeqNum { pc, uniq }, ins);
        let addvn = self.new_output_unique(multop, offsize);
        if finalize {
            let t = copy_type(&self.vns[multvn.0].ty);
            proof {
                assert(vn_wf(self.vns@[multvn.0 as int], self.ops@.len()));
            }
            self.vn_update_type(addvn, t);
        }
        self.op_set_input(op, 1, addvn);
        self.op_insert_before(multop, op);
        proof {
            assert(self.vns@.take(old(self).vns@.len() as int) =~= old(self).vns@);
            let oins = old(self).ops@[op.0 as int].inrefs@;
            assert(self.ops@[multop.0 as int].inrefs@ =~= seq![oins[1], oins[2]]);
            assert(self.ops@[op.0 as int].inrefs@ =~= oins.remove(2).update(1, addvn));
        }
    }

    /// The position of the first entry for call `op` in [`Self::call_specs`].
    pub fn call_spec_index(&self, op: OpId) -> (r: Option<usize>)
        ensures
            match r {
                Some(p) => p < self.call_specs@.len() && self.call_specs@[p as int].0 == op
                    && forall|k: int| 0 <= k < p ==> self.call_specs@[k].0 != op,
                None => forall|k: int| 0 <= k < self.call_specs@.len() ==> self.call_specs@[k].0 != op,
            },
    {
        let mut i: usize = 0;
        while i < self.call_specs.len()
            invariant
                i <= self.call_specs@.len(),
                forall|k: int| 0 <= k < i ==> self.call_specs@[k].0 != op,
            decreases self.call_specs@.len() - i,
        {
            if self.call_specs[i].0 == op {
                return Some(i);
            }
            i += 1;
        }
        None
    }

    /// What is known of call `op`, if anything.
    pub fn call_spec(&self, op: OpId) -> (r: Option<&CallSpec>)
        ensures
            match r {
                Some(cs) => exists|p: int|
                    0 <= p < self.call_specs@.len() && self.call_specs@[p].0 == op && self.call_specs@[p].1 == *cs
                        && forall|k: int| 0 <= k < p ==> self.call_specs@[k].0 != op,
                None => forall|k: int| 0 <= k < self.call_specs@.len() ==> self.call_specs@[k].0 != op,
            },
    {
        match self.call_spec_index(op) {
            Some(p) => Some(&self.call_specs[p].1),
            None => None,
        }
    }

    /// Record `cs` for call `op`, replacing the first entry for it or adding one.
    pub fn set_call_spec(&mut self, op: OpId, cs: CallSpec)
        requires
            old(self).wf(),
        ensures
            final(self).wf(),
            final(self).vns == old(self).vns,
            final(self).ops == old(self).ops,
            final(self).blocks == old(self).blocks,
            final(self).unique_next == old(self).unique_next,
            final(self).spaces == old(self).spaces,
            final(self).active_inputs == old(self).active_inputs,
            final(self).proto_model == old(self).proto_model,
            final(self).type_recovery_started == old(self).type_recovery_started,
            final(self).stack_syms == old(self).stack_syms,
            final(self).stack_pointer == old(self).stack_pointer,
            match old(self).call_spec_index_spec(op) {
                Some(p) => final(self).call_specs@ == old(self).call_specs@.update(p as int, (op, cs)),
                None => final(self).call_specs@ == old(self).call_specs@.push((op, cs)),
            },
    {
        match self.call_spec_index(op) {
            Some(p) => {
                self.call_specs.set(p, (op, cs));
            },
            None => {
                self.call_specs.push((op, cs));
            },
        }
    }

    /// The position of the first entry for call `op`, if any.
    pub open spec fn call_spec_index_spec(&self, op: OpId) -> Option<usize> {
        if exists|p: int| 0 <= p < self.call_specs@.len() && (#[trigger] self.call_specs@[p]).0 == op {
            Some(
                (choose|p: int|
                    0 <= p < self.call_specs@.len() && (#[trigger] self.call_specs@[p]).0 == op && forall|k: int|
                        0 <= k < p ==> self.call_specs@[k].0 != op) as usize,
            )
        } else {
            None
        }
    }

    /// The open input trials of call `op`, if any (the first entry for it).
    pub open spec fn active_input_spec(&self, op: OpId) -> Option<ParamActive> {
        if exists|p: int| 0 <= p < self.active_inputs@.len() && (#[trigger] self.active_inputs@[p]).0 == op {
            Some(
                self.active_inputs@[choose|p: int|
                    0 <= p < self.active_inputs@.len() && (#[trigger] self.active_inputs@[p]).0 == op && forall|k: int|
                        0 <= k < p ==> self.active_inputs@[k].0 != op].1,
            )
        } else {
            None
        }
    }

    /// The open input trials of call `op`, if any.
    pub fn active_input(&self, op: OpId) -> (r: Option<&ParamActive>)
        ensures
            match r {
                Some(a) => self.active_input_spec(op) == Some(*a),
                None => self.active_input_spec(op) is None,
            },
    {
        let mut i: usize = 0;
        while i < self.active_inputs.len()
            invariant
                i <= self.active_inputs@.len(),
                forall|k: int| 0 <= k < i ==> self.active_inputs@[k].0 != op,
            decreases self.active_inputs@.len() - i,
        {
            if self.active_inputs[i].0 == op {
                proof {
                    let c = choose|p: int|
                        0 <= p < self.active_inputs@.len() && (#[trigger] self.active_inputs@[p]).0 == op && forall|k: int|
                            0 <= k < p ==> self.active_inputs@[k].0 != op;
                    assert(c == i) by {
                        if c < i {
                            assert(self.active_inputs@[c].0 != op);
                        } else if c > i {
                            assert(self.active_inputs@[i as int].0 != op);
                        }
                    }
                }
                return Some(&self.active_inputs[i].1);
            }
            i += 1;
        }
        None
    }

    /// The position of the first entry for call `op` in [`Self::active_inputs`].
    fn active_input_index(&self, op: OpId) -> (r: Option<usize>)
        ensures
            match r {
                Some(p) => p < self.active_inputs@.len() && self.active_inputs@[p as int].0 == op
                    && forall|k: int| 0 <= k < p ==> self.active_inputs@[k].0 != op,
                None => forall|k: int| 0 <= k < self.active_inputs@.len() ==> self.active_inputs@[k].0 != op,
            },
    {
        let mut i: usize = 0;
        while i < self.active_inputs.len()
            invariant
                i <= self.active_inputs@.len(),
                forall|k: int| 0 <= k < i ==> self.active_inputs@[k].0 != op,
            decreases self.active_inputs@.len() - i,
        {
            if self.active_inputs[i].0 == op {
                return Some(i);
            }
            i += 1;
        }
        None
    }

    /// Open input trials `a` for call `op`, replacing the first entry for it or adding one.
    pub fn set_active_input(&mut self, op: OpId, a: ParamActive)
        requires
            old(self).wf(),
        ensures
            final(self).wf(),
            final(self).vns == old(self).vns,
            final(self).ops == old(self).ops,
            final(self).blocks == old(self).blocks,
            final(self).active_input_spec(op) == Some(a),
            *final(self) == (Funcdata { active_inputs: final(self).active_inputs, ..*old(self) }),
    {
        let p = match self.active_input_index(op) {
            Some(p) => {
                self.active_inputs.set(p, (op, a));
                p
            },
            None => {
                self.active_inputs.push((op, a));
                self.active_inputs.len() - 1
            },
        };
        proof {
            assert(forall|k: int| 0 <= k < p ==> self.active_inputs@[k] == old(self).active_inputs@[k]);
            assert(self.active_inputs@[p as int].0 == op);
            let c = choose|q: int|
                0 <= q < self.active_inputs@.len() && (#[trigger] self.active_inputs@[q]).0 == op && forall|k: int|
                    0 <= k < q ==> self.active_inputs@[k].0 != op;
            assert(c == p) by {
                if c < p {
                    assert(self.active_inputs@[c].0 != op);
                } else if c > p {
                    assert(self.active_inputs@[p as int].0 != op);
                }
            }
        }
    }

    /// The single reader of `v`, when it has exactly one.
    pub fn lone_descend(&self, v: VarnodeId) -> (r: Option<OpId>)
        ensures
            r == lone_descend_spec(self.ops@, v),
    {
        let d = self.descend(v);
        if d.len() == 1 {
            Some(d[0])
        } else {
            None
        }
    }
}


/// `b` is `a` with the PTRADD `op` turned back into an INT_ADD (see
/// [`Funcdata::op_undo_ptradd`]): the element size dropped, and the index scaled by it (a
/// constant scaled in place, anything else through a new INT_MULT placed before `op`).
pub open spec fn ptradd_undone(a: &Funcdata, b: &Funcdata, op: OpId, finalize: bool) -> bool {
    &&& b.ops@[op.0 as int].opc == OpCode::IntAdd
    &&& ({
                let ins = a.ops@[op.0 as int].inrefs@;
                let multvn = a.vns@[ins[2].0 as int];
                let offvn = a.vns@[ins[1].0 as int];
                let n = a.vns@.len();
                if multvn.loc.offset == 1 {
                    &&& b.ops@[op.0 as int].inrefs@ == ins.remove(2)
                    &&& b.vns == a.vns
                    &&& b.ops@.len() == a.ops@.len()
                    &&& b.blocks == a.blocks
                } else if offvn.constant {
                    &&& b.ops@[op.0 as int].inrefs@ == ins.remove(2).update(1, VarnodeId(n as usize))
                    &&& b.vns@.len() == n + 1
                    &&& b.vns@.take(n as int) == a.vns@
                    &&& b.vns@[n as int] == (Varnode {
                        ty: if finalize { offvn.ty } else { Datatype::Unknown(offvn.size) },
                        ..Funcdata::fresh_vn(
                            Address {
                                space: a.const_space(),
                                offset: vstd::wrapping::u64_specs::wrapping_mul(multvn.loc.offset, offvn.loc.offset)
                                    & byte_mask(offvn.size as nat),
                            },
                            offvn.size,
                            None,
                            n as int,
                            false,
                            true,
                        )
                    })
                    &&& b.ops@.len() == a.ops@.len()
                    &&& b.blocks == a.blocks
                } else {
                    let m = a.ops@.len();
                    &&& b.ops@[op.0 as int].inrefs@ == ins.remove(2).update(1, VarnodeId(n as usize))
                    &&& b.ops@.len() == m + 1
                    &&& b.ops@[m as int].opc == OpCode::IntMult
                    &&& b.ops@[m as int].inrefs@ == seq![ins[1], ins[2]]
                    &&& b.ops@[m as int].output == Some(VarnodeId(n as usize))
                    &&& b.ops@[m as int].parent == a.placed_parent(op)
                    &&& b.vns@.len() == n + 1
                    &&& b.vns@.take(n as int) == a.vns@
                    &&& b.vns@[n as int].size == offvn.size
                    &&& b.vns@[n as int].def == Some(OpId(m as usize))
                    &&& b.vns@[n as int].ty == if finalize { multvn.ty } else { Datatype::Unknown(offvn.size) }
                }
            })
}

} // verus!
