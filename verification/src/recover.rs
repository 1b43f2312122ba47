//! Return-value recovery: deciding which candidate storage reaching a RETURN really holds a
//! returned value. A candidate qualifies when its value traces back to a real write the
//! function made ([`is_realistic`]) and it is used only to feed the RETURN
//! ([`ancestor_op_use`]).

use vstd::prelude::*;

use crate::fspec::{copy_reads, same_active, used_renumbered, ParamActive, ParamTrial, EXTRAPOP_UNKNOWN};
use crate::funcdata::{descend_spec, lone_descend_spec, op_wf, same_but_inputs, vn_wf, Funcdata, OpId, VarnodeId};
use crate::ancestor::AncestorRealistic;
use crate::opcode::OpCode;
use crate::space::{in_range_spec, space_named, Address, SpaceKind};

verus! {

/// Path flags of the forward walk: the alternate path crossed a solid action or a dedicated
/// COPY.
pub const TRAVERSE_ACTIONALT: u32 = 1;
/// The main path crossed an INDIRECT.
pub const TRAVERSE_INDIRECT: u32 = 2;
/// The alternate path crossed an INDIRECT.
pub const TRAVERSE_INDIRECTALT: u32 = 4;
/// The low byte(s) of the value were truncated.
pub const TRAVERSE_LSB_TRUNCATED: u32 = 8;
/// The value was concatenated as the most-significant part.
pub const TRAVERSE_CONCAT_HIGH: u32 = 0x10;

/// How many ancestor levels [`ancestor_op_use`] follows.
pub const TRIM_RECURSE_MAX: i32 = 5;

/// Does `vn`'s value trace back to a real write the function made, rather than to an untouched
/// input? Constants are real; an input reached through the walk is a normal parameter unless
/// it holds a return address; COPY, SUBPIECE and the extensions pass the question to their
/// input, a MULTIEQUAL to any of its inputs, a PIECE to its low part, an INDIRECT to the value
/// it carries across (a call-killed creation is not real); any other op computes a real value.
/// `seen` marks the varnodes already asked about: asking again answers no.
///
/// Each level of the walk marks a new varnode, so `fuel` (the number of varnodes, plus one)
/// is never exhausted; when it is, the answer is no.
fn is_realistic(f: &Funcdata, vn: VarnodeId, seen: &mut Vec<bool>, fuel: usize) -> (r: bool)
    requires
        f.wf(),
        vn.0 < f.vns@.len(),
        old(seen)@.len() == f.vns@.len(),
    ensures
        final(seen)@.len() == f.vns@.len(),
        f.vns@[vn.0 as int].constant ==> r,
        !f.vns@[vn.0 as int].constant && f.vns@[vn.0 as int].def is None ==> r == !f.vns@[vn.0 as int].return_address,
        !f.vns@[vn.0 as int].constant && !old(seen)@[vn.0 as int] && fuel > 0 && (f.vns@[vn.0 as int].def matches Some(d)
            && plain_write(f.ops@[d.0 as int].opc)) ==> r,
    decreases fuel,
{
    let v = f.vn(vn);
    if v.is_constant() {
        return true;
    }
    if !v.is_written() {
        return !v.is_return_address();
    }
    if seen[vn.0] {
        return false;
    }
    seen.set(vn.0, true);
    if fuel == 0 {
        return false;
    }
    proof {
        assert(vn_wf(f.vns@[vn.0 as int], f.ops@.len()));
    }
    let def = v.def.unwrap();
    proof {
        assert(op_wf(f.ops@[def.0 as int], f.vns@.len(), f.ops@.len(), f.blocks@.len()));
    }
    let o = f.op(def);
    match o.code() {
        OpCode::Copy | OpCode::Subpiece | OpCode::IntZext | OpCode::IntSext => {
            match o.input(0) {
                Some(i) => is_realistic(f, i, seen, fuel - 1),
                None => false,
            }
        },
        OpCode::Multiequal => {
            let mut k: usize = 0;
            while k < o.inrefs.len()
                invariant
                    k <= o.inrefs@.len(),
                    *o == f.ops@[def.0 as int],
                    vn.0 < f.vns@.len(),
                    f.vns@[vn.0 as int].def is Some,
                    !f.vns@[vn.0 as int].constant,
                    op_wf(*o, f.vns@.len(), f.ops@.len(), f.blocks@.len()),
                    seen@.len() == f.vns@.len(),
                    f.wf(),
                    fuel > 0,
                decreases o.inrefs@.len() - k,
            {
                if is_realistic(f, o.inrefs[k], seen, fuel - 1) {
                    return true;
                }
                k += 1;
            }
            false
        },
        OpCode::Piece => {
            match o.input(1) {
                Some(i) => is_realistic(f, i, seen, fuel - 1),
                None => false,
            }
        },
        OpCode::Indirect => {
            if v.is_indirect_creation() || v.is_return_address() {
                false
            } else {
                match o.input(0) {
                    Some(i) => is_realistic(f, i, seen, fuel - 1),
                    None => false,
                }
            }
        },
        _ => true,
    }
}

/// At a varnode where two paths to a CALL or RETURN part, is the alternate path the more
/// likely parameter or return flow?
pub open spec fn alt_path_valid_spec(f: &Funcdata, vn: VarnodeId, flags: u32) -> bool {
    if flags & (TRAVERSE_INDIRECT | TRAVERSE_INDIRECTALT) == TRAVERSE_INDIRECT {
        true
    } else if flags & (TRAVERSE_INDIRECT | TRAVERSE_INDIRECTALT) == TRAVERSE_INDIRECTALT {
        false
    } else if flags & TRAVERSE_ACTIONALT != 0 {
        true
    } else if descend_spec(f.ops@, vn).len() != 1 {
        false
    } else {
        match f.vns@[vn.0 as int].def {
            None => true,
            Some(op) => !(f.ops@[op.0 as int].opc == OpCode::Multiequal || f.ops@[op.0 as int].opc == OpCode::Indirect),
        }
    }
}

/// See [`alt_path_valid_spec`]: the main path crossing an INDIRECT the alternate did not makes
/// the alternate valid, and the reverse invalid; an alternate that crossed a dedicated COPY is
/// valid; otherwise the value must have a single reader and not come from a join.
fn is_alternate_path_valid(f: &Funcdata, vn: VarnodeId, flags: u32) -> (r: bool)
    requires
        f.wf(),
        vn.0 < f.vns@.len(),
    ensures
        r == alt_path_valid_spec(f, vn, flags),
{
    if flags & (TRAVERSE_INDIRECT | TRAVERSE_INDIRECTALT) == TRAVERSE_INDIRECT {
        return true;
    }
    if flags & (TRAVERSE_INDIRECT | TRAVERSE_INDIRECTALT) == TRAVERSE_INDIRECTALT {
        return false;
    }
    if flags & TRAVERSE_ACTIONALT != 0 {
        return true;
    }
    if f.descend(vn).len() != 1 {
        return false;
    }
    proof {
        assert(vn_wf(f.vns@[vn.0 as int], f.ops@.len()));
    }
    match f.vn(vn).def {
        None => true,
        Some(op) => !f.op(op).is_marker(),
    }
}

/// The first trial registered at input slot `j`.
pub open spec fn trial_at_spec(active: ParamActive, j: int) -> Option<ParamTrial> {
    if exists|k: int| 0 <= k < active.trial@.len() && (#[trigger] active.trial@[k]).op_slot == j {
        Some(
            active.trial@[choose|k: int|
                0 <= k < active.trial@.len() && (#[trigger] active.trial@[k]).op_slot == j && forall|i: int|
                    0 <= i < k ==> active.trial@[i].op_slot != j],
        )
    } else {
        None
    }
}

/// The first trial registered at input slot `j`.
fn trial_for_slot(active: &ParamActive, j: usize) -> (r: Option<&ParamTrial>)
    ensures
        match r {
            Some(t) => trial_at_spec(*active, j as int) == Some(*t),
            None => trial_at_spec(*active, j as int) is None,
        },
{
    let mut k: usize = 0;
    while k < active.trial.len()
        invariant
            k <= active.trial@.len(),
            forall|i: int| 0 <= i < k ==> active.trial@[i].op_slot != j,
        decreases active.trial@.len() - k,
    {
        if active.trial[k].op_slot as usize == j {
            proof {
                let c = choose|c: int|
                    0 <= c < active.trial@.len() && (#[trigger] active.trial@[c]).op_slot == j && forall|i: int|
                        0 <= i < c ==> active.trial@[i].op_slot != j;
                assert(c == k) by {
                    if c < k {
                        assert(active.trial@[c].op_slot != j);
                    } else if c > k {
                        assert(active.trial@[k as int].op_slot != j);
                    }
                }
            }
            return Some(&active.trial[k]);
        }
        k += 1;
    }
    None
}

/// The position of `op` in its block, or `usize::MAX` when it is in no block (or not listed).
pub open spec fn block_pos_spec(f: &Funcdata, op: OpId) -> int {
    match f.ops@[op.0 as int].parent {
        Some(b) => {
            let p = crate::funcdata::first_pos(f.blocks@[b.0 as int].ops@, op);
            if p >= 0 {
                p
            } else {
                usize::MAX as int
            }
        },
        None => usize::MAX as int,
    }
}

fn block_pos(f: &Funcdata, op: OpId) -> (r: usize)
    requires
        f.wf(),
        op.0 < f.ops@.len(),
    ensures
        r == block_pos_spec(f, op),
{
    proof {
        assert(op_wf(f.ops@[op.0 as int], f.vns@.len(), f.ops@.len(), f.blocks@.len()));
    }
    match f.op(op).parent {
        Some(b) => match crate::funcdata::position(&f.block(b).ops, op) {
            Some(p) => p,
            None => usize::MAX,
        },
        None => usize::MAX,
    }
}

/// The first input slot of `op` holding `vn`, if any.
pub open spec fn first_slot(f: &Funcdata, op: OpId, vn: VarnodeId) -> Option<int> {
    let ins = f.ops@[op.0 as int].inrefs@;
    if exists|k: int| 0 <= k < ins.len() && ins[k] == vn {
        Some(choose|k: int| 0 <= k < ins.len() && ins[k] == vn && forall|i: int| 0 <= i < k ==> ins[i] != vn)
    } else {
        None
    }
}

/// Calls `op` and `opmatch` go to the same function: the same constant target for direct
/// calls, the same target varnode for indirect ones.
pub open spec fn same_callee(f: &Funcdata, opmatch: OpId, op: OpId) -> bool {
    let (a, b) = (f.ops@[op.0 as int].inrefs@, f.ops@[opmatch.0 as int].inrefs@);
    if a.len() == 0 || b.len() == 0 {
        false
    } else if f.ops@[opmatch.0 as int].opc == OpCode::Call {
        f.vns@[a[0].0 as int].constant && f.vns@[b[0].0 as int].constant && f.vns@[a[0].0 as int].loc == f.vns@[b[0].0 as int].loc
    } else {
        a[0] == b[0]
    }
}

/// The decision of [`check_call_double_use`].
pub open spec fn call_double_use_spec(f: &Funcdata, opmatch: OpId, op: OpId, vn: VarnodeId, fl: u32, trial_addr: Address) -> bool {
    match first_slot(f, op, vn) {
        None => false,
        Some(j) => if j == 0 {
            false
        } else {
            let active = f.active_input_spec(op);
            let ct = match active {
                Some(a) => trial_at_spec(a, j),
                None => None,
            };
            let dibs = f.ops@[op.0 as int].opc == f.ops@[opmatch.0 as int].opc && same_callee(f, opmatch, op) && (ct matches Some(
                t,
            ) && t.addr == trial_addr && (f.ops@[op.0 as int].parent == f.ops@[opmatch.0 as int].parent ==> block_pos_spec(
                f,
                opmatch,
            ) < block_pos_spec(f, op)));
            if dibs {
                true
            } else {
                match ct {
                    Some(t) => if t.checked {
                        !t.active
                    } else {
                        !alt_path_valid_spec(f, vn, fl)
                    },
                    None => false,
                }
            }
        },
    }
}

/// When a value feeds a second call besides the one whose trial is judged: never a legitimate
/// double use if it is not an input of the second call or is its target; always one if both
/// calls are of the same kind to the same function, the second call's trial at that input has
/// the judged storage, and the first call comes earlier (in another block, or before it in the
/// same block), whatever the trial's flags; otherwise, for a checked trial, exactly when the
/// trial is inactive, and never without a trial.
pub proof fn law_call_double_use(f: &Funcdata, opmatch: OpId, op: OpId, vn: VarnodeId, fl: u32, trial_addr: Address)
    ensures
        first_slot(f, op, vn) is None ==> !call_double_use_spec(f, opmatch, op, vn, fl, trial_addr),
        first_slot(f, op, vn) == Some(0int) ==> !call_double_use_spec(f, opmatch, op, vn, fl, trial_addr),
        first_slot(f, op, vn) matches Some(j) ==> j > 0 ==> ({
            let ct = match f.active_input_spec(op) {
                Some(a) => trial_at_spec(a, j),
                None => None,
            };
            let same = f.ops@[op.0 as int].opc == f.ops@[opmatch.0 as int].opc && same_callee(f, opmatch, op);
            &&& same && (ct matches Some(t) && t.addr == trial_addr) && (f.ops@[op.0 as int].parent
                != f.ops@[opmatch.0 as int].parent || block_pos_spec(f, opmatch) < block_pos_spec(f, op))
                ==> call_double_use_spec(f, opmatch, op, vn, fl, trial_addr)
            &&& !(same && (ct matches Some(t) && t.addr == trial_addr)) && (ct matches Some(t) && t.checked)
                ==> call_double_use_spec(f, opmatch, op, vn, fl, trial_addr) == !ct.unwrap().active
            &&& ct is None ==> !call_double_use_spec(f, opmatch, op, vn, fl, trial_addr)
        }),
{
}

/// The trial value `vn` also flows into a second call `op` (besides `opmatch`): is that a
/// legitimate double use, one that does not disqualify the trial? Never when `vn` is the
/// call's target (slot 0) or not an input at all. Yes when both calls go to the same function
/// and `opmatch` has the earlier claim on a trial at the same storage. Otherwise it depends on
/// the second call's trial at that slot: a checked trial is a legitimate double use exactly when
/// it is inactive, an unchecked one when the alternate path is not the more plausible flow;
/// without such a trial it is a real use.
pub fn check_call_double_use(f: &Funcdata, opmatch: OpId, op: OpId, vn: VarnodeId, fl: u32, trial_addr: Address) -> (r: bool)
    requires
        f.wf(),
        opmatch.0 < f.ops@.len(),
        op.0 < f.ops@.len(),
        vn.0 < f.vns@.len(),
    ensures
        r == call_double_use_spec(f, opmatch, op, vn, fl, trial_addr),
{
    let ins = &f.op(op).inrefs;
    let mut j: usize = 0;
    while j < ins.len() && ins[j] != vn
        invariant
            j <= ins@.len(),
            ins@ == f.ops@[op.0 as int].inrefs@,
            forall|i: int| 0 <= i < j ==> ins@[i] != vn,
        decreases ins@.len() - j,
    {
        j += 1;
    }
    if j == ins.len() {
        return false;
    }
    proof {
        let c = choose|k: int| 0 <= k < ins@.len() && ins@[k] == vn && forall|i: int| 0 <= i < k ==> ins@[i] != vn;
        assert(c == j) by {
            if c < j {
                assert(ins@[c] != vn);
            } else if c > j {
                assert(ins@[j as int] != vn);
            }
        }
        assert(first_slot(f, op, vn) == Some(j as int));
    }
    if j == 0 {
        return false;
    }
    let ct = match f.active_input(op) {
        Some(a) => trial_for_slot(a, j),
        None => None,
    };
    if f.op(op).code() == f.op(opmatch).code() {
        let same_fn = {
            let a = f.op(op).input(0);
            let b = f.op(opmatch).input(0);
            match (a, b) {
                (Some(a), Some(b)) => {
                    proof {
                        assert(op_wf(f.ops@[op.0 as int], f.vns@.len(), f.ops@.len(), f.blocks@.len()));
                        assert(op_wf(f.ops@[opmatch.0 as int], f.vns@.len(), f.ops@.len(), f.blocks@.len()));
                    }
                    if f.op(opmatch).code() == OpCode::Call {
                        f.vn(a).is_constant() && f.vn(b).is_constant() && f.vn(a).loc == f.vn(b).loc
                    } else {
                        a == b
                    }
                },
                _ => false,
            }
        };
        if same_fn {
            if let Some(t) = ct {
                if t.addr == trial_addr {
                    if f.op(op).parent == f.op(opmatch).parent {
                        if block_pos(f, opmatch) < block_pos(f, op) {
                            return true;
                        }
                    } else {
                        return true;
                    }
                }
            }
        }
    }
    match ct {
        Some(t) => {
            if t.checked {
                !t.active
            } else {
                !is_alternate_path_valid(f, vn, fl)
            }
        },
        None => false,
    }
}

} // verus!

verus! {

/// The number of set flags.
pub open spec fn count_true(s: Seq<bool>) -> nat
    decreases s.len(),
{
    if s.len() == 0 {
        0
    } else {
        count_true(s.drop_last()) + if s.last() { 1nat } else { 0nat }
    }
}

proof fn lemma_count_true_bound(s: Seq<bool>)
    ensures
        count_true(s) <= s.len(),
    decreases s.len(),
{
    if s.len() > 0 {
        lemma_count_true_bound(s.drop_last());
    }
}

proof fn lemma_count_true_all_false(s: Seq<bool>)
    requires
        forall|j: int| 0 <= j < s.len() ==> !s[j],
    ensures
        count_true(s) == 0,
    decreases s.len(),
{
    if s.len() > 0 {
        lemma_count_true_all_false(s.drop_last());
    }
}

proof fn lemma_count_true_set(s: Seq<bool>, k: int)
    requires
        0 <= k < s.len(),
        !s[k],
    ensures
        count_true(s.update(k, true)) == count_true(s) + 1,
    decreases s.len(),
{
    if k < s.len() - 1 {
        assert(s.update(k, true).drop_last() =~= s.drop_last().update(k, true));
        lemma_count_true_set(s.drop_last(), k);
    } else {
        assert(s.update(k, true).drop_last() =~= s.drop_last());
    }
}

/// The reader `d` of `v` really uses it: a branch, LOAD or STORE, unless it is the op `m` reading
/// `v` in slot `s`.
pub open spec fn real_use(f: &Funcdata, d: OpId, v: VarnodeId, m: OpId, s: usize) -> bool {
    let o = f.ops@[d.0 as int];
    &&& (o.opc == OpCode::Branch || o.opc == OpCode::Cbranch || o.opc == OpCode::Branchind || o.opc == OpCode::Load
        || o.opc == OpCode::Store)
    &&& !(d == m && s < o.inrefs@.len() && o.inrefs@[s as int] == v)
}

/// `v` is read by nothing but input `s` of `m`.
pub open spec fn sole_feed(f: &Funcdata, v: VarnodeId, m: OpId, s: usize) -> bool {
    &&& s < f.ops@[m.0 as int].inrefs@.len() && f.ops@[m.0 as int].inrefs@[s as int] == v
    &&& forall|k: int| 0 <= k < f.descend_of(v).len() ==> #[trigger] f.descend_of(v)[k] == m
}

/// Some reader of `v` really uses it (see [`real_use`]).
pub open spec fn has_real_use(f: &Funcdata, v: VarnodeId, m: OpId, s: usize) -> bool {
    exists|k: int| 0 <= k < f.descend_of(v).len() && real_use(f, #[trigger] f.descend_of(v)[k], v, m, s)
}

/// Follow the value of `invn` forward through the ops that transform it; is it used only to
/// feed `opmatch` at slot `opslot`? It is not once it reaches a real use: a branch, LOAD or
/// STORE; a call where the value is no legitimate double use ([`check_call_double_use`]);
/// another RETURN slot; or a persistent output. `active_output` is whether return recovery is
/// in progress, `trial_addr` the candidate's storage.
fn only_op_use(
    f: &Funcdata,
    invn: VarnodeId,
    opmatch: OpId,
    opslot: usize,
    trial_addr: Address,
    main_flags: u32,
    active_output: bool,
) -> (r: bool)
    requires
        f.wf(),
        invn.0 < f.vns@.len(),
        opmatch.0 < f.ops@.len(),
    ensures
        has_real_use(f, invn, opmatch, opslot) ==> !r,
        sole_feed(f, invn, opmatch, opslot) ==> r,
{
    let n = f.vns.len();
    let mut marked: Vec<bool> = Vec::new();
    let mut k: usize = 0;
    while k < n
        invariant
            k <= n,
            marked@.len() == k,
            forall|j: int| 0 <= j < k ==> !marked@[j],
        decreases n - k,
    {
        marked.push(false);
        k += 1;
    }
    proof {
        lemma_count_true_all_false(marked@);
        lemma_count_true_set(marked@, invn.0 as int);
    }
    marked.set(invn.0, true);
    let mut varlist: Vec<(VarnodeId, u32)> = Vec::new();
    varlist.push((invn, main_flags));
    let mut res = true;
    let mut i: usize = 0;
    while i < varlist.len() && res
        invariant
            f.wf(),
            n == f.vns@.len(),
            marked@.len() == n,
            varlist@.len() == count_true(marked@),
            i <= varlist@.len(),
            forall|j: int| 0 <= j < varlist@.len() ==> (#[trigger] varlist@[j]).0.0 < n,
            opmatch.0 < f.ops@.len(),
            varlist@.len() > 0,
            varlist@[0].0 == invn,
            i >= 1 && res ==> !has_real_use(f, invn, opmatch, opslot),
            sole_feed(f, invn, opmatch, opslot) ==> res && varlist@.len() == 1,
        decreases n - i,
    {
        proof {
            lemma_count_true_bound(marked@);
        }
        let (vn, base_flags) = varlist[i];
        i += 1;
        let readers = f.descend(vn);
        let nops = f.ops.len();
        let mut q: usize = 0;
        while q < readers.len() && res
            invariant
                f.wf(),
                n == f.vns@.len(),
                marked@.len() == n,
                varlist@.len() == count_true(marked@),
                i <= varlist@.len(),
                forall|j: int| 0 <= j < varlist@.len() ==> (#[trigger] varlist@[j]).0.0 < n,
                opmatch.0 < f.ops@.len(),
                vn.0 < n,
                readers@ == f.descend_of(vn),
                nops == f.ops@.len(),
                varlist@.len() > 0,
                varlist@[0].0 == invn,
                i >= 2 && res ==> !has_real_use(f, invn, opmatch, opslot),
                i == 1 ==> vn == invn,
                i == 1 && res ==> forall|j: int| 0 <= j < q ==> !real_use(f, #[trigger] readers@[j], invn, opmatch, opslot),
                sole_feed(f, invn, opmatch, opslot) ==> res && varlist@.len() == 1 && i == 1,
            decreases readers@.len() - q,
        {
            let op = readers[q];
            proof {
                crate::funcdata::lemma_descend_len(f.ops@, vn, f.ops@.len() as int);
                crate::funcdata::lemma_descend_member(f.ops@, vn, f.ops@.len() as int, q as int);
                assert(op_wf(f.ops@[op.0 as int], f.vns@.len(), f.ops@.len(), f.blocks@.len()));
            }
            q += 1;
            if op == opmatch && f.op(op).input(opslot) == Some(vn) {
                continue;
            }
            let mut cur_flags = base_flags;
            let mut skip = false;
            match f.op(op).code() {
                OpCode::Branch | OpCode::Cbranch | OpCode::Branchind | OpCode::Load | OpCode::Store => {
                    res = false;
                },
                OpCode::Call | OpCode::Callind => {
                    if check_call_double_use(f, opmatch, op, vn, cur_flags, trial_addr) {
                        skip = true;
                    } else {
                        res = false;
                    }
                },
                OpCode::Indirect => {
                    cur_flags = cur_flags | TRAVERSE_INDIRECTALT;
                },
                OpCode::Copy => {
                    if let Some(out) = f.op(op).output {
                        if f.spaces.get(f.vn(out).loc.space).kind != SpaceKind::Internal {
                            cur_flags = cur_flags | TRAVERSE_ACTIONALT;
                        }
                    }
                },
                OpCode::Return => {
                    if f.op(opmatch).code() == OpCode::Return {
                        if f.op(op).input(opslot) == Some(vn) {
                            skip = true;
                        } else {
                            res = false;
                        }
                    } else if active_output && f.op(op).input(0) != Some(vn) && !is_alternate_path_valid(f, vn, cur_flags) {
                        skip = true;
                    } else {
                        res = false;
                    }
                },
                OpCode::Multiequal | OpCode::IntSext | OpCode::IntZext | OpCode::Cast => {},
                OpCode::Piece => {
                    if f.op(op).input(0) == Some(vn) {
                        if cur_flags & TRAVERSE_LSB_TRUNCATED != 0 {
                            skip = true;
                        } else {
                            cur_flags = cur_flags | TRAVERSE_CONCAT_HIGH;
                        }
                    }
                },
                OpCode::Subpiece => {
                    if let Some(c) = f.op(op).input(1) {
                        if f.vn(c).is_constant() && f.vn(c).loc.offset != 0 && cur_flags & TRAVERSE_CONCAT_HIGH == 0 {
                            cur_flags = cur_flags | TRAVERSE_LSB_TRUNCATED;
                        }
                    }
                },
                _ => {
                    cur_flags = cur_flags | TRAVERSE_ACTIONALT;
                },
            }
            if skip || !res {
                continue;
            }
            assert(!real_use(f, op, vn, opmatch, opslot));
            if let Some(subvn) = f.op(op).output {
                if f.vn(subvn).is_persist() {
                    res = false;
                } else if !marked[subvn.0] {
                    proof {
                        lemma_count_true_set(marked@, subvn.0 as int);
                    }
                    marked.set(subvn.0, true);
                    varlist.push((subvn, cur_flags));
                }
            }
        }
    }
    res
}

/// Every input of the MULTIEQUAL `d` is computed by an op and really used elsewhere than
/// input `s` of `m` (see [`has_real_use`]).
pub open spec fn inputs_really_used(f: &Funcdata, d: OpId, m: OpId, s: usize) -> bool {
    forall|k: int| 0 <= k < f.ops@[d.0 as int].inrefs@.len() ==> {
        let v = #[trigger] f.ops@[d.0 as int].inrefs@[k];
        f.vns@[v.0 as int].def matches Some(w) && computes(f.ops@[w.0 as int].opc) && has_real_use(f, v, m, s)
    }
}

/// An op whose output [`is_realistic`] takes as a real write without looking further: anything
/// but a COPY, SUBPIECE, zero or sign extension, MULTIEQUAL, PIECE or INDIRECT.
pub open spec fn plain_write(c: OpCode) -> bool {
    c != OpCode::Copy && c != OpCode::Subpiece && c != OpCode::IntZext && c != OpCode::IntSext && c != OpCode::Multiequal
        && c != OpCode::Piece && c != OpCode::Indirect
}

/// An op that computes a new value rather than moving or joining one: anything but INDIRECT,
/// MULTIEQUAL, COPY, PIECE, SUBPIECE and the calls.
pub open spec fn computes(c: OpCode) -> bool {
    c != OpCode::Indirect && c != OpCode::Multiequal && c != OpCode::Copy && c != OpCode::Piece && c
        != OpCode::Subpiece && c != OpCode::Call && c != OpCode::Callind
}

/// The byte offset of `inner` inside `outer` when it lies within it in the same space, else -1.
pub open spec fn overlap_bytes_spec(f: &Funcdata, inner: VarnodeId, outer: VarnodeId) -> int {
    let (a, b) = (f.vns@[inner.0 as int], f.vns@[outer.0 as int]);
    if a.loc.space == b.loc.space && a.loc.offset >= b.loc.offset && a.loc.offset + a.size <= b.loc.offset + b.size {
        a.loc.offset - b.loc.offset
    } else {
        -1
    }
}

fn overlap_bytes(f: &Funcdata, inner: VarnodeId, outer: VarnodeId) -> (r: i64)
    requires
        inner.0 < f.vns@.len(),
        outer.0 < f.vns@.len(),
    ensures
        r == overlap_bytes_spec(f, inner, outer),
{
    let (a, b) = (f.vn(inner), f.vn(outer));
    if a.loc.space != b.loc.space {
        return -1;
    }
    if a.loc.offset >= b.loc.offset && (a.loc.offset as u128 + a.size as u128) <= (b.loc.offset as u128 + b.size as u128) {
        return (a.loc.offset - b.loc.offset) as i64;
    }
    -1
}

} // verus!

verus! {

/// Is the trial value `invn` likely used only to feed `opmatch` at `opslot`? Walk back through
/// the ancestors that merely move or join values (INDIRECT carries, MULTIEQUAL joins, COPYs
/// within the internal space, the PIECE part holding byte `offset`, SUBPIECEs extracting from the
/// same storage), for at most `maxlevel` levels, and ask [`only_op_use`] at each top ancestor.
/// An unwritten value, an INDIRECT creation and a call's output never qualify. `mmark` marks the
/// MULTIEQUALs on the current path, cutting loops.
fn ancestor_op_use(
    f: &Funcdata,
    maxlevel: i32,
    invn: VarnodeId,
    opmatch: OpId,
    opslot: usize,
    offset: i64,
    main_flags: u32,
    trial_addr: Address,
    active_output: bool,
    mmark: &mut Vec<bool>,
) -> (r: bool)
    requires
        f.wf(),
        invn.0 < f.vns@.len(),
        opmatch.0 < f.ops@.len(),
        old(mmark)@.len() == f.ops@.len(),
        maxlevel >= 0,
    ensures
        final(mmark)@.len() == f.ops@.len(),
        r ==> f.vns@[invn.0 as int].def is Some && maxlevel > 0,
        f.vns@[invn.0 as int].def matches Some(d) && computes(f.ops@[d.0 as int].opc) && has_real_use(f, invn, opmatch, opslot)
            ==> !r,
        f.vns@[invn.0 as int].def matches Some(d) && computes(f.ops@[d.0 as int].opc) && maxlevel > 0 && sole_feed(f, invn, opmatch, opslot)
            ==> r,
        f.vns@[invn.0 as int].def matches Some(d) && (f.ops@[d.0 as int].opc == OpCode::Call || f.ops@[d.0 as int].opc == OpCode::Callind)
            ==> !r,
        f.vns@[invn.0 as int].def matches Some(d) && f.ops@[d.0 as int].opc == OpCode::Multiequal && inputs_really_used(f, d, opmatch, opslot)
            ==> !r,
    decreases maxlevel,
{
    if maxlevel == 0 {
        return false;
    }
    let v = f.vn(invn);
    if !v.is_written() {
        return false;
    }
    proof {
        assert(vn_wf(f.vns@[invn.0 as int], f.ops@.len()));
    }
    let def = v.def.unwrap();
    proof {
        assert(op_wf(f.ops@[def.0 as int], f.vns@.len(), f.ops@.len(), f.blocks@.len()));
    }
    let o = f.op(def);
    match o.code() {
        OpCode::Indirect => {
            if v.is_indirect_creation() {
                return false;
            }
            match o.input(0) {
                Some(i) => ancestor_op_use(
                    f,
                    maxlevel - 1,
                    i,
                    opmatch,
                    opslot,
                    offset,
                    main_flags | TRAVERSE_INDIRECT,
                    trial_addr,
                    active_output,
                    mmark,
                ),
                None => false,
            }
        },
        OpCode::Multiequal => {
            if mmark[def.0] {
                return false;
            }
            mmark.set(def.0, true);
            let mut r = false;
            let mut k: usize = 0;
            while k < o.inrefs.len() && !r
                invariant
                    k <= o.inrefs@.len(),
                    *o == f.ops@[def.0 as int],
                    op_wf(*o, f.vns@.len(), f.ops@.len(), f.blocks@.len()),
                    mmark@.len() == f.ops@.len(),
                    def.0 < f.ops@.len(),
                    f.wf(),
                    opmatch.0 < f.ops@.len(),
                    maxlevel > 0,
                    inputs_really_used(f, def, opmatch, opslot) ==> !r,
                decreases o.inrefs@.len() - k,
            {
                proof {
                    assert(f.ops@[def.0 as int].inrefs@[k as int] == o.inrefs@[k as int]);
                }
                if ancestor_op_use(f, maxlevel - 1, o.inrefs[k], opmatch, opslot, offset, main_flags, trial_addr, active_output, mmark) {
                    r = true;
                }
                k += 1;
            }
            mmark.set(def.0, false);
            r
        },
        OpCode::Copy => {
            let internal = f.spaces.get(v.loc.space).kind == SpaceKind::Internal;
            if internal {
                return match o.input(0) {
                    Some(i) => ancestor_op_use(f, maxlevel - 1, i, opmatch, opslot, offset, main_flags, trial_addr, active_output, mmark),
                    None => false,
                };
            }
            only_op_use(f, invn, opmatch, opslot, trial_addr, main_flags, active_output)
        },
        OpCode::Piece => {
            let hi = o.input(0);
            let lo = o.input(1);
            if offset == 0 {
                return match lo {
                    Some(l) => ancestor_op_use(f, maxlevel - 1, l, opmatch, opslot, 0, main_flags, trial_addr, active_output, mmark),
                    None => false,
                };
            }
            let lo_size: i64 = match lo {
                Some(l) => f.vn(l).size as i64,
                None => 0,
            };
            if offset == lo_size {
                return match hi {
                    Some(h) => ancestor_op_use(f, maxlevel - 1, h, opmatch, opslot, 0, main_flags, trial_addr, active_output, mmark),
                    None => false,
                };
            }
            false
        },
        OpCode::Subpiece => {
            let in0 = o.input(0);
            let new_off: i64 = match o.input(1) {
                Some(c) => #[verifier::truncate] (f.vn(c).loc.offset as i64),
                None => 0,
            };
            let internal = f.spaces.get(v.loc.space).kind == SpaceKind::Internal;
            let overlap: i64 = match in0 {
                Some(i) => overlap_bytes(f, invn, i),
                None => -1,
            };
            if internal || overlap == new_off {
                return match in0 {
                    Some(i) => ancestor_op_use(
                        f,
                        maxlevel - 1,
                        i,
                        opmatch,
                        opslot,
                        offset.wrapping_add(new_off),
                        main_flags,
                        trial_addr,
                        active_output,
                        mmark,
                    ),
                    None => false,
                };
            }
            only_op_use(f, invn, opmatch, opslot, trial_addr, main_flags, active_output)
        },
        OpCode::Call | OpCode::Callind => false,
        _ => only_op_use(f, invn, opmatch, opslot, trial_addr, main_flags, active_output),
    }
}

/// Is the candidate at input `slot` of the RETURN `ret` a real return value? It is when the
/// value is not itself a function input, traces back to a real write ([`is_realistic`]), and is
/// used only to feed this RETURN ([`ancestor_op_use`]).
pub fn return_trial_kept(f: &Funcdata, ret: OpId, slot: usize) -> (r: bool)
    requires
        f.wf(),
        ret.0 < f.ops@.len(),
    ensures
        r ==> slot < f.ops@[ret.0 as int].inrefs@.len() && !f.vns@[f.ops@[ret.0 as int].inrefs@[slot as int].0 as int].input
            && f.vns@[f.ops@[ret.0 as int].inrefs@[slot as int].0 as int].def is Some,
        slot < f.ops@[ret.0 as int].inrefs@.len() && ({
            let v = f.ops@[ret.0 as int].inrefs@[slot as int];
            &&& !f.vns@[v.0 as int].input && !f.vns@[v.0 as int].constant
            &&& f.vns@[v.0 as int].def matches Some(d) && computes(f.ops@[d.0 as int].opc) && plain_write(f.ops@[d.0 as int].opc)
            &&& sole_feed(f, v, ret, slot)
        }) ==> r,
        slot < f.ops@[ret.0 as int].inrefs@.len() && ({
            let v = f.ops@[ret.0 as int].inrefs@[slot as int];
            f.vns@[v.0 as int].def matches Some(d) && f.ops@[d.0 as int].opc == OpCode::Multiequal && inputs_really_used(f, d, ret, slot)
        }) ==> !r,
        slot < f.ops@[ret.0 as int].inrefs@.len() && ({
            let v = f.ops@[ret.0 as int].inrefs@[slot as int];
            f.vns@[v.0 as int].def matches Some(d) && computes(f.ops@[d.0 as int].opc) && has_real_use(f, v, ret, slot)
        }) ==> !r,
{
    proof {
        assert(op_wf(f.ops@[ret.0 as int], f.vns@.len(), f.ops@.len(), f.blocks@.len()));
    }
    let v = match f.op(ret).input(slot) {
        Some(v) => v,
        None => return false,
    };
    if f.vn(v).is_input() {
        return false;
    }
    let n = f.vns.len();
    let mut seen: Vec<bool> = Vec::new();
    let mut k: usize = 0;
    while k < n
        invariant
            k <= n,
            seen@.len() == k,
            forall|j: int| 0 <= j < k ==> !(#[trigger] seen@[j]),
        decreases n - k,
    {
        seen.push(false);
        k += 1;
    }
    let fuel = if n < usize::MAX { n + 1 } else { n };
    if !is_realistic(f, v, &mut seen, fuel) {
        return false;
    }
    let addr = f.vn(v).loc;
    let m = f.ops.len();
    let mut mmark: Vec<bool> = Vec::new();
    let mut k: usize = 0;
    while k < m
        invariant
            k <= m,
            mmark@.len() == k,
        decreases m - k,
    {
        mmark.push(false);
        k += 1;
    }
    ancestor_op_use(f, TRIM_RECURSE_MAX, v, ret, slot, 0, 0, addr, true, &mut mmark)
}

} // verus!

verus! {

/// When `vn1` and `vn2` are each read only by one and the same PIECE, that PIECE's output: the
/// whole they were already joined into.
pub open spec fn preexisting_whole_spec(f: &Funcdata, vn1: VarnodeId, vn2: VarnodeId) -> Option<VarnodeId> {
    match lone_descend_spec(f.ops@, vn1) {
        Some(o1) => match lone_descend_spec(f.ops@, vn2) {
            Some(o2) => if o1 == o2 && f.ops@[o1.0 as int].opc == OpCode::Piece {
                f.ops@[o1.0 as int].output
            } else {
                None
            },
            None => None,
        },
        None => None,
    }
}

/// The whole `vn1` and `vn2` were already joined into (see [`preexisting_whole_spec`]).
pub fn find_preexisting_whole(f: &Funcdata, vn1: VarnodeId, vn2: VarnodeId) -> (r: Option<VarnodeId>)
    requires
        f.wf(),
    ensures
        r == preexisting_whole_spec(f, vn1, vn2),
        r matches Some(w) ==> w.0 < f.vns@.len(),
{
    let op1 = match f.lone_descend(vn1) {
        Some(o) => o,
        None => return None,
    };
    let op2 = match f.lone_descend(vn2) {
        Some(o) => o,
        None => return None,
    };
    let _n = f.num_ops();
    proof {
        crate::funcdata::lemma_descend_len(f.ops@, vn1, f.ops@.len() as int);
        crate::funcdata::lemma_descend_member(f.ops@, vn1, f.ops@.len() as int, 0);
    }
    if op1 != op2 || f.op(op1).code() != OpCode::Piece {
        return None;
    }
    proof {
        assert(op_wf(f.ops@[op1.0 as int], f.vns@.len(), f.ops@.len(), f.blocks@.len()));
    }
    f.op(op1).output
}

/// A trial after it was rechecked with no failing path allowed: still active (and realistic),
/// or definitely unused; its storage and slot unchanged.
pub open spec fn rechecked(old_t: ParamTrial, new_t: ParamTrial) -> bool {
    &&& new_t.addr == old_t.addr
    &&& new_t.size == old_t.size
    &&& new_t.op_slot == old_t.op_slot
    &&& (new_t.active && new_t.ancestor_realistic) || (new_t.checked && !new_t.active && !new_t.used)
}

/// The trials of call `call` that were found active only thanks to conditional execution are
/// walked again now that the control flow has settled, this time allowing no failing path; one
/// that no longer passes is marked definitely unused. Other trials, and the rest of the
/// function, are unchanged.
pub fn final_input_check(f: &mut Funcdata, call: OpId)
    requires
        old(f).wf(),
        call.0 < old(f).ops@.len(),
    ensures
        final(f).wf(),
        match old(f).active_input_spec(call) {
            None => *final(f) == *old(f),
            Some(a) => {
                &&& *final(f) == (Funcdata { active_inputs: final(f).active_inputs, ..*old(f) })
                &&& final(f).active_input_spec(call) matches Some(b) && b.register_space == a.register_space
                    && b.trial@.len() == a.trial@.len() && forall|i: int|
                    0 <= i < a.trial@.len() ==> if a.trial@[i].active && a.trial@[i].cond_exe_effect {
                        rechecked(a.trial@[i], #[trigger] b.trial@[i])
                    } else {
                        b.trial@[i] == a.trial@[i]
                    }
            },
        },
{
    let a = match f.active_input(call) {
        Some(a) => a,
        None => return,
    };
    let ghost a0 = *a;
    let mut trials: Vec<ParamTrial> = Vec::new();
    let mut k: usize = 0;
    while k < a.trial.len()
        invariant
            k <= a.trial@.len(),
            trials@ == a.trial@.take(k as int),
        decreases a.trial@.len() - k,
    {
        trials.push(a.trial[k]);
        k += 1;
        assert(trials@ =~= a.trial@.take(k as int));
    }
    assert(trials@ =~= a0.trial@);
    let register_space = a.register_space;
    let numpasses = a.numpasses;
    let maxpass = a.maxpass;
    let fully_checked = a.fully_checked;
    let needs_final_check = a.needs_final_check;
    let mut walker = AncestorRealistic::new();
    let mut i: usize = 0;
    while i < trials.len()
        invariant
            f.wf(),
            call.0 < f.ops@.len(),
            trials@.len() == a0.trial@.len(),
            i <= trials@.len(),
            forall|j: int| i <= j < trials@.len() ==> #[trigger] trials@[j] == a0.trial@[j],
            forall|j: int|
                0 <= j < i ==> if a0.trial@[j].active && a0.trial@[j].cond_exe_effect {
                    rechecked(a0.trial@[j], #[trigger] trials@[j])
                } else {
                    trials@[j] == a0.trial@[j]
                },
        decreases trials@.len() - i,
    {
        let mut t = trials[i];
        if t.is_active() && t.cond_exe_effect {
            let slot = t.op_slot as usize;
            let ok = walker.execute(f, call, slot, &mut t, false);
            if !ok {
                t.mark_no_use();
            }
            trials.set(i, t);
        }
        i += 1;
    }
    let b = ParamActive { trial: trials, register_space, numpasses, maxpass, fully_checked, needs_final_check };
    f.set_active_input(call, b);
}


/// Whether `x` is in `list`.
fn contains_op(list: &Vec<OpId>, x: OpId) -> (r: bool)
    ensures
        r == list@.contains(x),
{
    let mut k: usize = 0;
    while k < list.len()
        invariant
            k <= list@.len(),
            forall|j: int| 0 <= j < k ==> list@[j] != x,
        decreases list@.len() - k,
    {
        if list[k] == x {
            return true;
        }
        k += 1;
    }
    false
}

/// Block `bid` without the ops in `remove`.
fn drop_from_block(f: &mut Funcdata, bid: crate::funcdata::BlockId, remove: &Vec<OpId>)
    requires
        old(f).wf(),
        bid.0 < old(f).blocks@.len(),
    ensures
        final(f).wf(),
        final(f).same_meta(old(f)),
        final(f).ops == old(f).ops,
        final(f).vns == old(f).vns,
        forall|k: int| 0 <= k < remove@.len() ==> !final(f).blocks@[bid.0 as int].ops@.contains(#[trigger] remove@[k]),
{
    let cur = f.block_ops(bid);
    proof {
        assert(crate::funcdata::block_wf(f.blocks@[bid.0 as int], f.ops@.len(), f.blocks@.len()));
    }
    let mut kept: Vec<OpId> = Vec::new();
    let mut k: usize = 0;
    while k < cur.len()
        invariant
            k <= cur@.len(),
            cur@ == f.blocks@[bid.0 as int].ops@,
            forall|j: int| 0 <= j < cur@.len() ==> (#[trigger] cur@[j]).0 < f.ops@.len(),
            forall|j: int| 0 <= j < kept@.len() ==> (#[trigger] kept@[j]).0 < f.ops@.len() && !remove@.contains(kept@[j]),
        decreases cur@.len() - k,
    {
        let o = cur[k];
        if !contains_op(remove, o) {
            kept.push(o);
        }
        k += 1;
    }
    f.set_block_ops(bid, kept);
    proof {
        assert forall|k: int| 0 <= k < remove@.len() implies !f.blocks@[bid.0 as int].ops@.contains(#[trigger] remove@[k]) by {
            if f.blocks@[bid.0 as int].ops@.contains(remove@[k]) {
                let j = choose|j: int| 0 <= j < f.blocks@[bid.0 as int].ops@.len() && f.blocks@[bid.0 as int].ops@[j] == remove@[k];
                assert(!remove@.contains(f.blocks@[bid.0 as int].ops@[j]));
            }
        }
    }
}

/// Make the used trials of a call its output, removing the INDIRECTs that held them. `used`
/// holds, least significant first, each used trial's storage, the INDIRECT holding its value
/// at the call, and that value. One trial: its value becomes the call's output and its
/// INDIRECT is destroyed. Two trials already joined by a PIECE (see
/// [`preexisting_whole_spec`]): that whole becomes the call's output, and the PIECE and both
/// INDIRECTs are destroyed. The destroyed ops also leave block `bid`. Otherwise nothing changes.
pub fn build_call_output_from_trials(
    f: &mut Funcdata,
    call: OpId,
    bid: crate::funcdata::BlockId,
    used: &[(Address, OpId, VarnodeId)],
)
    requires
        old(f).wf(),
        call.0 < old(f).ops@.len(),
        bid.0 < old(f).blocks@.len(),
        forall|k: int| 0 <= k < used@.len() ==> (#[trigger] used@[k]).1.0 < old(f).ops@.len() && used@[k].2.0 < old(f).vns@.len(),
    ensures
        final(f).wf(),
        final(f).same_meta(old(f)),
        used@.len() == 1 ==> {
            &&& final(f).ops@[used@[0].1.0 as int].dead
            &&& !final(f).blocks@[bid.0 as int].ops@.contains(used@[0].1)
            &&& used@[0].1 != call ==> final(f).ops@[call.0 as int].output == Some(used@[0].2)
        },
        used@.len() == 2 && preexisting_whole_spec(old(f), used@[1].2, used@[0].2) is Some ==> {
            let w = preexisting_whole_spec(old(f), used@[1].2, used@[0].2).unwrap();
            let p = old(f).vns@[w.0 as int].def;
            &&& final(f).ops@[used@[0].1.0 as int].dead
            &&& final(f).ops@[used@[1].1.0 as int].dead
            &&& !final(f).blocks@[bid.0 as int].ops@.contains(used@[0].1)
            &&& !final(f).blocks@[bid.0 as int].ops@.contains(used@[1].1)
            &&& (p matches Some(pp) ==> final(f).ops@[pp.0 as int].dead && !final(f).blocks@[bid.0 as int].ops@.contains(pp))
            &&& (used@[0].1 != call && used@[1].1 != call && p != Some(call) ==> final(f).ops@[call.0 as int].output == Some(w))
        },
        used@.len() != 1 && (used@.len() != 2 || preexisting_whole_spec(old(f), used@[1].2, used@[0].2) is None) ==> *final(f)
            == *old(f),
{
    let mut remove: Vec<OpId> = Vec::new();
    if used.len() == 1 {
        let (_, indop, outvn) = used[0];
        f.op_set_output(call, outvn);
        let ghost g = *f;
        f.op_destroy(indop);
        proof {
            if indop != call {
                assert(f.ops@[call.0 as int] == g.ops@[call.0 as int]);
            }
        }
        remove.push(indop);
        let ghost before = *f;
        drop_from_block(f, bid, &remove);
        proof {
            assert(f.ops == before.ops);
            assert(remove@[0] == indop);
        }
    } else if used.len() == 2 {
        let (_, lo_ind, lovn) = used[0];
        let (_, hi_ind, hivn) = used[1];
        let whole = match find_preexisting_whole(f, hivn, lovn) {
            Some(w) => w,
            None => return,
        };
        let piece_def = f.vn(whole).def;
        proof {
            assert(vn_wf(f.vns@[whole.0 as int], f.ops@.len()));
        }
        f.op_set_output(call, whole);
        let ghost g0 = *f;
        if let Some(p) = piece_def {
            f.op_destroy(p);
            remove.push(p);
        }
        let ghost g1 = *f;
        f.op_destroy(hi_ind);
        let ghost g2 = *f;
        f.op_destroy(lo_ind);
        remove.push(hi_ind);
        remove.push(lo_ind);
        proof {
            if let Some(p) = piece_def {
                assert(g2.ops@[p.0 as int].dead) by {
                    if p != hi_ind {
                        assert(g2.ops@[p.0 as int] == g1.ops@[p.0 as int]);
                    }
                }
                assert(f.ops@[p.0 as int].dead) by {
                    if p != lo_ind {
                        assert(f.ops@[p.0 as int] == g2.ops@[p.0 as int]);
                    }
                }
            }
            assert(f.ops@[hi_ind.0 as int].dead) by {
                if hi_ind != lo_ind {
                    assert(f.ops@[hi_ind.0 as int] == g2.ops@[hi_ind.0 as int]);
                }
            }
            if hi_ind != call && lo_ind != call && piece_def != Some(call) {
                assert(g1.ops@[call.0 as int] == g0.ops@[call.0 as int]);
                assert(f.ops@[call.0 as int] == g0.ops@[call.0 as int]);
            }
        }
        let ghost before = *f;
        let ghost n = remove@.len();
        drop_from_block(f, bid, &remove);
        proof {
            assert(f.ops == before.ops);
            assert(remove@[n - 2] == hi_ind);
            assert(remove@[n - 1] == lo_ind);
            if let Some(p) = piece_def {
                assert(remove@[0] == p);
            }
        }
    }
}


/// The live RETURN ops among the first `n` ops, in op order.
pub open spec fn returns_upto(f: &Funcdata, n: int) -> Seq<OpId>
    decreases n,
{
    if n <= 0 {
        Seq::empty()
    } else {
        let o = f.ops@[n - 1];
        returns_upto(f, n - 1) + if !o.dead && o.opc == OpCode::Return {
            seq![OpId((n - 1) as usize)]
        } else {
            Seq::empty()
        }
    }
}

/// The live RETURN ops of the function, in op order.
pub open spec fn live_returns_spec(f: &Funcdata) -> Seq<OpId> {
    returns_upto(f, f.ops@.len() as int)
}

proof fn lemma_returns_upto(f: &Funcdata, n: int, k: int)
    requires
        0 <= k < returns_upto(f, n).len(),
        n <= f.ops@.len(),
        f.ops@.len() <= usize::MAX,
    ensures
        0 <= returns_upto(f, n)[k].0 < n,
        !f.ops@[returns_upto(f, n)[k].0 as int].dead,
        f.ops@[returns_upto(f, n)[k].0 as int].opc == OpCode::Return,
        forall|j: int| 0 <= j < k ==> returns_upto(f, n)[j].0 < returns_upto(f, n)[k].0,
    decreases n,
{
    if n > 0 {
        let prev = returns_upto(f, n - 1);
        if k < prev.len() {
            lemma_returns_upto(f, n - 1, k);
            assert forall|j: int| 0 <= j < k implies returns_upto(f, n)[j].0 < returns_upto(f, n)[k].0 by {
                lemma_returns_upto(f, n - 1, j);
                lemma_returns_upto(f, n - 1, k);
            }
        } else {
            assert forall|j: int| 0 <= j < k implies returns_upto(f, n)[j].0 < returns_upto(f, n)[k].0 by {
                lemma_returns_upto(f, n - 1, j);
            }
        }
    }
}

/// The live RETURN ops of the function, in op order.
fn live_returns(f: &Funcdata) -> (r: Vec<OpId>)
    ensures
        r@ == live_returns_spec(f),
{
    let mut res: Vec<OpId> = Vec::new();
    let mut i: usize = 0;
    while i < f.ops.len()
        invariant
            i <= f.ops@.len(),
            res@ == returns_upto(f, i as int),
        decreases f.ops@.len() - i,
    {
        let o = f.op(OpId(i));
        if !o.is_dead() && o.code() == OpCode::Return {
            res.push(OpId(i));
        }
        i += 1;
        assert(res@ =~= returns_upto(f, i as int));
    }
    res
}

/// How many of the trials are not yet checked.
pub open spec fn count_unchecked(s: Seq<ParamTrial>) -> nat
    decreases s.len(),
{
    if s.len() == 0 {
        0
    } else {
        count_unchecked(s.drop_last()) + if s.last().checked { 0nat } else { 1nat }
    }
}

proof fn lemma_count_unchecked_bound(s: Seq<ParamTrial>)
    ensures
        count_unchecked(s) <= s.len(),
    decreases s.len(),
{
    if s.len() > 0 {
        lemma_count_unchecked_bound(s.drop_last());
    }
}

/// The trial is the 4-byte return register that every return path is known to write.
pub open spec fn forced_return(f: &Funcdata, t: ParamTrial) -> bool {
    &&& f.tail_return_write
    &&& space_named(f.spaces@, "register"@) == Some(t.addr.space)
    &&& t.addr.offset == 0
    &&& t.size == 4
}

/// A trial after one pass of return recovery: a checked one is unchanged; an unchecked one is
/// unchanged or marked active, marked active when forced; marked active only when forced or when
/// some live RETURN holds, in the trial's slot, a written value that is not a function input.
pub open spec fn output_pass(f: &Funcdata, t: ParamTrial, n: ParamTrial) -> bool {
    let marked = ParamTrial { checked: true, active: true, ..t };
    &&& t.checked ==> n == t
    &&& !t.checked ==> n == t || n == marked
    &&& !t.checked && forced_return(f, t) ==> n == marked
    &&& n != t ==> forced_return(f, t) || exists|j: int|
        0 <= j < live_returns_spec(f).len() && ({
            let ret = #[trigger] live_returns_spec(f)[j];
            let o = f.ops@[ret.0 as int];
            &&& t.op_slot < o.inrefs@.len()
            &&& !f.vns@[o.inrefs@[t.op_slot as int].0 as int].input
            &&& f.vns@[o.inrefs@[t.op_slot as int].0 as int].def is Some
        })
}

/// One pass of return recovery over the open output trials: each unchecked trial is marked
/// active when some live RETURN keeps it ([`return_trial_kept`]) or it is forced (see
/// [`forced_return`]); then the pass is counted, and once the passes exceed the limit every
/// trial counts as decided. Returns how many trials were evaluated (the unchecked ones).
/// Nothing happens when no return recovery is open.
pub fn check_output_trial_use(f: &mut Funcdata) -> (r: u32)
    requires
        old(f).wf(),
    ensures
        final(f).wf(),
        match old(f).active_output {
            None => *final(f) == *old(f) && r == 0,
            Some(a) => {
                &&& *final(f) == (Funcdata { active_output: final(f).active_output, ..*old(f) })
                &&& final(f).active_output matches Some(b) && {
                    &&& b.register_space == a.register_space
                    &&& b.maxpass == a.maxpass
                    &&& b.numpasses == a.numpasses.wrapping_add(1)
                    &&& b.fully_checked == (a.fully_checked || b.numpasses > b.maxpass)
                    &&& b.trial@.len() == a.trial@.len()
                    &&& forall|i: int| 0 <= i < a.trial@.len() ==> output_pass(old(f), a.trial@[i], #[trigger] b.trial@[i])
                }
                &&& a.trial@.len() <= u32::MAX ==> r == count_unchecked(a.trial@)
            },
        },
{
    let rets = live_returns(f);
    let a = match &f.active_output {
        None => return 0,
        Some(a) => a,
    };
    let ghost a0 = *a;
    let reg = f.spaces.by_name("register");
    let n = a.trial.len();
    let mut trials: Vec<ParamTrial> = Vec::new();
    let mut count: u32 = 0;
    let mut ti: usize = 0;
    while ti < n
        invariant
            f.wf(),
            n == a0.trial@.len(),
            a0 == *a,
            f.active_output == Some(a0),
            rets@ == live_returns_spec(f),
            reg == space_named(f.spaces@, "register"@),
            ti <= n,
            trials@.len() == ti,
            forall|j: int| 0 <= j < ti ==> output_pass(f, a0.trial@[j], #[trigger] trials@[j]),
            ti <= u32::MAX ==> count == count_unchecked(a0.trial@.take(ti as int)),
        decreases n - ti,
    {
        let t = a.trial[ti];
        proof {
            assert(a0.trial@.take(ti + 1).drop_last() =~= a0.trial@.take(ti as int));
            lemma_count_unchecked_bound(a0.trial@.take(ti as int));
        }
        if t.checked {
            trials.push(t);
        } else {
            count = count.wrapping_add(1);
            let forced = f.tail_return_write && reg == Some(t.addr.space) && t.addr.offset == 0 && t.size == 4;
            let mut kept = forced;
            let mut j: usize = 0;
            while j < rets.len() && !kept
                invariant
                    f.wf(),
                    rets@ == live_returns_spec(f),
                    j <= rets@.len(),
                    forced == forced_return(f, t),
                    forced ==> kept,
                    kept ==> forced || exists|q: int|
                        0 <= q < live_returns_spec(f).len() && ({
                            let ret = #[trigger] live_returns_spec(f)[q];
                            let o = f.ops@[ret.0 as int];
                            &&& t.op_slot < o.inrefs@.len()
                            &&& !f.vns@[o.inrefs@[t.op_slot as int].0 as int].input
                            &&& f.vns@[o.inrefs@[t.op_slot as int].0 as int].def is Some
                        }),
                decreases rets@.len() - j,
            {
                let ret = rets[j];
                proof {
                    let _ = f.ops@.len();
                }
                let nops = f.ops.len();
                proof {
                    lemma_returns_upto(f, nops as int, j as int);
                }
                if return_trial_kept(f, ret, t.op_slot as usize) {
                    kept = true;
                    assert(live_returns_spec(f)[j as int] == ret);
                }
                j += 1;
            }
            if kept {
                let mut m = t;
                m.mark_active();
                trials.push(m);
            } else {
                trials.push(t);
            }
        }
        ti += 1;
    }
    proof {
        assert(a0.trial@.take(n as int) =~= a0.trial@);
    }
    let mut b = ParamActive {
        trial: trials,
        register_space: a.register_space,
        numpasses: a.numpasses,
        maxpass: a.maxpass,
        fully_checked: a.fully_checked,
        needs_final_check: a.needs_final_check,
    };
    b.finish_pass();
    if b.numpasses > b.maxpass {
        b.mark_fully_checked();
    }
    f.active_output = Some(b);
    count
}


/// The trial is the piece of a value: used, and in a slot a RETURN of `n` inputs has.
pub open spec fn is_piece(t: ParamTrial, n: nat) -> bool {
    t.used && t.op_slot < n
}

/// How many of the leading trials are pieces for a RETURN of `n` inputs.
pub open spec fn piece_count(ts: Seq<ParamTrial>, n: nat) -> nat
    decreases ts.len(),
{
    if ts.len() == 0 || !is_piece(ts[0], n) {
        0
    } else {
        1 + piece_count(ts.drop_first(), n)
    }
}

proof fn lemma_piece_count(ts: Seq<ParamTrial>, n: nat, k: int)
    requires
        0 <= k <= ts.len(),
        forall|j: int| 0 <= j < k ==> is_piece(#[trigger] ts[j], n),
        k == ts.len() || !is_piece(ts[k], n),
    ensures
        piece_count(ts, n) == k,
    decreases k,
{
    if k > 0 {
        let rest = ts.drop_first();
        assert forall|j: int| 0 <= j < k - 1 implies is_piece(#[trigger] rest[j], n) by {
            assert(rest[j] == ts[j + 1]);
        }
        if k < ts.len() {
            assert(rest[k - 1] == ts[k]);
        }
        lemma_piece_count(rest, n, k - 1);
    }
}

/// Piece `b` starts right where piece `a` ends, in the same space.
pub open spec fn contiguous(a: ParamTrial, b: ParamTrial) -> bool {
    a.addr.space == b.addr.space && a.addr.offset.wrapping_add(a.size as u64) == b.addr.offset
}

/// `b` differs from `a` only in op `ret`, and in ops and varnodes it adds.
pub open spec fn touches_only(a: &Funcdata, b: &Funcdata, ret: OpId) -> bool {
    &&& b.wf()
    &&& b.same_meta(a)
    &&& a.ops@.len() <= b.ops@.len()
    &&& a.vns@.len() <= b.vns@.len()
    &&& forall|i: int| 0 <= i < a.ops@.len() && i != ret.0 ==> #[trigger] b.ops@[i] == a.ops@[i]
    &&& forall|i: int| 0 <= i < a.vns@.len() ==> #[trigger] b.vns@[i] == a.vns@[i]
}

proof fn lemma_touches_trans(a: &Funcdata, b: &Funcdata, c: &Funcdata, ret: OpId)
    requires
        touches_only(a, b, ret),
        touches_only(b, c, ret),
    ensures
        touches_only(a, c, ret),
{
    assert forall|i: int| 0 <= i < a.ops@.len() && i != ret.0 implies #[trigger] c.ops@[i] == a.ops@[i] by {
        assert(b.ops@[i] == a.ops@[i]);
    }
    assert forall|i: int| 0 <= i < a.vns@.len() implies #[trigger] c.vns@[i] == a.vns@[i] by {
        assert(b.vns@[i] == a.vns@[i]);
    }
}

/// `v` is a varnode new in `b`, written by a PIECE op new in `b`.
pub open spec fn new_join(a: &Funcdata, b: &Funcdata, v: VarnodeId) -> bool {
    &&& a.vns@.len() <= v.0 < b.vns@.len()
    &&& b.vns@[v.0 as int].def matches Some(d) && a.ops@.len() <= d.0 < b.ops@.len() && b.ops@[d.0 as int].opc
        == OpCode::Piece
}

/// The RETURN `ret` of `a` rebuilt in `b` from the used trials `ts`: with no inputs it is
/// unchanged; otherwise it keeps its first input (the return address) and, when some trial is
/// a piece of it (see [`piece_count`]), one value: the first piece's value when it is the only
/// piece or the next piece does not continue it; a new PIECE joining the pieces when the second
/// continues the first (in a known space); in any case either the first piece's value or a new
/// join.
pub open spec fn return_rebuilt(a: &Funcdata, b: &Funcdata, ret: OpId, ts: Seq<ParamTrial>) -> bool {
    let ins = a.ops@[ret.0 as int].inrefs@;
    let n = ins.len();
    let pc = piece_count(ts, n);
    let nins = b.ops@[ret.0 as int].inrefs@;
    if n == 0 {
        nins == ins
    } else if pc == 0 {
        nins == seq![ins[0]]
    } else {
        let first = ins[ts[0].op_slot as int];
        &&& nins.len() == 2
        &&& nins[0] == ins[0]
        &&& pc == 1 ==> nins[1] == first
        &&& pc >= 2 && !contiguous(ts[0], ts[1]) ==> nins[1] == first
        &&& pc >= 2 && contiguous(ts[0], ts[1]) && ts[0].addr.space.0 < a.spaces@.len() ==> new_join(a, b, nins[1])
        &&& nins[1] == first || new_join(a, b, nins[1])
    }
}

/// A new `PIECE(hi, lo)` before `ret`, its output of `size` bytes at `addr` marked as needing no
/// heritage.
fn join_before(f: &mut Funcdata, ret: OpId, hi: VarnodeId, lo: VarnodeId, size: u32, addr: Address) -> (r: VarnodeId)
    requires
        old(f).wf(),
        ret.0 < old(f).ops@.len(),
        hi.0 < old(f).vns@.len(),
        lo.0 < old(f).vns@.len(),
        addr.space.0 < old(f).spaces@.len(),
    ensures
        touches_only(old(f), final(f), ret),
        final(f).ops@[ret.0 as int] == old(f).ops@[ret.0 as int],
        new_join(old(f), final(f), r),
{
    let seq = f.op(ret).seqnum;
    let mut ins: Vec<VarnodeId> = Vec::new();
    ins.push(hi);
    ins.push(lo);
    let newop = f.new_op(OpCode::Piece, seq, ins);
    let whole = f.new_output(newop, size, addr);
    f.vn_set_write_mask(whole);
    f.op_insert_before(newop, ret);
    whole
}

/// Rebuild the RETURN `ret` from the used trials `ts` (see [`return_rebuilt`]).
fn rebuild_return(f: &mut Funcdata, ret: OpId, ts: &Vec<ParamTrial>)
    requires
        old(f).wf(),
        ret.0 < old(f).ops@.len(),
    ensures
        touches_only(old(f), final(f), ret),
        return_rebuilt(old(f), final(f), ret, ts@),
{
    let ghost f0 = *f;
    let n = f.op(ret).num_inputs();
    let ghost ins = f.ops@[ret.0 as int].inrefs@;
    proof {
        assert(op_wf(f.ops@[ret.0 as int], f.vns@.len(), f.ops@.len(), f.blocks@.len()));
    }
    let mut pieces: Vec<(VarnodeId, Address, u32)> = Vec::new();
    let mut k: usize = 0;
    while k < ts.len() && ts[k].used && (ts[k].op_slot as usize) < n
        invariant
            k <= ts@.len(),
            n == ins.len(),
            ret.0 < f0.ops@.len(),
            *f == f0,
            ins == f0.ops@[ret.0 as int].inrefs@,
            pieces@.len() == k,
            forall|j: int| 0 <= j < k ==> is_piece(#[trigger] ts@[j], n as nat),
            forall|j: int|
                0 <= j < k ==> #[trigger] pieces@[j] == (ins[ts@[j].op_slot as int], ts@[j].addr, ts@[j].size),
        decreases ts@.len() - k,
    {
        let t = ts[k];
        pieces.push((f.op(ret).inrefs[t.op_slot as usize], t.addr, t.size));
        k += 1;
    }
    proof {
        lemma_piece_count(ts@, n as nat, k as int);
    }
    let value: Option<VarnodeId> = if pieces.len() == 0 {
        None
    } else if pieces.len() == 1 {
        Some(pieces[0].0)
    } else {
        let (lovn, lo_a, lo_s) = pieces[0];
        let mut preexist = lovn;
        let mut cur_s = lo_s;
        let mut j: usize = 1;
        let ghost g0 = *f;
        proof {
            lemma_touches_refl(f, ret);
        }
        while j < pieces.len()
            invariant
                1 <= j <= pieces@.len(),
                pieces@.len() == k,
                k >= 2,
                k <= ts@.len(),
                ret.0 < f0.ops@.len(),
                n == ins.len(),
                ins == f0.ops@[ret.0 as int].inrefs@,
                touches_only(&f0, &*f, ret),
                f.ops@[ret.0 as int] == f0.ops@[ret.0 as int],
                preexist == lovn || new_join(&f0, &*f, preexist),
                j >= 2 ==> new_join(&f0, &*f, preexist),
                j == 1 ==> preexist == lovn,
                preexist.0 < f.vns@.len(),
                lovn == pieces@[0].0,
                lo_a == pieces@[0].1,
                j == 1 ==> cur_s == pieces@[0].2,
                j >= 2 ==> contiguous(ts@[0], ts@[1]),
                forall|q: int| 0 <= q < k ==> (#[trigger] pieces@[q]).0.0 < f0.vns@.len(),
                forall|q: int|
                    0 <= q < k ==> #[trigger] pieces@[q] == (ins[ts@[q].op_slot as int], ts@[q].addr, ts@[q].size),
            ensures
                preexist == lovn || new_join(&f0, &*f, preexist),
                touches_only(&f0, &*f, ret),
                f.ops@[ret.0 as int] == f0.ops@[ret.0 as int],
                j >= 2 ==> new_join(&f0, &*f, preexist),
                (contiguous(ts@[0], ts@[1]) && ts@[0].addr.space.0 < f0.spaces@.len()) ==> j >= 2,
                !contiguous(ts@[0], ts@[1]) ==> preexist == lovn,
            decreases pieces@.len() - j,
        {
            let (vn, a, sz) = pieces[j];
            proof {
                assert(pieces@[j as int].0.0 < f0.vns@.len());
            }
            if a.space != lo_a.space || lo_a.offset.wrapping_add(cur_s as u64) != a.offset || lo_a.space.0 as usize >= f.spaces.num_spaces() {
                break;
            }
            let ghost g = *f;
            let whole = join_before(f, ret, vn, preexist, cur_s.wrapping_add(sz), lo_a);
            proof {
                lemma_touches_trans(&f0, &g, &*f, ret);
            }
            preexist = whole;
            cur_s = cur_s.wrapping_add(sz);
            j += 1;
        }
        Some(preexist)
    };
    let ghost g1 = *f;
    proof {
        lemma_touches_refl(f, ret);
    }
    let mut s: usize = n;
    while s > 1
        invariant
            1 <= s <= n || (n == 0 && s == 0),
            n == ins.len(),
            ret.0 < f.ops@.len(),
            touches_only(&g1, &*f, ret),
            f.ops@[ret.0 as int].inrefs@ == ins.take(s as int),
        decreases s,
    {
        s -= 1;
        let ghost g = *f;
        f.op_remove_input(ret, s);
        proof {
            assert(ins.take(s + 1).remove(s as int) =~= ins.take(s as int));
            lemma_touches_trans(&g1, &g, &*f, ret);
        }
    }
    let ghost g2 = *f;
    if let Some(v) = value {
        f.op_append_input(ret, v);
    }
    proof {
        lemma_touches_refl(f, ret);
        assert(touches_only(&g2, &*f, ret));
        lemma_touches_trans(&g1, &g2, &*f, ret);
        if pieces@.len() < 2 {
            lemma_touches_refl(&f0, ret);
            assert(g1 == f0);
        }
        lemma_touches_trans(&f0, &g1, &*f, ret);
        if n >= 1 {
            assert(ins.take(1) =~= seq![ins[0]]);
        } else {
            assert(ins.take(0) =~= ins);
        }
        if pieces@.len() >= 2 {
            let v = value.unwrap();
            if new_join(&f0, &g1, v) {
                lemma_new_join_persists(&f0, &g1, &*f, v, ret);
            }
        }
    }
}

proof fn lemma_new_join_persists(a: &Funcdata, b: &Funcdata, c: &Funcdata, v: VarnodeId, ret: OpId)
    requires
        new_join(a, b, v),
        touches_only(b, c, ret),
        ret.0 < a.ops@.len(),
    ensures
        new_join(a, c, v),
{
    let d = b.vns@[v.0 as int].def.unwrap();
    assert(c.vns@[v.0 as int] == b.vns@[v.0 as int]);
    assert(c.ops@[d.0 as int] == b.ops@[d.0 as int]);
}

proof fn lemma_touches_refl(f: &Funcdata, ret: OpId)
    requires
        f.wf(),
    ensures
        touches_only(f, f, ret),
{
}


proof fn lemma_rebuilt_persists(f0: &Funcdata, g: &Funcdata, h: &Funcdata, rj: OpId, r: OpId, ts: Seq<ParamTrial>)
    requires
        return_rebuilt(f0, g, rj, ts),
        touches_only(g, h, r),
        rj != r,
        rj.0 < f0.ops@.len(),
        r.0 < f0.ops@.len(),
        f0.ops@.len() <= g.ops@.len(),
    ensures
        return_rebuilt(f0, h, rj, ts),
{
    assert(h.ops@[rj.0 as int] == g.ops@[rj.0 as int]);
    let nins = g.ops@[rj.0 as int].inrefs@;
    if nins.len() == 2 && new_join(f0, g, nins[1]) {
        let v = nins[1];
        let d = g.vns@[v.0 as int].def.unwrap();
        assert(h.vns@[v.0 as int] == g.vns@[v.0 as int]);
        assert(h.ops@[d.0 as int] == g.ops@[d.0 as int]);
    }
}

proof fn lemma_rebuilt_rebase(f0: &Funcdata, g: &Funcdata, h: &Funcdata, r: OpId, ts: Seq<ParamTrial>)
    requires
        return_rebuilt(g, h, r, ts),
        g.ops@[r.0 as int] == f0.ops@[r.0 as int],
        f0.ops@.len() <= g.ops@.len(),
        f0.vns@.len() <= g.vns@.len(),
        g.spaces == f0.spaces,
    ensures
        return_rebuilt(f0, h, r, ts),
{
}

/// Rewrite every live RETURN to carry exactly the recovered return value, from the leading used
/// trials of the open return recovery (see [`return_rebuilt`]): a value in several pieces is
/// joined by a PIECE placed before the RETURN. Other ops are unchanged; nothing happens when no
/// return recovery is open.
pub fn build_return_output(f: &mut Funcdata)
    requires
        old(f).wf(),
    ensures
        final(f).wf(),
        final(f).same_meta(old(f)),
        old(f).active_output is None ==> *final(f) == *old(f),
        old(f).active_output matches Some(a) ==> forall|j: int|
            0 <= j < live_returns_spec(old(f)).len() ==> return_rebuilt(
                old(f),
                final(f),
                #[trigger] live_returns_spec(old(f))[j],
                a.trial@,
            ),
        forall|i: int|
            0 <= i < old(f).ops@.len() && !live_returns_spec(old(f)).contains(OpId(i as usize)) ==> #[trigger] final(f).ops@[i]
                == old(f).ops@[i],
{
    let a = match &f.active_output {
        None => return,
        Some(a) => a,
    };
    let mut ts: Vec<ParamTrial> = Vec::new();
    let mut k: usize = 0;
    while k < a.trial.len()
        invariant
            k <= a.trial@.len(),
            ts@ == a.trial@.take(k as int),
        decreases a.trial@.len() - k,
    {
        ts.push(a.trial[k]);
        k += 1;
        assert(ts@ =~= a.trial@.take(k as int));
    }
    assert(ts@ =~= a.trial@);
    let rets = live_returns(f);
    let ghost f0 = *f;
    let nops = f.ops.len();
    let mut k: usize = 0;
    while k < rets.len()
        invariant
            f.wf(),
            f.same_meta(&f0),
            f0.wf(),
            nops == f0.ops@.len(),
            rets@ == live_returns_spec(&f0),
            k <= rets@.len(),
            f0.ops@.len() <= f.ops@.len(),
            f0.vns@.len() <= f.vns@.len(),
            forall|i: int|
                0 <= i < f0.ops@.len() && (forall|j: int| 0 <= j < k ==> (#[trigger] rets@[j]).0 != i) ==> #[trigger] f.ops@[i]
                    == f0.ops@[i],
            forall|i: int| 0 <= i < f0.vns@.len() ==> #[trigger] f.vns@[i] == f0.vns@[i],
            forall|j: int| 0 <= j < k ==> return_rebuilt(&f0, &*f, #[trigger] rets@[j], ts@),
        decreases rets@.len() - k,
    {
        let r = rets[k];
        proof {
            lemma_returns_upto(&f0, nops as int, k as int);
        }
        let ghost g = *f;
        rebuild_return(f, r, &ts);
        proof {
            assert(g.ops@[r.0 as int] == f0.ops@[r.0 as int]) by {
                assert forall|j: int| 0 <= j < k implies (#[trigger] rets@[j]).0 != r.0 by {
                    lemma_returns_upto(&f0, nops as int, j);
                }
            }
            lemma_rebuilt_rebase(&f0, &g, &*f, r, ts@);
            assert forall|j: int| 0 <= j < k + 1 implies return_rebuilt(&f0, &*f, #[trigger] rets@[j], ts@) by {
                if j < k {
                    lemma_returns_upto(&f0, nops as int, j);
                    lemma_rebuilt_persists(&f0, &g, &*f, rets@[j], r, ts@);
                }
            }
            assert forall|i: int|
                0 <= i < f0.ops@.len() && (forall|j: int| 0 <= j < k + 1 ==> (#[trigger] rets@[j]).0 != i) implies #[trigger] f.ops@[i]
                == f0.ops@[i] by {
                assert(rets@[k as int].0 != i);
                assert(g.ops@[i] == f0.ops@[i]);
            }
        }
        k += 1;
    }
    proof {
        assert forall|i: int|
            0 <= i < f0.ops@.len() && !live_returns_spec(&f0).contains(OpId(i as usize)) implies #[trigger] f.ops@[i] == f0.ops@[i] by {
            assert forall|j: int| 0 <= j < rets@.len() implies (#[trigger] rets@[j]).0 != i by {
                if rets@[j].0 == i {
                    assert(rets@[j] == OpId(i as usize));
                }
            }
        }
    }
}


/// The stack slots a callee can reach through a pointer that escapes the function, as found
/// by the alias analysis: `aliased[v]` for the varnode with index `v`.
pub struct StackAliases {
    pub aliased: Vec<bool>,
}

impl StackAliases {
    /// The varnode is a stack slot some escaping pointer may reach.
    pub fn has_local_alias(&self, v: VarnodeId) -> (r: bool)
        ensures
            r == (v.0 < self.aliased@.len() && self.aliased@[v.0 as int]),
    {
        v.0 < self.aliased.len() && self.aliased[v.0]
    }
}

/// The input storage the callee of `call` was found to read (nothing when unknown).
pub open spec fn recovered_reads(f: &Funcdata, call: OpId) -> Seq<(Address, u32)> {
    match f.call_spec_index_spec(call) {
        Some(p) => match f.call_specs@[p as int].1.reads {
            Some(v) => v@,
            None => Seq::empty(),
        },
        None => Seq::empty(),
    }
}

/// The bytes the callee of `call` is known to pop beyond the return address, when the
/// convention leaves that open and the callee's own count is known and more than 4.
pub open spec fn callee_pop_spec(f: &Funcdata, call: OpId) -> Option<i32> {
    if f.proto_model.extrapop == EXTRAPOP_UNKNOWN {
        let e = match f.call_spec_index_spec(call) {
            Some(p) => match f.call_specs@[p as int].1.extrapop {
                Some(e) => e,
                None => EXTRAPOP_UNKNOWN,
            },
            None => EXTRAPOP_UNKNOWN,
        };
        if e == EXTRAPOP_UNKNOWN || e <= 4 {
            None
        } else {
            Some(e)
        }
    } else {
        None
    }
}

/// Trial `t` became `n` by the verdict `r`.
pub open spec fn verdict_marks(t: ParamTrial, n: ParamTrial, r: TrialVerdict) -> bool {
    match r {
        TrialVerdict::Active => n.checked && n.active,
        TrialVerdict::Inactive => n.checked && !n.active && n.used == t.used && n.def_no_use == t.def_no_use,
        TrialVerdict::NoUse => n.checked && !n.active && !n.used && n.def_no_use,
    }
}

/// Trial `t`, whose value at the call is `v`, became `n` by a verdict that follows the stack
/// rules, and is inactive when `v` lies outside the stack and is unwritten (a constant, a free
/// value or a function input) or an unrealistic function input.
pub open spec fn input_evaluated(
    f: &Funcdata,
    v: VarnodeId,
    t: ParamTrial,
    aliases: &StackAliases,
    pop: Option<i32>,
    n: ParamTrial,
) -> bool {
    exists|r: TrialVerdict|
        #[trigger] verdict_marks(t, n, r) && stack_verdict(f, v, t, aliases, pop, r) && (!is_stack_slot(f, v)
            && f.vns@[v.0 as int].input && !t.cond_exe_effect ==> r is Inactive) && (!is_stack_slot(f, v)
            && f.vns@[v.0 as int].def is None ==> r is Inactive)
}

/// The callee is known to read the trial's storage, at least as wide.
pub open spec fn named_by(reads: Seq<(Address, u32)>, t: ParamTrial) -> bool {
    exists|k: int| 0 <= k < reads.len() && (#[trigger] reads[k]).0 == t.addr && reads[k].1 >= t.size
}

/// The evaluation's verdict on a trial.
pub enum TrialVerdict {
    /// A real argument.
    Active,
    /// Not an argument here, but its data-flow is kept.
    Inactive,
    /// Definitely not an argument: its data-flow is freed.
    NoUse,
}

/// A trial decided by one evaluation: its storage, slot and call-kill fact are unchanged, the
/// walk's own marks may be set, and it is checked, either active or inactive (its use mark
/// kept) or definitely unused.
pub open spec fn input_decided(t: ParamTrial, n: ParamTrial) -> bool {
    &&& n.addr == t.addr
    &&& n.size == t.size
    &&& n.op_slot == t.op_slot
    &&& n.killed_by_call == t.killed_by_call
    &&& n.checked
    &&& ((n.used == t.used && n.def_no_use == t.def_no_use) || (!n.active && !n.used && n.def_no_use))
}

/// The inputs of `call` in `b` are those of `a`, or a new constant 0 of the same size put in
/// place of one that was not a constant.
pub open spec fn inputs_kept_or_freed(a: &Funcdata, b: &Funcdata, call: OpId) -> bool {
    let x = a.ops@[call.0 as int].inrefs@;
    let y = b.ops@[call.0 as int].inrefs@;
    &&& y.len() == x.len()
    &&& forall|s: int| 0 <= s < y.len() ==> #[trigger] y[s] == x[s] || (a.vns@.len() <= y[s].0 && b.vns@[y[s].0 as int].constant
        && b.vns@[y[s].0 as int].loc.offset == 0 && b.vns@[y[s].0 as int].size == a.vns@[x[s].0 as int].size
        && !a.vns@[x[s].0 as int].constant)
}

/// The parts of a function other than its varnodes, ops and open input trials are the same.
pub open spec fn same_but_flow_and_trials(a: &Funcdata, b: &Funcdata) -> bool {
    &&& b.name == a.name
    &&& b.entry == a.entry
    &&& b.spaces == a.spaces
    &&& b.blocks == a.blocks
    &&& b.stack_pointer == a.stack_pointer
    &&& b.proto_model == a.proto_model
    &&& b.call_specs@ == a.call_specs@
    &&& b.type_recovery_started == a.type_recovery_started
    &&& b.stack_syms == a.stack_syms
    &&& b.unique_next == a.unique_next
    &&& b.not_mapped@ == a.not_mapped@
    &&& b.active_output == a.active_output
    &&& b.tail_return_write == a.tail_return_write
    &&& b.calls_awaiting_output@ == a.calls_awaiting_output@
}

/// What one evaluation does to trial `t` (now `n`), given the storage the callee is known to
/// read and the number of inputs of the call.
pub open spec fn input_trial_outcome(t: ParamTrial, n: ParamTrial, reads: Seq<(Address, u32)>, nslots: nat) -> bool {
    &&& t.checked ==> n == t
    &&& !t.checked ==> input_decided(t, n)
    &&& !t.checked && named_by(reads, t) ==> n.active
    &&& !t.checked && !named_by(reads, t) && t.op_slot >= nslots ==> !n.active && !n.used && n.def_no_use
}

/// The trial was newly found definitely unused by this evaluation.
pub open spec fn newly_freed(t: ParamTrial, n: ParamTrial) -> bool {
    !t.checked && !t.def_no_use && n.def_no_use
}

/// The varnode lives in a stack (spacebase) space.
pub open spec fn is_stack_slot(f: &Funcdata, v: VarnodeId) -> bool {
    f.spaces@[f.vns@[v.0 as int].loc.space.0 as int].kind == SpaceKind::Spacebase
}

/// An escaping pointer may reach the stack slot `v`.
pub open spec fn aliased(aliases: &StackAliases, v: VarnodeId) -> bool {
    v.0 < aliases.aliased@.len() && aliases.aliased@[v.0 as int]
}

/// The last byte of the trial's storage, as a signed 32-bit stack offset.
pub open spec fn trial_end(t: ParamTrial) -> i32 {
    vstd::wrapping::u64_specs::wrapping_add(t.addr.offset, vstd::wrapping::u32_specs::wrapping_sub(t.size, 1) as u64) as i32
}

/// The verdict on a trial whose value `v` sits in a stack slot: definitely unused when an
/// escaping pointer may reach it or it lies outside the local range; else, when the callee is
/// known to pop `pop` bytes, active exactly when its last byte lies below them.
pub open spec fn stack_verdict(
    f: &Funcdata,
    v: VarnodeId,
    t: ParamTrial,
    aliases: &StackAliases,
    pop: Option<i32>,
    r: TrialVerdict,
) -> bool {
    is_stack_slot(f, v) ==> {
        &&& aliased(aliases, v) ==> r is NoUse
        &&& !aliased(aliases, v) && !in_range_spec(f.proto_model.localrange@, f.vns@[v.0 as int].loc, 1) ==> r is NoUse
        &&& (!aliased(aliases, v) && in_range_spec(f.proto_model.localrange@, f.vns@[v.0 as int].loc, 1) && pop is Some)
            ==> if trial_end(t) < pop->0 {
            r is Active
        } else {
            r is NoUse
        }
    }
}

/// Whether the candidate storage `t` at `call` is a real argument, given the walk's facts, and
/// whether the call is to be slated for a final check (a pass owed to conditional execution).
fn input_verdict(
    f: &Funcdata,
    call: OpId,
    t: &mut ParamTrial,
    aliases: &StackAliases,
    callee_pop: bool,
    expop: i32,
) -> (r: (TrialVerdict, bool))
    requires
        f.wf(),
        call.0 < f.ops@.len(),
    ensures
        crate::ancestor::walk_frame(*old(t), *final(t)),
        (old(t).op_slot as usize) >= f.ops@[call.0 as int].inrefs@.len() ==> r.0 is NoUse,
        r.1 ==> r.0 is Active && final(t).cond_exe_effect,
        (old(t).op_slot as usize) < f.ops@[call.0 as int].inrefs@.len() ==> stack_verdict(
            f,
            f.ops@[call.0 as int].inrefs@[old(t).op_slot as int],
            *old(t),
            aliases,
            if callee_pop { Some(expop) } else { None },
            r.0,
        ),
        (old(t).op_slot as usize) < f.ops@[call.0 as int].inrefs@.len() ==> ({
            let v = f.ops@[call.0 as int].inrefs@[old(t).op_slot as int];
            &&& !is_stack_slot(f, v) && f.vns@[v.0 as int].input && !old(t).cond_exe_effect ==> r.0 is Inactive
            &&& !is_stack_slot(f, v) && f.vns@[v.0 as int].def is None ==> r.0 is Inactive
        }),
{
    let slot = t.op_slot as usize;
    proof {
        assert(op_wf(f.ops@[call.0 as int], f.vns@.len(), f.ops@.len(), f.blocks@.len()));
    }
    if slot >= f.op(call).num_inputs() {
        return (TrialVerdict::NoUse, false);
    }
    let v = f.op(call).inrefs[slot];
    proof {
        assert(f.vns@[v.0 as int].loc.space.0 < f.spaces@.len());
    }
    let is_stack = f.spaces.get(f.vn(v).loc.space).kind == SpaceKind::Spacebase;
    let vn_is_input = f.vn(v).is_input();
    if is_stack {
        if aliases.has_local_alias(v) {
            return (TrialVerdict::NoUse, false);
        }
        if !f.proto_model.localrange.in_range(f.vn(v).loc, 1) {
            return (TrialVerdict::NoUse, false);
        }
        if callee_pop {
            let end = #[verifier::truncate] (t.addr.offset.wrapping_add(t.size.wrapping_sub(1) as u64) as i32);
            if end < expop {
                return (TrialVerdict::Active, false);
            }
            return (TrialVerdict::NoUse, false);
        }
    }
    let mut walker = AncestorRealistic::new();
    let realistic = walker.execute(f, call, slot, t, !is_stack);
    if realistic {
        let addr = f.vn(v).loc;
        let m = f.ops.len();
        let mut mmark: Vec<bool> = Vec::new();
        let mut k: usize = 0;
        while k < m
            invariant
                k <= m,
                mmark@.len() == k,
            decreases m - k,
        {
            mmark.push(false);
            k += 1;
        }
        if ancestor_op_use(f, TRIM_RECURSE_MAX, v, call, slot, 0, 0, addr, false, &mut mmark) {
            (TrialVerdict::Active, t.cond_exe_effect)
        } else {
            (TrialVerdict::Inactive, false)
        }
    } else if vn_is_input && !is_stack {
        (TrialVerdict::Inactive, false)
    } else {
        (TrialVerdict::NoUse, false)
    }
}

/// The callee is known to read the storage of `t`: an entry of `reads` at its address at
/// least as wide.
fn names_trial(reads: &Vec<(Address, u32)>, t: &ParamTrial) -> (r: bool)
    ensures
        r == named_by(reads@, *t),
{
    let mut named = false;
    let mut q: usize = 0;
    while q < reads.len()
        invariant
            q <= reads@.len(),
            named == exists|k: int| 0 <= k < q && (#[trigger] reads@[k]).0 == t.addr && reads@[k].1 >= t.size,
        decreases reads@.len() - q,
    {
        if reads[q].0 == t.addr && reads[q].1 >= t.size {
            named = true;
        }
        q += 1;
    }
    named
}

/// Decide, for each argument trial of `call` not yet settled, whether its storage really
/// carries an argument: a slot the call does not have is unused for good; a stack slot an
/// escaping pointer may reach, or one outside the local range, is unused for good, and when the
/// callee is known to pop its parameters one inside the popped bytes is active and any other
/// unused for good; otherwise the ancestor walk ([`AncestorRealistic`], failing paths allowed
/// for registers) decides: a realistic value used only to feed the call ([`ancestor_op_use`])
/// is active (when conditional execution is involved, the call is marked to be looked at once
/// more at the end), a realistic one used elsewhere is inactive, an unrealistic register input
/// is inactive, anything else unused for good. Storage the callee is known to read is active
/// whatever else holds. A slot unused for good has its value replaced by a constant 0. Each
/// decision is recorded as soon as it is made, so later trials see it. Then the round is
/// counted, and once the rounds exceed the limit every trial counts as decided.
#[verifier::rlimit(60)]
#[verifier::spinoff_prover]
pub fn check_input_trial_use(f: &mut Funcdata, call: OpId, aliases: &StackAliases)
    requires
        old(f).wf(),
        call.0 < old(f).ops@.len(),
        old(f).active_input_spec(call) is Some,
    ensures
        final(f).wf(),
        same_but_flow_and_trials(old(f), final(f)),
        final(f).ops@.len() == old(f).ops@.len(),
        forall|i: int| 0 <= i < old(f).ops@.len() && i != call.0 ==> #[trigger] final(f).ops@[i] == old(f).ops@[i],
        old(f).vns@.len() <= final(f).vns@.len(),
        forall|i: int| 0 <= i < old(f).vns@.len() ==> #[trigger] final(f).vns@[i] == old(f).vns@[i],
        inputs_kept_or_freed(old(f), final(f), call),
        ({
            let a = old(f).active_input_spec(call).unwrap();
            let reads = recovered_reads(old(f), call);
            let ins = final(f).ops@[call.0 as int].inrefs@;
            &&& final(f).active_input_spec(call) matches Some(b) && {
                &&& b.trial@.len() == a.trial@.len()
                &&& b.register_space == a.register_space
                &&& b.maxpass == a.maxpass
                &&& b.numpasses == a.numpasses.wrapping_add(1)
                &&& b.fully_checked == (a.fully_checked || b.numpasses > b.maxpass)
                &&& a.needs_final_check ==> b.needs_final_check
                &&& b.needs_final_check ==> a.needs_final_check || exists|i: int|
                    0 <= i < a.trial@.len() && !a.trial@[i].checked && (#[trigger] b.trial@[i]).active
                        && b.trial@[i].cond_exe_effect
                &&& forall|i: int|
                    0 <= i < a.trial@.len() ==> input_trial_outcome(
                        a.trial@[i],
                        #[trigger] b.trial@[i],
                        reads,
                        old(f).ops@[call.0 as int].inrefs@.len(),
                    )
                &&& forall|i: int|
                    0 <= i < a.trial@.len() && newly_freed(a.trial@[i], #[trigger] b.trial@[i])
                        && a.trial@[i].op_slot < ins.len() ==> final(f).vns@[ins[a.trial@[i].op_slot as int].0 as int].constant
                &&& forall|i: int|
                    0 <= i < a.trial@.len() && !a.trial@[i].checked && !named_by(reads, a.trial@[i]) && a.trial@[i].op_slot
                        < ins.len() && ins[a.trial@[i].op_slot as int] == old(f).ops@[call.0 as int].inrefs@[a.trial@[i].op_slot as int]
                        ==> input_evaluated(
                        old(f),
                        ins[a.trial@[i].op_slot as int],
                        a.trial@[i],
                        aliases,
                        callee_pop_spec(old(f), call),
                        #[trigger] b.trial@[i],
                    )
            }
        }),
{
    let ghost f0 = *f;
    let ghost orig = f0.active_input_spec(call).unwrap();
    let ghost nslots = f0.ops@[call.0 as int].inrefs@.len();
    let recovered: Vec<(Address, u32)> = match f.call_spec_index(call) {
        Some(p) => match &f.call_specs[p].1.reads {
            Some(v) => copy_reads(v),
            None => Vec::new(),
        },
        None => Vec::new(),
    };
    proof {
        if let Some(p) = f.call_spec_index_spec(call) {
            let c = choose|q: int|
                0 <= q < f.call_specs@.len() && (#[trigger] f.call_specs@[q]).0 == call && forall|k: int|
                    0 <= k < q ==> f.call_specs@[k].0 != call;
            assert(f.call_specs@[c].0 == call);
        }
        assert(recovered@ == recovered_reads(&f0, call)) by {
            if exists|q: int| 0 <= q < f.call_specs@.len() && (#[trigger] f.call_specs@[q]).0 == call {
                let c = choose|q: int|
                    0 <= q < f.call_specs@.len() && (#[trigger] f.call_specs@[q]).0 == call && forall|k: int|
                        0 <= k < q ==> f.call_specs@[k].0 != call;
                let _ = c;
            }
        }
    }
    let mut cur = f.active_input(call).unwrap().copy();
    let mut callee_pop = f.proto_model.extrapop == EXTRAPOP_UNKNOWN;
    let mut expop: i32 = 0;
    if callee_pop {
        expop = match f.call_spec_index(call) {
            Some(p) => match f.call_specs[p].1.extrapop {
                Some(e) => e,
                None => EXTRAPOP_UNKNOWN,
            },
            None => EXTRAPOP_UNKNOWN,
        };
        if expop == EXTRAPOP_UNKNOWN || expop <= 4 {
            callee_pop = false;
        }
    }
    let ghost pop: Option<i32> = if callee_pop { Some(expop) } else { None };
    proof {
        if let Some(p) = f.call_spec_index_spec(call) {
            let c = choose|q: int|
                0 <= q < f.call_specs@.len() && (#[trigger] f.call_specs@[q]).0 == call && forall|k: int|
                    0 <= k < q ==> f.call_specs@[k].0 != call;
            assert(f.call_specs@[c].0 == call);
        }
        assert(pop == callee_pop_spec(&f0, call));
    }
    let n = cur.trial.len();
    let mut ti: usize = 0;
    while ti < n
        invariant
            f.wf(),
            call.0 < f.ops@.len(),
            ti <= n,
            n == cur.trial@.len(),
            n == orig.trial@.len(),
            recovered@ == recovered_reads(&f0, call),
            nslots == f0.ops@[call.0 as int].inrefs@.len(),
            same_but_flow_and_trials(&f0, f),
            f.ops@.len() == f0.ops@.len(),
            forall|i: int| 0 <= i < f0.ops@.len() && i != call.0 ==> #[trigger] f.ops@[i] == f0.ops@[i],
            f0.vns@.len() <= f.vns@.len(),
            forall|i: int| 0 <= i < f0.vns@.len() ==> #[trigger] f.vns@[i] == f0.vns@[i],
            inputs_kept_or_freed(&f0, f, call),
            f.active_input_spec(call) matches Some(x) && same_active(x, cur),
            cur.register_space == orig.register_space,
            cur.numpasses == orig.numpasses,
            cur.maxpass == orig.maxpass,
            cur.fully_checked == orig.fully_checked,
            orig.needs_final_check ==> cur.needs_final_check,
            cur.needs_final_check ==> orig.needs_final_check || exists|i: int|
                0 <= i < ti && !orig.trial@[i].checked && (#[trigger] cur.trial@[i]).active
                    && cur.trial@[i].cond_exe_effect,
            forall|i: int| 0 <= i < ti ==> input_trial_outcome(orig.trial@[i], #[trigger] cur.trial@[i], recovered@, nslots),
            forall|i: int| ti <= i < n ==> #[trigger] cur.trial@[i] == orig.trial@[i],
            forall|i: int|
                0 <= i < ti && newly_freed(orig.trial@[i], #[trigger] cur.trial@[i]) && orig.trial@[i].op_slot
                    < f.ops@[call.0 as int].inrefs@.len() ==> f.vns@[f.ops@[call.0 as int].inrefs@[orig.trial@[i].op_slot as int].0 as int].constant,
            pop == callee_pop_spec(&f0, call),
            pop == (if callee_pop { Some(expop) } else { None::<i32> }),
            f0.wf(),
            forall|i: int|
                0 <= i < ti && !orig.trial@[i].checked && !named_by(recovered@, orig.trial@[i]) && orig.trial@[i].op_slot
                    < nslots && f.ops@[call.0 as int].inrefs@[orig.trial@[i].op_slot as int]
                    == f0.ops@[call.0 as int].inrefs@[orig.trial@[i].op_slot as int] ==> input_evaluated(
                    &f0,
                    f0.ops@[call.0 as int].inrefs@[orig.trial@[i].op_slot as int],
                    orig.trial@[i],
                    aliases,
                    pop,
                    #[trigger] cur.trial@[i],
                ),
        decreases n - ti,
    {
        let t = cur.trial[ti];
        let ghost ca = cur;
        let ghost fa = *f;
        if !t.checked {
            let mut walked = t;
            let (verdict0, slate) = input_verdict(f, call, &mut walked, aliases, callee_pop, expop);
            let named = names_trial(&recovered, &t);
            let verdict = if named { TrialVerdict::Active } else { verdict0 };
            let freeing = match verdict {
                TrialVerdict::NoUse => true,
                _ => false,
            };
            let slot = t.op_slot as usize;
            proof {
                assert(op_wf(f.ops@[call.0 as int], f.vns@.len(), f.ops@.len(), f.blocks@.len()));
            }
            if freeing && slot < f.op(call).num_inputs() {
                let v = f.op(call).inrefs[slot];
                if !f.vn(v).is_constant() {
                    let size = f.vn(v).size;
                    let ghost fb = *f;
                    let zero = f.new_const(size, 0);
                    let ghost fc = *f;
                    f.op_set_input(call, slot, zero);
                    proof {
                        assert(f.vns@[zero.0 as int].constant);
                        assert forall|s: int| 0 <= s < f.ops@[call.0 as int].inrefs@.len() && s != slot
                            implies #[trigger] f.ops@[call.0 as int].inrefs@[s] == fb.ops@[call.0 as int].inrefs@[s] by {}
                        assert forall|s: int| 0 <= s < fb.ops@[call.0 as int].inrefs@.len() implies
                            (#[trigger] fb.ops@[call.0 as int].inrefs@[s]).0 < fb.vns@.len() by {
                            assert(op_wf(fb.ops@[call.0 as int], fb.vns@.len(), fb.ops@.len(), fb.blocks@.len()));
                        }
                    }
                }
            }
            if slate {
                cur.mark_needs_final_check();
            }
            match verdict {
                TrialVerdict::Active => walked.mark_active(),
                TrialVerdict::Inactive => walked.mark_inactive(),
                TrialVerdict::NoUse => walked.mark_no_use(),
            }
            cur.trial.set(ti, walked);
            proof {
                if slate {
                    assert(cur.trial@[ti as int].active && cur.trial@[ti as int].cond_exe_effect);
                    assert(!orig.trial@[ti as int].checked);
                }
                if cur.needs_final_check && !orig.needs_final_check && !slate {
                    let w = choose|i: int|
                        0 <= i < ti && !orig.trial@[i].checked && (#[trigger] ca.trial@[i]).active
                            && ca.trial@[i].cond_exe_effect;
                    assert(cur.trial@[w] == ca.trial@[w]);
                }
                let x = f0.ops@[call.0 as int].inrefs@;
                assert(op_wf(f0.ops@[call.0 as int], f0.vns@.len(), f0.ops@.len(), f0.blocks@.len()));
                assert forall|s2: int| 0 <= s2 < x.len() && f.ops@[call.0 as int].inrefs@[s2] == x[s2]
                    implies fa.ops@[call.0 as int].inrefs@[s2] == x[s2] by {
                    assert(x[s2].0 < f0.vns@.len());
                    if fa.ops@[call.0 as int].inrefs@[s2] != x[s2] {
                        assert(f0.vns@.len() <= fa.ops@[call.0 as int].inrefs@[s2].0);
                    }
                }
                assert forall|i: int|
                    0 <= i < ti + 1 && !orig.trial@[i].checked && !named_by(recovered@, orig.trial@[i]) && orig.trial@[i].op_slot
                        < nslots && f.ops@[call.0 as int].inrefs@[orig.trial@[i].op_slot as int]
                        == x[orig.trial@[i].op_slot as int] implies input_evaluated(
                        &f0,
                        x[orig.trial@[i].op_slot as int],
                        orig.trial@[i],
                        aliases,
                        pop,
                        #[trigger] cur.trial@[i],
                    ) by {
                    let si = orig.trial@[i].op_slot as int;
                    assert(fa.ops@[call.0 as int].inrefs@[si] == x[si]);
                    if i < ti {
                        assert(cur.trial@[i] == ca.trial@[i]);
                    } else {
                        assert(orig.trial@[i] == t);
                        assert(verdict == verdict0);
                        assert(fa.vns@[x[si].0 as int] == f0.vns@[x[si].0 as int]);
                        assert(verdict_marks(t, cur.trial@[i], verdict));
                    }
                }
            }
            f.set_active_input(call, cur.copy());
        }
        ti += 1;
    }
    proof {
        let b = cur;
        assert(same_active(b, cur));
    }
    cur.finish_pass();
    if cur.numpasses > cur.maxpass {
        cur.mark_fully_checked();
    }
    let ghost fin = cur;
    f.set_active_input(call, cur);
    proof {
        let b = f.active_input_spec(call).unwrap();
        assert(b == fin);
        assert(orig == old(f).active_input_spec(call).unwrap());
        assert(b.trial@.len() == orig.trial@.len());
        assert(b.fully_checked == (orig.fully_checked || b.numpasses > b.maxpass));
        assert(forall|i: int| 0 <= i < orig.trial@.len() ==> input_trial_outcome(orig.trial@[i], #[trigger] b.trial@[i], recovered_reads(old(f), call), old(f).ops@[call.0 as int].inrefs@.len()));
        assert(b.needs_final_check ==> orig.needs_final_check || exists|i: int|
                    0 <= i < orig.trial@.len() && !orig.trial@[i].checked && (#[trigger] b.trial@[i]).active
                        && b.trial@[i].cond_exe_effect);
    }
}

/// The used trial `t` gives the call (with `n` inputs) an argument: its input is yet to be made,
/// or it names an input slot other than the target's.
pub open spec fn gives_arg(t: ParamTrial, n: nat) -> bool {
    t.used && (t.unref || (0 < t.op_slot && t.op_slot < n))
}

/// The trials among the first `i` of `ts` that give the call an argument, in order.
pub open spec fn arg_trials(ts: Seq<ParamTrial>, n: nat, i: int) -> Seq<ParamTrial>
    decreases i,
{
    if i <= 0 {
        Seq::empty()
    } else {
        arg_trials(ts, n, i - 1) + if gives_arg(ts[i - 1], n) {
            seq![ts[i - 1]]
        } else {
            Seq::empty()
        }
    }
}

/// The earlier input at the slot of the unreferenced trial `t` can serve as its argument: a
/// non-constant of the trial's storage and size.
pub open spec fn reusable(f: &Funcdata, call: OpId, t: ParamTrial) -> bool {
    let ins = f.ops@[call.0 as int].inrefs@;
    &&& 0 < t.op_slot < ins.len()
    &&& !f.vns@[ins[t.op_slot as int].0 as int].constant
    &&& f.vns@[ins[t.op_slot as int].0 as int].loc == t.addr
    &&& f.vns@[ins[t.op_slot as int].0 as int].size == t.size
}

/// `a` (in `g`) is the argument the trial `t` gives the call of `f`: for an unreferenced trial,
/// the reusable earlier input or a new free varnode of its storage, marked for heritage; else the
/// input at its slot, or, when that is wider than the trial, a new value of the trial's size at
/// the same storage written by a SUBPIECE of it at offset 0.
pub open spec fn arg_for(f: &Funcdata, g: &Funcdata, call: OpId, t: ParamTrial, a: VarnodeId) -> bool {
    let ins = f.ops@[call.0 as int].inrefs@;
    if t.unref {
        if reusable(f, call, t) {
            a == ins[t.op_slot as int]
        } else {
            &&& f.vns@.len() <= a.0 < g.vns@.len()
            &&& g.vns@[a.0 as int].loc == t.addr
            &&& g.vns@[a.0 as int].size == t.size
            &&& g.vns@[a.0 as int].def is None
            &&& !g.vns@[a.0 as int].input
            &&& !g.vns@[a.0 as int].constant
            &&& g.vns@[a.0 as int].active_heritage
        }
    } else {
        let v = ins[t.op_slot as int];
        if f.vns@[v.0 as int].size > t.size {
            &&& f.vns@.len() <= a.0 < g.vns@.len()
            &&& g.vns@[a.0 as int].size == t.size
            &&& g.vns@[a.0 as int].loc == f.vns@[v.0 as int].loc
            &&& g.vns@[a.0 as int].def matches Some(s) && {
                &&& f.ops@.len() <= s.0 < g.ops@.len()
                &&& g.ops@[s.0 as int].opc == OpCode::Subpiece
                &&& g.ops@[s.0 as int].inrefs@.len() == 2
                &&& g.ops@[s.0 as int].inrefs@[0] == v
                &&& g.vns@[g.ops@[s.0 as int].inrefs@[1].0 as int].constant
                &&& g.vns@[g.ops@[s.0 as int].inrefs@[1].0 as int].loc.offset == 0
                &&& g.vns@[g.ops@[s.0 as int].inrefs@[1].0 as int].size == 1
            }
        } else {
            a == v
        }
    }
}

/// `g` grew from `h`: the varnodes and ops of `h` are still there, except that op `call` may
/// have new inputs.
pub open spec fn grew_from(h: &Funcdata, g: &Funcdata, call: OpId) -> bool {
    &&& h.vns@.len() <= g.vns@.len()
    &&& h.ops@.len() <= g.ops@.len()
    &&& forall|i: int| 0 <= i < h.vns@.len() ==> #[trigger] g.vns@[i] == h.vns@[i]
    &&& forall|i: int| 0 <= i < h.ops@.len() && i != call.0 ==> #[trigger] g.ops@[i] == h.ops@[i]
}

proof fn lemma_arg_for_grow(f: &Funcdata, h: &Funcdata, g: &Funcdata, call: OpId, t: ParamTrial, a: VarnodeId)
    requires
        h.wf(),
        call.0 < f.ops@.len(),
        f.ops@.len() <= h.ops@.len(),
        arg_for(f, h, call, t, a),
        a.0 < h.vns@.len(),
        grew_from(h, g, call),
    ensures
        arg_for(f, g, call, t, a),
{
    assert(g.vns@[a.0 as int] == h.vns@[a.0 as int]);
    if !t.unref {
        let v = f.ops@[call.0 as int].inrefs@[t.op_slot as int];
        if f.vns@[v.0 as int].size > t.size {
            let s = h.vns@[a.0 as int].def.unwrap();
            assert(g.ops@[s.0 as int] == h.ops@[s.0 as int]);
            assert(op_wf(h.ops@[s.0 as int], h.vns@.len(), h.ops@.len(), h.blocks@.len()));
            let c = h.ops@[s.0 as int].inrefs@[1];
            assert(c.0 < h.vns@.len());
            assert(g.vns@[c.0 as int] == h.vns@[c.0 as int]);
        }
    }
}

proof fn lemma_grew_trans(a: &Funcdata, b: &Funcdata, c: &Funcdata, call: OpId)
    requires
        grew_from(a, b, call),
        grew_from(b, c, call),
    ensures
        grew_from(a, c, call),
{
    assert forall|i: int| 0 <= i < a.vns@.len() implies #[trigger] c.vns@[i] == a.vns@[i] by {
        assert(b.vns@[i] == a.vns@[i]);
    }
    assert forall|i: int| 0 <= i < a.ops@.len() && i != call.0 implies #[trigger] c.ops@[i] == a.ops@[i] by {
        assert(b.ops@[i] == a.ops@[i]);
    }
}

/// When every used trial gives an argument, the kept trials, renumbered, are the argument
/// trials with input slots 1, 2, ... in order.
proof fn lemma_renumber_matches_args(ts: Seq<ParamTrial>, n: nat, i: int)
    requires
        0 <= i <= ts.len(),
        forall|q: int| 0 <= q < ts.len() && ts[q].used ==> gives_arg(#[trigger] ts[q], n),
    ensures
        used_renumbered(ts, i).len() == arg_trials(ts, n, i).len(),
        forall|k: int|
            0 <= k < used_renumbered(ts, i).len() ==> #[trigger] used_renumbered(ts, i)[k] == (ParamTrial {
                op_slot: (k + 1) as u32,
                ..arg_trials(ts, n, i)[k]
            }),
    decreases i,
{
    if i > 0 {
        lemma_renumber_matches_args(ts, n, i - 1);
        let prev = used_renumbered(ts, i - 1);
        let pa = arg_trials(ts, n, i - 1);
        if ts[i - 1].used {
            assert(gives_arg(ts[i - 1], n));
            assert forall|k: int| 0 <= k < used_renumbered(ts, i).len() implies #[trigger] used_renumbered(ts, i)[k] == (ParamTrial {
                op_slot: (k + 1) as u32,
                ..arg_trials(ts, n, i)[k]
            }) by {
                if k < prev.len() {
                    assert(used_renumbered(ts, i)[k] == prev[k]);
                    assert(arg_trials(ts, n, i)[k] == pa[k]);
                } else {
                    assert(arg_trials(ts, n, i)[k] == ts[i - 1]);
                }
            }
        } else {
            assert(!gives_arg(ts[i - 1], n));
            assert(arg_trials(ts, n, i) =~= pa);
        }
    }
}

/// Rebuild the call's inputs from the trials chosen for its parameter list, in trial order
/// (which is parameter order), after its target: an unreferenced trial gets the earlier input at
/// its slot when that can serve, else a new free varnode of its storage marked for heritage; any
/// other trial naming an input slot of the call gets that input, narrowed by a SUBPIECE placed
/// before the call when it is wider than the trial; a trial naming no slot is left out. When an
/// argument is a free non-constant (an earlier call's output not yet committed), the call is
/// recorded to be reopened once outputs are. Then only the chosen trials are kept, numbered by
/// their new slots.
pub fn build_input_from_trials(f: &mut Funcdata, call: OpId)
    requires
        old(f).wf(),
        call.0 < old(f).ops@.len(),
        old(f).ops@[call.0 as int].inrefs@.len() >= 1,
        old(f).active_input_spec(call) is Some,
        old(f).active_input_spec(call)->0.trial@.len() < u32::MAX,
        forall|i: int|
            0 <= i < old(f).active_input_spec(call)->0.trial@.len() ==> (#[trigger] old(f).active_input_spec(call)->0.trial@[i]).addr.space.0
                < old(f).spaces@.len(),
    ensures
        final(f).wf(),
        final(f).spaces == old(f).spaces,
        final(f).proto_model == old(f).proto_model,
        final(f).call_specs@ == old(f).call_specs@,
        final(f).active_output == old(f).active_output,
        grew_from(old(f), final(f), call),
        ({
            let a = old(f).active_input_spec(call)->0;
            let ins = old(f).ops@[call.0 as int].inrefs@;
            let args = arg_trials(a.trial@, ins.len(), a.trial@.len() as int);
            let out = final(f).ops@[call.0 as int].inrefs@;
            &&& out.len() == 1 + args.len()
            &&& out[0] == ins[0]
            &&& forall|j: int| 0 <= j < args.len() ==> arg_for(old(f), final(f), call, #[trigger] args[j], out[1 + j])
            &&& final(f).active_input_spec(call) matches Some(b) && {
                &&& b.trial@ == used_renumbered(a.trial@, a.trial@.len() as int)
                &&& b.register_space == a.register_space
                &&& b.numpasses == a.numpasses
                &&& b.maxpass == a.maxpass
                &&& b.fully_checked == a.fully_checked
                &&& b.needs_final_check == a.needs_final_check
                &&& (forall|i: int| 0 <= i < a.trial@.len() && a.trial@[i].used ==> gives_arg(#[trigger] a.trial@[i], ins.len()))
                    ==> {
                    &&& b.trial@.len() + 1 == out.len()
                    &&& forall|k: int|
                        0 <= k < b.trial@.len() ==> #[trigger] b.trial@[k] == (ParamTrial { op_slot: (k + 1) as u32, ..args[k] })
                }
            }
            &&& final(f).calls_awaiting_output@ == if (exists|j: int|
                1 <= j < out.len() && final(f).vns@[out[j].0 as int].def is None && !final(f).vns@[out[j].0 as int].input
                    && !(#[trigger] final(f).vns@[out[j].0 as int]).constant) && !old(f).calls_awaiting_output@.contains(call) {
                old(f).calls_awaiting_output@.push(call)
            } else {
                old(f).calls_awaiting_output@
            }
        }),
{
    let ghost f0 = *f;
    let mut cur = f.active_input(call).unwrap().copy();
    let ghost a0 = f0.active_input_spec(call)->0;
    let n = f.op(call).num_inputs();
    proof {
        assert(op_wf(f.ops@[call.0 as int], f.vns@.len(), f.ops@.len(), f.blocks@.len()));
    }
    let mut newparam: Vec<VarnodeId> = Vec::new();
    newparam.push(f.op(call).inrefs[0]);
    let nt = cur.trial.len();
    let mut i: usize = 0;
    while i < nt
        invariant
            f.wf(),
            f0.wf(),
            call.0 < f0.ops@.len(),
            n == f0.ops@[call.0 as int].inrefs@.len(),
            n >= 1,
            nt == cur.trial@.len(),
            cur.trial@ == a0.trial@,
            forall|k: int| 0 <= k < a0.trial@.len() ==> (#[trigger] a0.trial@[k]).addr.space.0 < f0.spaces@.len(),
            i <= nt,
            grew_from(&f0, f, call),
            f.ops@[call.0 as int] == f0.ops@[call.0 as int],
            f.spaces == f0.spaces,
            f.proto_model == f0.proto_model,
            f.call_specs@ == f0.call_specs@,
            f.active_inputs == f0.active_inputs,
            f.active_output == f0.active_output,
            f.calls_awaiting_output@ == f0.calls_awaiting_output@,
            newparam@.len() == 1 + arg_trials(a0.trial@, n as nat, i as int).len(),
            newparam@[0] == f0.ops@[call.0 as int].inrefs@[0],
            forall|j: int| 0 <= j < newparam@.len() ==> (#[trigger] newparam@[j]).0 < f.vns@.len(),
            forall|j: int|
                0 <= j < arg_trials(a0.trial@, n as nat, i as int).len() ==> arg_for(
                    &f0,
                    f,
                    call,
                    #[trigger] arg_trials(a0.trial@, n as nat, i as int)[j],
                    newparam@[1 + j],
                ),
        decreases nt - i,
    {
        let t = cur.trial[i];
        let ghost h = *f;
        let ghost np = newparam@;
        let slot = t.op_slot as usize;
        if t.used {
            if t.unref {
                let mut reused = false;
                if 0 < slot && slot < n {
                    let prev = f.op(call).inrefs[slot];
                    proof {
                        assert(op_wf(f0.ops@[call.0 as int], f0.vns@.len(), f0.ops@.len(), f0.blocks@.len()));
                        assert(f.vns@[prev.0 as int] == f0.vns@[prev.0 as int]);
                    }
                    let pv = f.vn(prev);
                    if !pv.is_constant() && pv.loc == t.addr && pv.size == t.size {
                        newparam.push(prev);
                        reused = true;
                    }
                }
                if !reused {
                    let v = f.new_varnode(t.size, t.addr);
                    let ghost h1 = *f;
                    f.vn_set_active_heritage(v);
                    newparam.push(v);
                    proof {
                        assert forall|k: int| 0 <= k < h.vns@.len() implies #[trigger] f.vns@[k] == h.vns@[k] by {
                            assert(h1.vns@[k] == h.vns@[k]);
                        }
                        assert(grew_from(&h, f, call));
                        lemma_grew_trans(&f0, &h, f, call);
                    }
                }
            } else if slot != 0 && slot < n {
                let mut vn = f.op(call).inrefs[slot];
                proof {
                    assert(op_wf(f0.ops@[call.0 as int], f0.vns@.len(), f0.ops@.len(), f0.blocks@.len()));
                    assert(f.vns@[vn.0 as int] == f0.vns@[vn.0 as int]);
                }
                if f.vn(vn).size > t.size {
                    proof {
                        assert(f.vns@[vn.0 as int].loc.space.0 < f.spaces@.len());
                    }
                    let addr = f.vn(vn).loc;
                    let seq = f.op(call).seqnum;
                    let zero = f.new_const(1, 0);
                    let ghost h1 = *f;
                    let mut ins: Vec<VarnodeId> = Vec::new();
                    ins.push(vn);
                    ins.push(zero);
                    let sub = f.new_op(OpCode::Subpiece, seq, ins);
                    let ghost h2 = *f;
                    match f.op(call).parent {
                        Some(bid) => {
                            proof {
                                assert(op_wf(f.ops@[call.0 as int], f.vns@.len(), f.ops@.len(), f.blocks@.len()));
                            }
                            f.op_set_parent(sub, bid);
                        },
                        None => {},
                    }
                    let ghost h3 = *f;
                    f.op_insert_before(sub, call);
                    let ghost h4 = *f;
                    vn = f.new_output(sub, t.size, addr);
                    proof {
                        assert forall|k: int| 0 <= k < h.vns@.len() implies #[trigger] f.vns@[k] == h.vns@[k] by {
                            assert(h1.vns@[k] == h.vns@[k]);
                            assert(h2.vns@[k] == h1.vns@[k]);
                            assert(h4.vns@[k] == h3.vns@[k]);
                        }
                        assert forall|k: int| 0 <= k < h.ops@.len() && k != call.0 implies #[trigger] f.ops@[k] == h.ops@[k] by {
                            assert(h2.ops@[k] == h1.ops@[k]);
                            assert(h3.ops@[k] == h2.ops@[k]);
                            assert(h4.ops@[k] == h3.ops@[k]);
                            assert(f.ops@[k] == h4.ops@[k]);
                        }
                        assert(grew_from(&h, f, call));
                        lemma_grew_trans(&f0, &h, f, call);
                        assert(f.ops@[sub.0 as int].inrefs@ == seq![f0.ops@[call.0 as int].inrefs@[slot as int], zero]);
                        assert(f.vns@[zero.0 as int] == h1.vns@[zero.0 as int]);
                    }
                }
                newparam.push(vn);
            }
        }
        proof {
            assert(grew_from(&h, f, call)) by {
                if t.used && !t.unref && slot != 0 && slot < n {
                } else if t.used && t.unref {
                }
            }
            let args0 = arg_trials(a0.trial@, n as nat, i as int);
            let args1 = arg_trials(a0.trial@, n as nat, i as int + 1);
            assert(a0.trial@[i as int] == t);
            assert forall|j: int| 0 <= j < args1.len() implies arg_for(&f0, f, call, #[trigger] args1[j], newparam@[1 + j]) by {
                if j < args0.len() {
                    assert(args1[j] == args0[j]);
                    assert(newparam@[1 + j] == np[1 + j]);
                    lemma_arg_for_grow(&f0, &h, f, call, args0[j], np[1 + j]);
                }
            }
            assert forall|j: int| 0 <= j < newparam@.len() implies (#[trigger] newparam@[j]).0 < f.vns@.len() by {
                if j < np.len() {
                    assert(newparam@[j] == np[j]);
                }
            }
        }
        i += 1;
    }
    let ghost fl = *f;
    let mut unwritten = false;
    let mut j: usize = 1;
    while j < newparam.len()
        invariant
            1 <= j <= newparam@.len(),
            forall|k: int| 0 <= k < newparam@.len() ==> (#[trigger] newparam@[k]).0 < f.vns@.len(),
            unwritten == exists|k: int|
                1 <= k < j && f.vns@[newparam@[k].0 as int].def is None && !f.vns@[newparam@[k].0 as int].input
                    && !(#[trigger] f.vns@[newparam@[k].0 as int]).constant,
        decreases newparam@.len() - j,
    {
        let v = f.vn(newparam[j]);
        if v.is_free() && !v.is_constant() {
            unwritten = true;
        }
        j += 1;
    }
    if unwritten {
        let mut found = false;
        let mut k: usize = 0;
        while k < f.calls_awaiting_output.len()
            invariant
                k <= f.calls_awaiting_output@.len(),
                found == exists|q: int| 0 <= q < k && f.calls_awaiting_output@[q] == call,
            decreases f.calls_awaiting_output@.len() - k,
        {
            if f.calls_awaiting_output[k] == call {
                found = true;
            }
            k += 1;
        }
        if !found {
            f.calls_awaiting_output.push(call);
        }
    }
    let ghost fm = *f;
    f.op_set_all_input(call, &newparam);
    proof {
        assert(grew_from(&fm, f, call));
        lemma_grew_trans(&f0, &fm, f, call);
    }
    cur.delete_unused_trials();
    let ghost fs = *f;
    f.set_active_input(call, cur);
    proof {
        let args = arg_trials(a0.trial@, n as nat, nt as int);
        if forall|q: int| 0 <= q < a0.trial@.len() && a0.trial@[q].used ==> gives_arg(#[trigger] a0.trial@[q], n as nat) {
            lemma_renumber_matches_args(a0.trial@, n as nat, nt as int);
        }
        assert forall|j: int| 0 <= j < args.len() implies arg_for(&f0, f, call, #[trigger] args[j], f.ops@[call.0 as int].inrefs@[1 + j]) by {
            lemma_arg_for_grow(&f0, &fl, &fm, call, args[j], newparam@[1 + j]);
            lemma_arg_for_grow(&f0, &fm, f, call, args[j], newparam@[1 + j]);
        }
    }
}

/// The parameters the call is locked to: the storage its callee's recovered prototype reads,
/// when that prototype was recovered and names registers only (at least one).
pub open spec fn locked_reads(f: &Funcdata, call: OpId) -> Option<Seq<(Address, u32)>> {
    match f.call_spec_index_spec(call) {
        Some(p) => {
            let cs = f.call_specs@[p as int].1;
            if cs.reads_recovered && cs.reads is Some && cs.reads->0@.len() > 0 && space_named(
                f.spaces@,
                "register"@,
            ) is Some && forall|k: int|
                0 <= k < cs.reads->0@.len() ==> (#[trigger] cs.reads->0@[k]).0.space == space_named(
                    f.spaces@,
                    "register"@,
                )->0 {
                Some(cs.reads->0@)
            } else {
                None
            }
        },
        None => None,
    }
}

/// The fixed trial for a locked parameter at `(addr, size)` in input `slot`: checked and active.
pub open spec fn locked_trial(addr: Address, size: u32, slot: int) -> ParamTrial {
    ParamTrial {
        addr,
        size,
        op_slot: slot as u32,
        checked: true,
        active: true,
        killed_by_call: false,
        cond_exe_effect: false,
        ind_create_formed: false,
        ancestor_realistic: false,
        ancestor_solid: false,
        used: false,
        def_no_use: false,
        unref: false,
    }
}

/// Lock the call to its callee's recovered prototype when that names registers only: for each
/// parameter, in order, register a fixed active trial and append a new free varnode of its
/// storage and size as the call's next input (the trial naming that input's slot). The trial
/// set stays open, so evidence at the call can still add arguments. Returns whether the call was
/// locked; otherwise nothing changes.
pub fn locked_register_inputs(f: &mut Funcdata, call: OpId) -> (r: bool)
    requires
        old(f).wf(),
        call.0 < old(f).ops@.len(),
        old(f).active_input_spec(call) is Some,
    ensures
        r == locked_reads(old(f), call) is Some,
        !r ==> *final(f) == *old(f),
        r ==> {
            let reads = locked_reads(old(f), call)->0;
            let nv = old(f).vns@.len();
            let ni = old(f).ops@[call.0 as int].inrefs@.len();
            let a = old(f).active_input_spec(call)->0;
            let ins = final(f).ops@[call.0 as int].inrefs@;
            &&& final(f).wf()
            &&& final(f).vns@.len() == nv + reads.len()
            &&& final(f).vns@.take(nv as int) == old(f).vns@
            &&& forall|q: int|
                0 <= q < reads.len() ==> #[trigger] final(f).vns@[nv + q] == Funcdata::fresh_vn(
                    reads[q].0,
                    reads[q].1,
                    None,
                    nv + q,
                    false,
                    false,
                )
            &&& final(f).ops@.len() == old(f).ops@.len()
            &&& forall|i: int| 0 <= i < old(f).ops@.len() && i != call.0 ==> #[trigger] final(f).ops@[i] == old(f).ops@[i]
            &&& ins.len() == ni + reads.len()
            &&& ins.take(ni as int) == old(f).ops@[call.0 as int].inrefs@
            &&& forall|q: int| 0 <= q < reads.len() ==> (#[trigger] ins[ni + q]).0 == nv + q
            &&& same_but_inputs(final(f).ops@[call.0 as int], old(f).ops@[call.0 as int])
            &&& final(f).active_input_spec(call) matches Some(b) && {
                &&& b.trial@.len() == a.trial@.len() + reads.len()
                &&& b.trial@.take(a.trial@.len() as int) == a.trial@
                &&& forall|q: int|
                    0 <= q < reads.len() ==> #[trigger] b.trial@[a.trial@.len() + q] == locked_trial(
                        reads[q].0,
                        reads[q].1,
                        ni + q,
                    )
                &&& b.register_space == a.register_space
                &&& b.numpasses == a.numpasses
                &&& b.maxpass == a.maxpass
                &&& b.fully_checked == a.fully_checked
                &&& b.needs_final_check == a.needs_final_check
                &&& ni + reads.len() <= u32::MAX ==> forall|k: int|
                    a.trial@.len() <= k < b.trial@.len() ==> {
                        let t = #[trigger] b.trial@[k];
                        let v = final(f).vns@[ins[t.op_slot as int].0 as int];
                        &&& t.op_slot < ins.len()
                        &&& v.loc == t.addr && v.size == t.size && v.def is None && !v.input
                    }
            }
            &&& final(f).spaces == old(f).spaces
            &&& final(f).call_specs@ == old(f).call_specs@
            &&& final(f).blocks == old(f).blocks
        },
{
    let p = match f.call_spec_index(call) {
        Some(p) => p,
        None => return false,
    };
    if !f.call_specs[p].1.reads_recovered {
        return false;
    }
    let reads = match &f.call_specs[p].1.reads {
        Some(v) => copy_reads(v),
        None => return false,
    };
    let reg = match f.spaces.by_name("register") {
        Some(r) => r,
        None => return false,
    };
    let mut all_reg = true;
    let mut k: usize = 0;
    while k < reads.len()
        invariant
            k <= reads@.len(),
            all_reg == forall|q: int| 0 <= q < k ==> (#[trigger] reads@[q]).0.space == reg,
        decreases reads@.len() - k,
    {
        if reads[k].0.space != reg {
            all_reg = false;
        }
        k += 1;
    }
    proof {
        let c = choose|q: int|
            0 <= q < f.call_specs@.len() && (#[trigger] f.call_specs@[q]).0 == call && forall|j: int|
                0 <= j < q ==> f.call_specs@[j].0 != call;
        assert(f.call_specs@[c].0 == call);
    }
    if reads.len() == 0 || !all_reg {
        return false;
    }
    let ghost f0 = *f;
    let ghost nv = f0.vns@.len();
    let ghost ni = f0.ops@[call.0 as int].inrefs@.len();
    let mut cur = f.active_input(call).unwrap().copy();
    let ghost a0 = cur;
    let mut i: usize = 0;
    while i < reads.len()
        invariant
            f.wf(),
            f0.wf(),
            call.0 < f.ops@.len(),
            i <= reads@.len(),
            nv == f0.vns@.len(),
            ni == f0.ops@[call.0 as int].inrefs@.len(),
            reg.0 < f0.spaces@.len(),
            forall|q: int| 0 <= q < reads@.len() ==> (#[trigger] reads@[q]).0.space == reg,
            f.spaces == f0.spaces,
            f.call_specs@ == f0.call_specs@,
            f.blocks == f0.blocks,
            f.vns@.len() == nv + i,
            f.vns@.take(nv as int) == f0.vns@,
            forall|q: int|
                0 <= q < i ==> #[trigger] f.vns@[nv + q] == Funcdata::fresh_vn(reads@[q].0, reads@[q].1, None, nv + q, false, false),
            f.ops@.len() == f0.ops@.len(),
            forall|j: int| 0 <= j < f0.ops@.len() && j != call.0 ==> #[trigger] f.ops@[j] == f0.ops@[j],
            f.ops@[call.0 as int].inrefs@.len() == ni + i,
            f.ops@[call.0 as int].inrefs@.take(ni as int) == f0.ops@[call.0 as int].inrefs@,
            forall|q: int| 0 <= q < i ==> (#[trigger] f.ops@[call.0 as int].inrefs@[ni + q]).0 == nv + q,
            same_but_inputs(f.ops@[call.0 as int], f0.ops@[call.0 as int]),
            cur.trial@.len() == a0.trial@.len() + i,
            cur.trial@.take(a0.trial@.len() as int) == a0.trial@,
            forall|q: int|
                0 <= q < i ==> #[trigger] cur.trial@[a0.trial@.len() + q] == locked_trial(reads@[q].0, reads@[q].1, ni + q),
            cur.register_space == a0.register_space,
            cur.numpasses == a0.numpasses,
            cur.maxpass == a0.maxpass,
            cur.fully_checked == a0.fully_checked,
            cur.needs_final_check == a0.needs_final_check,
            f.active_input_spec(call) matches Some(x) && same_active(x, cur),
        decreases reads@.len() - i,
    {
        let (addr, sz) = reads[i];
        let ghost c0 = cur.trial@;
        let ti = cur.register_trial(addr, sz);
        cur.trial[ti].mark_active();
        let ghost g = *f;
        let invn = f.new_varnode(sz, addr);
        let ghost g1 = *f;
        f.op_append_input(call, invn);
        let slot = f.op(call).num_inputs() - 1;
        let mut t = cur.trial[ti];
        t.op_slot = #[verifier::truncate] (slot as u32);
        cur.trial.set(ti, t);
        proof {
            assert(f.vns@.take(nv as int) =~= f0.vns@) by {
                assert forall|q: int| 0 <= q < nv implies f.vns@[q] == f0.vns@[q] by {
                    assert(g.vns@.take(nv as int)[q] == f0.vns@[q]);
                }
            }
            assert forall|q: int| 0 <= q < i + 1 implies #[trigger] f.vns@[nv + q] == Funcdata::fresh_vn(
                reads@[q].0,
                reads@[q].1,
                None,
                nv + q,
                false,
                false,
            ) by {
                if q < i {
                    assert(g.vns@[nv + q] == f.vns@[nv + q]);
                }
            }
            assert(f.ops@[call.0 as int].inrefs@.take(ni as int) =~= f0.ops@[call.0 as int].inrefs@) by {
                assert forall|q: int| 0 <= q < ni implies f.ops@[call.0 as int].inrefs@[q] == f0.ops@[call.0 as int].inrefs@[q] by {
                    assert(g.ops@[call.0 as int].inrefs@.take(ni as int)[q] == f0.ops@[call.0 as int].inrefs@[q]);
                }
            }
            assert forall|q: int| 0 <= q < i + 1 implies (#[trigger] f.ops@[call.0 as int].inrefs@[ni + q]).0 == nv + q by {
                if q < i {
                    assert(f.ops@[call.0 as int].inrefs@[ni + q] == g.ops@[call.0 as int].inrefs@[ni + q]);
                }
            }
            assert(cur.trial@.take(a0.trial@.len() as int) =~= a0.trial@) by {
                assert forall|q: int| 0 <= q < a0.trial@.len() implies cur.trial@[q] == a0.trial@[q] by {
                    assert(c0.take(a0.trial@.len() as int)[q] == a0.trial@[q]);
                }
            }
            assert forall|q: int| 0 <= q < i + 1 implies #[trigger] cur.trial@[a0.trial@.len() + q] == locked_trial(
                reads@[q].0,
                reads@[q].1,
                ni + q,
            ) by {
                if q < i {
                    assert(cur.trial@[a0.trial@.len() + q] == c0[a0.trial@.len() + q]);
                }
            }
            assert forall|j: int| 0 <= j < f0.ops@.len() && j != call.0 implies #[trigger] f.ops@[j] == f0.ops@[j] by {
                assert(g1.ops@[j] == g.ops@[j]);
            }
        }
        f.set_active_input(call, cur.copy());
        i += 1;
    }
    proof {
        if ni + reads@.len() <= u32::MAX {
            assert forall|k: int| a0.trial@.len() <= k < cur.trial@.len() implies {
                let t = #[trigger] cur.trial@[k];
                let v = f.vns@[f.ops@[call.0 as int].inrefs@[t.op_slot as int].0 as int];
                &&& t.op_slot < f.ops@[call.0 as int].inrefs@.len()
                &&& v.loc == t.addr && v.size == t.size && v.def is None && !v.input
            } by {
                let q = k - a0.trial@.len();
                assert(cur.trial@[a0.trial@.len() + q] == locked_trial(reads@[q].0, reads@[q].1, ni + q));
                assert(f.ops@[call.0 as int].inrefs@[ni + q].0 == nv + q);
                assert(f.vns@[nv + q] == Funcdata::fresh_vn(reads@[q].0, reads@[q].1, None, nv + q, false, false));
            }
        }
    }
    f.set_active_input(call, cur);
    true
}

} // verus!
