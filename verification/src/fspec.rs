//! Prototype and call-site facts: the calling convention's stack behaviour, what is known of
//! each call, and the trials that decide which storage carries a parameter or return value.

use vstd::prelude::*;

use crate::space::{Address, RangeList, SpaceId};

verus! {

/// The `extrapop` of a prototype whose stack change across a call is not known.
pub const EXTRAPOP_UNKNOWN: i32 = 0x8000;

/// What a call does to one piece of register storage.
#[derive(Clone, Copy, PartialEq, Eq, Structural, Debug)]
pub enum EffectKind {
    /// The callee preserves the value.
    Unaffected,
    /// The callee may overwrite the value.
    KilledByCall,
    /// The storage holds the return address.
    ReturnAddress,
    /// Nothing is known.
    Unknown,
}

/// The effect of a call on the register storage at `offset` of `size` bytes.
#[derive(Clone, Copy, Debug)]
pub struct EffectRecord {
    pub offset: u64,
    pub size: u32,
    pub effect: EffectKind,
}

/// The calling convention in force for the function and the calls it makes.
#[derive(Debug)]
pub struct ProtoModel {
    /// Bytes the callee pops beyond the return address, or [`EXTRAPOP_UNKNOWN`].
    pub extrapop: i32,
    /// The effect of a call on each register the convention describes.
    pub effectlist: Vec<EffectRecord>,
    /// The stack range that may hold the function's local variables.
    pub localrange: RangeList,
}

/// What is known of one call site.
#[derive(Debug, Default)]
pub struct CallSpec {
    /// The bytes of a return-address push that was already cancelled for this call.
    pub push_neutralized: Option<i64>,
    /// The stack-pointer change across the call, once recovered.
    pub effective_extrapop: Option<i32>,
    /// The bytes the callee pops beyond its parameters' return address, as recovered from its
    /// body, when known.
    pub extrapop: Option<i32>,
    /// The input storage (address, size) the callee was found to read, when its body could be
    /// read.
    pub reads: Option<Vec<(Address, u32)>>,
    /// The callee's own prototype was recovered: [`CallSpec::reads`] lists its parameters.
    pub reads_recovered: bool,
}

/// A copy of a list of storage locations.
pub fn copy_reads(v: &Vec<(Address, u32)>) -> (r: Vec<(Address, u32)>)
    ensures
        r@ == v@,
{
    let mut out: Vec<(Address, u32)> = Vec::new();
    let mut k: usize = 0;
    while k < v.len()
        invariant
            k <= v@.len(),
            out@ == v@.take(k as int),
        decreases v@.len() - k,
    {
        out.push(v[k]);
        k += 1;
        assert(out@ =~= v@.take(k as int));
    }
    assert(out@ =~= v@);
    out
}

/// Two calls' facts are the same (their lists of read storage holding the same entries).
pub open spec fn same_call_spec(a: CallSpec, b: CallSpec) -> bool {
    &&& a.push_neutralized == b.push_neutralized
    &&& a.effective_extrapop == b.effective_extrapop
    &&& a.extrapop == b.extrapop
    &&& a.reads_recovered == b.reads_recovered
    &&& match (a.reads, b.reads) {
        (Some(x), Some(y)) => x@ == y@,
        (None, None) => true,
        _ => false,
    }
}

impl CallSpec {
    /// A copy of this call's facts.
    pub fn copy(&self) -> (r: CallSpec)
        ensures
            same_call_spec(r, *self),
    {
        CallSpec {
            push_neutralized: self.push_neutralized,
            effective_extrapop: self.effective_extrapop,
            extrapop: self.extrapop,
            reads: match &self.reads {
                Some(v) => Some(copy_reads(v)),
                None => None,
            },
            reads_recovered: self.reads_recovered,
        }
    }
}

/// One candidate storage location for a parameter or return value.
#[derive(Clone, Copy, Debug)]
pub struct ParamTrial {
    /// The storage.
    pub addr: Address,
    /// Its size in bytes.
    pub size: u32,
    /// The input slot of the call or return that the trial's varnode occupies.
    pub op_slot: u32,
    /// The trial has been evaluated.
    pub checked: bool,
    /// The trial was found to carry a real value.
    pub active: bool,
    /// Calls may overwrite the trial's storage.
    pub killed_by_call: bool,
    /// A failing path into the trial may be due to conditional execution; test it again.
    pub cond_exe_effect: bool,
    /// A value created by a call reaches the trial.
    pub ind_create_formed: bool,
    /// The trial's value has a realistic ancestor.
    pub ancestor_realistic: bool,
    /// The trial's value is moved into its storage by a solid operation.
    pub ancestor_solid: bool,
    /// The trial was chosen as (part of) the parameter or return value.
    pub used: bool,
    /// The trial is definitely not a parameter or return value.
    pub def_no_use: bool,
    /// The storage is not read at the call: the trial was added to fill a hole in the parameter
    /// list, and its input has yet to be made.
    pub unref: bool,
}

impl ParamTrial {
    /// The trial was evaluated and holds a real value.
    pub fn mark_active(&mut self)
        ensures
            *final(self) == (ParamTrial { checked: true, active: true, ..*old(self) }),
    {
        self.active = true;
        self.checked = true;
    }

    /// The trial was evaluated and holds no value.
    pub fn mark_inactive(&mut self)
        ensures
            *final(self) == (ParamTrial { checked: true, active: false, ..*old(self) }),
    {
        self.active = false;
        self.checked = true;
    }

    /// The trial is definitely not used: evaluated, inactive and unused.
    pub fn mark_no_use(&mut self)
        ensures
            *final(self) == (ParamTrial { checked: true, active: false, used: false, def_no_use: true, ..*old(self) }),
    {
        self.active = false;
        self.used = false;
        self.checked = true;
        self.def_no_use = true;
    }

    /// The trial holds a real value.
    pub fn is_active(&self) -> (r: bool)
        ensures
            r == self.active,
    {
        self.active
    }

    /// The trial was chosen as (part of) the parameter or return value.
    pub fn is_used(&self) -> (r: bool)
        ensures
            r == self.used,
    {
        self.used
    }
}

/// The used trials among the first `n` of `ts`, in order, with input slots numbered from 1.
pub open spec fn used_renumbered(ts: Seq<ParamTrial>, n: int) -> Seq<ParamTrial>
    decreases n,
{
    if n <= 0 {
        Seq::empty()
    } else {
        let prev = used_renumbered(ts, n - 1);
        if ts[n - 1].used {
            prev.push(ParamTrial { op_slot: (prev.len() + 1) as u32, ..ts[n - 1] })
        } else {
            prev
        }
    }
}

/// Two trial sets hold the same trials and facts.
pub open spec fn same_active(a: ParamActive, b: ParamActive) -> bool {
    &&& a.trial@ == b.trial@
    &&& a.register_space == b.register_space
    &&& a.numpasses == b.numpasses
    &&& a.maxpass == b.maxpass
    &&& a.fully_checked == b.fully_checked
    &&& a.needs_final_check == b.needs_final_check
}

/// The set of trials under evaluation for one call's inputs or for the function's output.
#[derive(Clone, Debug)]
pub struct ParamActive {
    /// The trials, in registration order.
    pub trial: Vec<ParamTrial>,
    /// The space of the registers trials are drawn from.
    pub register_space: Option<SpaceId>,
    /// Evaluation passes made so far.
    pub numpasses: i32,
    /// Passes after which the decisions are committed.
    pub maxpass: i32,
    /// Every trial has been decided.
    pub fully_checked: bool,
    /// Some trial was found active only thanks to conditional execution, and needs a final
    /// check once the control flow has settled.
    pub needs_final_check: bool,
}

impl ParamActive {
    /// An empty trial set.
    pub fn new(register_space: Option<SpaceId>) -> (r: ParamActive)
        ensures
            r.trial@.len() == 0,
            r.register_space == register_space,
            r.numpasses == 0,
            r.maxpass == 0,
            !r.fully_checked,
            !r.needs_final_check,
    {
        ParamActive {
            trial: Vec::new(),
            register_space,
            numpasses: 0,
            maxpass: 0,
            fully_checked: false,
            needs_final_check: false,
        }
    }

    /// A copy of this trial set.
    pub fn copy(&self) -> (r: ParamActive)
        ensures
            same_active(r, *self),
    {
        let mut trial: Vec<ParamTrial> = Vec::new();
        let mut k: usize = 0;
        while k < self.trial.len()
            invariant
                k <= self.trial@.len(),
                trial@ == self.trial@.take(k as int),
            decreases self.trial@.len() - k,
        {
            trial.push(self.trial[k]);
            k += 1;
            assert(trial@ =~= self.trial@.take(k as int));
        }
        assert(trial@ =~= self.trial@);
        ParamActive {
            trial,
            register_space: self.register_space,
            numpasses: self.numpasses,
            maxpass: self.maxpass,
            fully_checked: self.fully_checked,
            needs_final_check: self.needs_final_check,
        }
    }

    /// Slate the trials for a final check.
    pub fn mark_needs_final_check(&mut self)
        ensures
            *final(self) == (ParamActive { needs_final_check: true, ..*old(self) }),
    {
        self.needs_final_check = true;
    }

    /// The number of trials.
    pub fn num_trials(&self) -> (r: usize)
        ensures
            r == self.trial@.len(),
    {
        self.trial.len()
    }

    /// Set the number of passes after which decisions are committed.
    pub fn set_max_pass(&mut self, v: i32)
        ensures
            *final(self) == (ParamActive { maxpass: v, ..*old(self) }),
    {
        self.maxpass = v;
    }

    /// Count one more evaluation pass.
    pub fn finish_pass(&mut self)
        ensures
            *final(self) == (ParamActive { numpasses: old(self).numpasses.wrapping_add(1), ..*old(self) }),
    {
        self.numpasses = self.numpasses.wrapping_add(1);
    }

    /// Record that every trial has been decided.
    pub fn mark_fully_checked(&mut self)
        ensures
            *final(self) == (ParamActive { fully_checked: true, ..*old(self) }),
    {
        self.fully_checked = true;
    }

    /// Keep only the trials chosen for the parameter list, in order, renumbering their input
    /// slots from 1 (slot 0 being the call's target).
    pub fn delete_unused_trials(&mut self)
        requires
            old(self).trial@.len() < u32::MAX,
        ensures
            final(self).trial@ == used_renumbered(old(self).trial@, old(self).trial@.len() as int),
            final(self).register_space == old(self).register_space,
            final(self).numpasses == old(self).numpasses,
            final(self).maxpass == old(self).maxpass,
            final(self).fully_checked == old(self).fully_checked,
            final(self).needs_final_check == old(self).needs_final_check,
    {
        let mut newtrials: Vec<ParamTrial> = Vec::new();
        let mut slot: u32 = 1;
        let mut i: usize = 0;
        while i < self.trial.len()
            invariant
                i <= self.trial@.len(),
                self.trial@.len() < u32::MAX,
                newtrials@ == used_renumbered(self.trial@, i as int),
                newtrials@.len() <= i,
                slot == newtrials@.len() + 1,
            decreases self.trial@.len() - i,
        {
            let t = self.trial[i];
            if t.used {
                newtrials.push(ParamTrial { op_slot: slot, ..t });
                slot = slot + 1;
            }
            i += 1;
        }
        self.trial = newtrials;
    }

    /// Register a new unchecked trial for `(addr, size)` at slot 0, returning its index.
    pub fn register_trial(&mut self, addr: Address, size: u32) -> (r: usize)
        ensures
            r == old(self).trial@.len(),
            final(self).trial@ == old(self).trial@.push(
                ParamTrial {
                    addr,
                    size,
                    op_slot: 0,
                    checked: false,
                    active: false,
                    killed_by_call: false,
                    cond_exe_effect: false,
                    ind_create_formed: false,
                    ancestor_realistic: false,
                    ancestor_solid: false,
                    used: false,
                    def_no_use: false,
                    unref: false,
                },
            ),
            final(self).register_space == old(self).register_space,
            final(self).numpasses == old(self).numpasses,
            final(self).maxpass == old(self).maxpass,
            final(self).fully_checked == old(self).fully_checked,
            final(self).needs_final_check == old(self).needs_final_check,
    {
        let r = self.trial.len();
        self.trial.push(
            ParamTrial {
                addr,
                size,
                op_slot: 0,
                checked: false,
                active: false,
                killed_by_call: false,
                cond_exe_effect: false,
                ind_create_formed: false,
                ancestor_realistic: false,
                ancestor_solid: false,
                used: false,
                def_no_use: false,
                unref: false,
            },
        );
        r
    }
}

} // verus!
