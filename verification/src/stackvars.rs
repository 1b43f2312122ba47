//! Stack-pointer flow: following the stack pointer through the function as an offset from its
//! value on entry.
//!
//! Where a call's effect on the stack pointer is not known, the stack pointer is modelled
//! across it by an INDIRECT. [`analyze_extra_pop`] recovers those effects: every reference to
//! the stack pointer becomes a variable of a linear system whose equations come from the ops
//! that define them ([`StackSolver`]); solving it rewrites each solved definition into
//! `sp_input + <constant>`.

use vstd::prelude::*;
use vstd::multiset::Multiset;

use crate::fspec::EXTRAPOP_UNKNOWN;
use crate::funcdata::{BlockId, Funcdata, OpId, VarnodeId};
use crate::opcode::OpCode;
use crate::space::{byte_mask, calc_mask, space_named, Address, SpaceId};

verus! {

broadcast use vstd::seq_lib::group_to_multiset_ensures;

/// One equation of the stack system: `var1 - var2 = rhs`.
#[derive(Clone, Copy, PartialEq, Eq, Structural, Debug)]
pub struct StackEqn {
    pub var1: i32,
    pub var2: i32,
    pub rhs: i32,
}

/// The value of a variable that has no solution yet.
pub const NO_SOLN: i32 = 65535;

/// Solves for the stack-pointer value at every reference to the stack pointer.
#[derive(Default, Debug)]
pub struct StackSolver {
    /// Equations from ops that explicitly change the stack pointer.
    pub eqs: Vec<StackEqn>,
    /// Guessed equations, for the part of the system the ops leave open.
    pub guess: Vec<StackEqn>,
    /// The variables: one per reference to the stack pointer; the function input first.
    pub vnlist: Vec<VarnodeId>,
    /// Per variable, the index of the stack pointer an INDIRECT carried across its call, or -1.
    pub companion: Vec<i32>,
    /// Per variable, its solution, or [`NO_SOLN`].
    pub soln: Vec<i32>,
    /// How many variables no equation could be formed for.
    pub missedvariables: i32,
}

/// Every variable named by the equations is one of the `n` variables.
pub open spec fn eqs_in_range(eqs: Seq<StackEqn>, n: nat) -> bool {
    forall|k: int| 0 <= k < eqs.len() ==> 0 <= (#[trigger] eqs[k]).var1 < n && 0 <= eqs[k].var2 < n
}

/// Variable `i`'s solution follows from an equation `var1 - var2 = rhs` naming it second:
/// it is `var1`'s solution less `rhs`, or (when `var1` was itself unsolved at the time, so that
/// the sentinel stood in for its value) the sentinel less `rhs`.
pub open spec fn derived(eqs: Seq<StackEqn>, soln: Seq<i32>, i: int) -> bool {
    exists|k: int|
        0 <= k < eqs.len() && (#[trigger] eqs[k]).var2 == i && (soln[i] == vstd::wrapping::i32_specs::wrapping_sub(
            soln[eqs[k].var1 as int],
            eqs[k].rhs,
        ) || soln[i] == vstd::wrapping::i32_specs::wrapping_sub(NO_SOLN, eqs[k].rhs))
}

/// Variable `i`'s solution follows from a guess naming it: the other variable's solution less
/// (or plus) the guessed difference.
pub open spec fn guessed(guess: Seq<StackEqn>, soln: Seq<i32>, i: int) -> bool {
    exists|k: int|
        0 <= k < guess.len() && ({
            let g = #[trigger] guess[k];
            ||| g.var2 == i && soln[g.var1 as int] != NO_SOLN && soln[i] == vstd::wrapping::i32_specs::wrapping_sub(
                soln[g.var1 as int],
                g.rhs,
            )
            ||| g.var1 == i && soln[g.var2 as int] != NO_SOLN && soln[i] == vstd::wrapping::i32_specs::wrapping_add(
                soln[g.var2 as int],
                g.rhs,
            )
        })
}

/// Solutions only ever fill unsolved variables: what follows from an equation still does.
proof fn lemma_derived_stable(eqs: Seq<StackEqn>, a: Seq<i32>, b: Seq<i32>, i: int)
    requires
        derived(eqs, a, i),
        eqs_in_range(eqs, a.len()),
        a.len() == b.len(),
        0 <= i < a.len(),
        forall|j: int| 0 <= j < a.len() && a[j] != NO_SOLN ==> #[trigger] b[j] == a[j],
        a[i] != NO_SOLN,
    ensures
        derived(eqs, b, i),
{
    let k = choose|k: int|
        0 <= k < eqs.len() && (#[trigger] eqs[k]).var2 == i && (a[i] == vstd::wrapping::i32_specs::wrapping_sub(
            a[eqs[k].var1 as int],
            eqs[k].rhs,
        ) || a[i] == vstd::wrapping::i32_specs::wrapping_sub(NO_SOLN, eqs[k].rhs));
    let w = eqs[k].var1 as int;
    assert(b[i] == a[i]);
    if a[w] != NO_SOLN {
        assert(b[w] == a[w]);
    }
}

/// Solutions only ever fill unsolved variables: what follows from a guess still does.
proof fn lemma_guessed_stable(guess: Seq<StackEqn>, a: Seq<i32>, b: Seq<i32>, i: int)
    requires
        guessed(guess, a, i),
        eqs_in_range(guess, a.len()),
        a.len() == b.len(),
        0 <= i < a.len(),
        forall|j: int| 0 <= j < a.len() && a[j] != NO_SOLN ==> #[trigger] b[j] == a[j],
        a[i] != NO_SOLN,
    ensures
        guessed(guess, b, i),
{
    let k = choose|k: int|
        0 <= k < guess.len() && ({
            let g = #[trigger] guess[k];
            ||| g.var2 == i && a[g.var1 as int] != NO_SOLN && a[i] == vstd::wrapping::i32_specs::wrapping_sub(
                a[g.var1 as int],
                g.rhs,
            )
            ||| g.var1 == i && a[g.var2 as int] != NO_SOLN && a[i] == vstd::wrapping::i32_specs::wrapping_add(
                a[g.var2 as int],
                g.rhs,
            )
        });
    let g = guess[k];
    assert(b[i] == a[i]);
    if a[g.var1 as int] != NO_SOLN {
        assert(b[g.var1 as int] == a[g.var1 as int]);
    }
    if a[g.var2 as int] != NO_SOLN {
        assert(b[g.var2 as int] == a[g.var2 as int]);
    }
}

/// A walk from a guess keeps every solved variable justified.
proof fn lemma_justified_step(
    eqs: Seq<StackEqn>,
    guess: Seq<StackEqn>,
    a: Seq<i32>,
    b: Seq<i32>,
    varnum: int,
    val: i32,
    gk: int,
)
    requires
        justified(eqs, guess, a),
        eqs_in_range(eqs, a.len()),
        eqs_in_range(guess, a.len()),
        a.len() == b.len(),
        forall|j: int| 0 <= j < a.len() && a[j] != NO_SOLN ==> #[trigger] b[j] == a[j],
        forall|j: int|
            0 <= j < a.len() && a[j] == NO_SOLN && #[trigger] b[j] != NO_SOLN ==> (j == varnum && b[j] == val) || derived(
                eqs,
                b,
                j,
            ),
        0 <= gk < guess.len(),
        ({
            let g = guess[gk];
            ||| g.var2 == varnum && a[g.var1 as int] != NO_SOLN && val == vstd::wrapping::i32_specs::wrapping_sub(
                a[g.var1 as int],
                g.rhs,
            )
            ||| g.var1 == varnum && a[g.var2 as int] != NO_SOLN && val == vstd::wrapping::i32_specs::wrapping_add(
                a[g.var2 as int],
                g.rhs,
            )
        }),
    ensures
        justified(eqs, guess, b),
{
    assert forall|i: int| 1 <= i < b.len() && #[trigger] b[i] != NO_SOLN implies derived(eqs, b, i) || guessed(guess, b, i) by {
        if a[i] != NO_SOLN {
            if derived(eqs, a, i) {
                lemma_derived_stable(eqs, a, b, i);
            } else {
                lemma_guessed_stable(guess, a, b, i);
            }
        } else if !derived(eqs, b, i) {
            let g = guess[gk];
            if a[g.var1 as int] != NO_SOLN {
                assert(b[g.var1 as int] == a[g.var1 as int]);
            }
            if a[g.var2 as int] != NO_SOLN {
                assert(b[g.var2 as int] == a[g.var2 as int]);
            }
            assert(guess[gk] == g);
        }
    }
}

/// Every solved variable other than the first follows from an equation or a guess.
pub open spec fn justified(eqs: Seq<StackEqn>, guess: Seq<StackEqn>, soln: Seq<i32>) -> bool {
    forall|i: int| 1 <= i < soln.len() && #[trigger] soln[i] != NO_SOLN ==> derived(eqs, soln, i) || guessed(guess, soln, i)
}

/// Every equation leads from a solved variable to a solved one: once variable 0 is solved,
/// so is every variable the equations link to it.
pub open spec fn closed(eqs: Seq<StackEqn>, soln: Seq<i32>) -> bool {
    forall|k: int|
        0 <= k < eqs.len() && soln[(#[trigger] eqs[k]).var1 as int] != NO_SOLN ==> soln[eqs[k].var2 as int] != NO_SOLN
}

/// Some equation leads from variable `a` to variable `b`.
pub open spec fn eq_step(eqs: Seq<StackEqn>, a: i32, b: i32) -> bool {
    exists|k: int| 0 <= k < eqs.len() && (#[trigger] eqs[k]).var1 == a && eqs[k].var2 == b
}

/// `path` walks the equations: each step goes from an equation's first variable to its second.
pub open spec fn eq_path(eqs: Seq<StackEqn>, path: Seq<i32>) -> bool {
    &&& path.len() > 0
    &&& forall|t: int| 0 <= t < path.len() - 1 ==> #[trigger] eq_step(eqs, path[t], path[t + 1])
}

/// In a [`closed`] solution, every variable a walk along the equations reaches from a solved
/// variable is solved: once variable 0 is solved, so is everything linked to it.
pub proof fn law_linked_solved(eqs: Seq<StackEqn>, soln: Seq<i32>, path: Seq<i32>)
    requires
        closed(eqs, soln),
        eq_path(eqs, path),
        eqs_in_range(eqs, soln.len()),
        0 <= path[0] < soln.len(),
        soln[path[0] as int] != NO_SOLN,
    ensures
        soln[path.last() as int] != NO_SOLN,
    decreases path.len(),
{
    if path.len() > 1 {
        let front = path.drop_last();
        assert forall|t: int| 0 <= t < front.len() - 1 implies #[trigger] eq_step(eqs, front[t], front[t + 1]) by {
            assert(front[t] == path[t] && front[t + 1] == path[t + 1]);
            assert(eq_step(eqs, path[t], path[t + 1]));
        }
        law_linked_solved(eqs, soln, front);
        let t = path.len() - 2;
        assert(path[t + 1] == path.last());
        assert(eq_step(eqs, path[t], path[t + 1]));
        let k = choose|k: int| 0 <= k < eqs.len() && (#[trigger] eqs[k]).var1 == path[t] && eqs[k].var2 == path[t + 1];
        assert(soln[eqs[k].var1 as int] != NO_SOLN);
    }
}

/// Some equation leads from a solved variable to a value equal to the sentinel [`NO_SOLN`],
/// which cannot be told apart from no solution.
pub open spec fn eq_hits_sentinel(eqs: Seq<StackEqn>, soln: Seq<i32>) -> bool {
    exists|k: int|
        0 <= k < eqs.len() && soln[(#[trigger] eqs[k]).var1 as int] != NO_SOLN && vstd::wrapping::i32_specs::wrapping_sub(
            soln[eqs[k].var1 as int],
            eqs[k].rhs,
        ) == NO_SOLN
}

/// Some guess leads from a solved variable to a value equal to the sentinel [`NO_SOLN`].
pub open spec fn guess_hits_sentinel(guess: Seq<StackEqn>, soln: Seq<i32>) -> bool {
    exists|k: int|
        0 <= k < guess.len() && ({
            let g = #[trigger] guess[k];
            ||| soln[g.var1 as int] != NO_SOLN && vstd::wrapping::i32_specs::wrapping_sub(soln[g.var1 as int], g.rhs) == NO_SOLN
            ||| soln[g.var2 as int] != NO_SOLN && vstd::wrapping::i32_specs::wrapping_add(soln[g.var2 as int], g.rhs) == NO_SOLN
        })
}

/// `b` keeps every solution `a` has.
pub open spec fn keeps_solved(a: Seq<i32>, b: Seq<i32>) -> bool {
    &&& b.len() == a.len()
    &&& forall|i: int| 0 <= i < a.len() && a[i] != NO_SOLN ==> #[trigger] b[i] == a[i]
}

/// How many variables have no solution yet.
pub open spec fn unsolved(s: Seq<i32>) -> nat
    decreases s.len(),
{
    if s.len() == 0 {
        0
    } else {
        unsolved(s.drop_last()) + if s.last() == NO_SOLN { 1nat } else { 0nat }
    }
}

proof fn lemma_unsolved_le(s: Seq<i32>)
    ensures
        unsolved(s) <= s.len(),
    decreases s.len(),
{
    if s.len() > 0 {
        lemma_unsolved_le(s.drop_last());
    }
}

/// Solving one more variable leaves one fewer unsolved.
proof fn lemma_unsolved_update(s: Seq<i32>, i: int, v: i32)
    requires
        0 <= i < s.len(),
        s[i] == NO_SOLN,
        v != NO_SOLN,
    ensures
        unsolved(s.update(i, v)) + 1 == unsolved(s),
    decreases s.len(),
{
    let t = s.update(i, v);
    if i == s.len() - 1 {
        assert(t.drop_last() =~= s.drop_last());
    } else {
        assert(t.drop_last() =~= s.drop_last().update(i, v));
        lemma_unsolved_update(s.drop_last(), i, v);
    }
}

/// Sentinel hits stay once found: solutions are never taken back.
proof fn lemma_hits_kept(eqs: Seq<StackEqn>, guess: Seq<StackEqn>, a: Seq<i32>, b: Seq<i32>)
    requires
        keeps_solved(a, b),
        eqs_in_range(eqs, a.len()),
        eqs_in_range(guess, a.len()),
    ensures
        eq_hits_sentinel(eqs, a) ==> eq_hits_sentinel(eqs, b),
        guess_hits_sentinel(guess, a) ==> guess_hits_sentinel(guess, b),
{
    if eq_hits_sentinel(eqs, a) {
        let k = choose|k: int|
            0 <= k < eqs.len() && a[(#[trigger] eqs[k]).var1 as int] != NO_SOLN && vstd::wrapping::i32_specs::wrapping_sub(
                a[eqs[k].var1 as int],
                eqs[k].rhs,
            ) == NO_SOLN;
        assert(b[eqs[k].var1 as int] == a[eqs[k].var1 as int]);
    }
    if guess_hits_sentinel(guess, a) {
        let k = choose|k: int|
            0 <= k < guess.len() && ({
                let g = #[trigger] guess[k];
                ||| a[g.var1 as int] != NO_SOLN && vstd::wrapping::i32_specs::wrapping_sub(a[g.var1 as int], g.rhs) == NO_SOLN
                ||| a[g.var2 as int] != NO_SOLN && vstd::wrapping::i32_specs::wrapping_add(a[g.var2 as int], g.rhs) == NO_SOLN
            });
        let g = guess[k];
        if a[g.var1 as int] != NO_SOLN {
            assert(b[g.var1 as int] == a[g.var1 as int]);
        }
        if a[g.var2 as int] != NO_SOLN {
            assert(b[g.var2 as int] == a[g.var2 as int]);
        }
    }
}

/// [`closed`], but for the variables still waiting in the walk's `ws`, and for the
/// equations of `cur` from index `top` on.
spec fn closed_except(eqs: Seq<StackEqn>, soln: Seq<i32>, ws: Seq<i32>, cur: i32, top: int) -> bool {
    forall|k: int|
        0 <= k < eqs.len() && soln[(#[trigger] eqs[k]).var1 as int] != NO_SOLN && !ws.contains(eqs[k].var1) && !(eqs[k].var1
            == cur && k >= top) ==> soln[eqs[k].var2 as int] != NO_SOLN
}

proof fn lemma_walk_starts(eqs: Seq<StackEqn>, a: Seq<i32>, b: Seq<i32>, vn: i32, val: i32)
    requires
        closed(eqs, a),
        0 <= vn < a.len(),
        eqs_in_range(eqs, a.len()),
        b == a.update(vn as int, val),
        val != NO_SOLN,
    ensures
        closed_except(eqs, b, seq![vn], -1i32, 0),
{
    assert forall|k: int|
        0 <= k < eqs.len() && b[(#[trigger] eqs[k]).var1 as int] != NO_SOLN && !seq![vn].contains(eqs[k].var1) && !(eqs[k].var1
            == -1 && k >= 0) implies b[eqs[k].var2 as int] != NO_SOLN by {
        assert(seq![vn][0] == vn);
        assert(eqs[k].var1 != vn);
        assert(a[eqs[k].var1 as int] != NO_SOLN);
        assert(a[eqs[k].var2 as int] != NO_SOLN);
    }
}

proof fn lemma_walk_pops(eqs: Seq<StackEqn>, soln: Seq<i32>, before: Seq<i32>, ws: Seq<i32>, cur: i32, top: int)
    requires
        closed_except(eqs, soln, before, -1i32, 0),
        before == ws.push(cur),
        eqs_in_range(eqs, soln.len()),
        forall|k: int| 0 <= k < top ==> eqs[k].var1 < cur,
    ensures
        closed_except(eqs, soln, ws, cur, top),
{
    assert forall|k: int|
        0 <= k < eqs.len() && soln[(#[trigger] eqs[k]).var1 as int] != NO_SOLN && !ws.contains(eqs[k].var1) && !(eqs[k].var1
            == cur && k >= top) implies soln[eqs[k].var2 as int] != NO_SOLN by {
        if eqs[k].var1 != cur {
            if before.contains(eqs[k].var1) {
                let j = choose|j: int| 0 <= j < before.len() && before[j] == eqs[k].var1;
                if j < ws.len() {
                    assert(ws[j] == before[j]);
                }
            }
        }
    }
}

proof fn lemma_walk_step(
    eqs: Seq<StackEqn>,
    pre: Seq<i32>,
    soln: Seq<i32>,
    pre_ws: Seq<i32>,
    ws: Seq<i32>,
    cur: i32,
    top: int,
)
    requires
        0 <= top < eqs.len(),
        eqs[top].var1 == cur,
        eqs_in_range(eqs, pre.len()),
        soln.len() == pre.len(),
        closed_except(eqs, pre, pre_ws, cur, top),
        ({
            let v2 = eqs[top].var2 as int;
            ||| soln == pre && ws == pre_ws && pre[v2] != NO_SOLN
            ||| pre[v2] == NO_SOLN && soln == pre.update(v2, soln[v2]) && soln[v2] != NO_SOLN && ws == pre_ws.push(
                eqs[top].var2,
            )
        }),
    ensures
        closed_except(eqs, soln, ws, cur, top + 1),
{
    let v2 = eqs[top].var2;
    assert forall|k: int|
        0 <= k < eqs.len() && soln[(#[trigger] eqs[k]).var1 as int] != NO_SOLN && !ws.contains(eqs[k].var1) && !(eqs[k].var1
            == cur && k >= top + 1) implies soln[eqs[k].var2 as int] != NO_SOLN by {
        let w = eqs[k].var1;
        if k != top {
            if soln != pre {
                if w == v2 {
                    assert(ws[ws.len() - 1] == v2);
                }
                assert(pre[w as int] != NO_SOLN);
                if pre_ws.contains(w) {
                    let j = choose|j: int| 0 <= j < pre_ws.len() && pre_ws[j] == w;
                    assert(ws[j] == pre_ws[j]);
                }
            }
        }
    }
}

proof fn lemma_walk_moves_on(eqs: Seq<StackEqn>, soln: Seq<i32>, ws: Seq<i32>, cur: i32, top: int)
    requires
        closed_except(eqs, soln, ws, cur, top),
        sorted_by_var1(eqs),
        0 <= top <= eqs.len(),
        top == eqs.len() || eqs[top].var1 != cur,
        forall|k: int| top <= k < eqs.len() ==> eqs[k].var1 >= cur,
    ensures
        closed_except(eqs, soln, ws, -1i32, 0),
{
    assert forall|k: int|
        0 <= k < eqs.len() && soln[(#[trigger] eqs[k]).var1 as int] != NO_SOLN && !ws.contains(eqs[k].var1) && !(eqs[k].var1
            == -1 && k >= 0) implies soln[eqs[k].var2 as int] != NO_SOLN by {
        if eqs[k].var1 == cur && k >= top {
            assert(eqs[top].var1 <= eqs[k].var1);
        }
    }
}

/// The equations together with their mirror images, so that each can be read either way.
pub open spec fn both_ways(eqs: Seq<StackEqn>) -> Seq<StackEqn> {
    eqs + eqs.map_values(|e: StackEqn| mirror(e))
}

/// Two lists holding the same equations, in any order, justify and close the same solutions
/// and meet the sentinel alike.
proof fn lemma_same_eqs(a: Seq<StackEqn>, b: Seq<StackEqn>, guess: Seq<StackEqn>, soln: Seq<i32>)
    requires
        a.to_multiset() == b.to_multiset(),
    ensures
        justified(a, guess, soln) == justified(b, guess, soln),
        closed(a, soln) == closed(b, soln),
        eq_hits_sentinel(a, soln) == eq_hits_sentinel(b, soln),
{
    broadcast use vstd::seq_lib::group_to_multiset_ensures;
    assert forall|k: int| 0 <= k < a.len() implies b.contains(#[trigger] a[k]) by {
        assert(a.contains(a[k]));
        assert(a.to_multiset().count(a[k]) > 0);
        assert(b.to_multiset().count(a[k]) > 0);
    }
    assert forall|k: int| 0 <= k < b.len() implies a.contains(#[trigger] b[k]) by {
        assert(b.contains(b[k]));
        assert(b.to_multiset().count(b[k]) > 0);
        assert(a.to_multiset().count(b[k]) > 0);
    }
    lemma_same_eqs_dir(a, b, guess, soln);
    lemma_same_eqs_dir(b, a, guess, soln);
}

proof fn lemma_same_eqs_dir(a: Seq<StackEqn>, b: Seq<StackEqn>, guess: Seq<StackEqn>, soln: Seq<i32>)
    requires
        forall|k: int| 0 <= k < a.len() ==> b.contains(#[trigger] a[k]),
        forall|k: int| 0 <= k < b.len() ==> a.contains(#[trigger] b[k]),
    ensures
        justified(a, guess, soln) ==> justified(b, guess, soln),
        closed(a, soln) ==> closed(b, soln),
        eq_hits_sentinel(a, soln) ==> eq_hits_sentinel(b, soln),
{
    if justified(a, guess, soln) {
        assert forall|i: int| 1 <= i < soln.len() && #[trigger] soln[i] != NO_SOLN implies derived(b, soln, i) || guessed(
            guess,
            soln,
            i,
        ) by {
            if derived(a, soln, i) {
                let k = choose|k: int|
                    0 <= k < a.len() && (#[trigger] a[k]).var2 == i && (soln[i] == vstd::wrapping::i32_specs::wrapping_sub(
                        soln[a[k].var1 as int],
                        a[k].rhs,
                    ) || soln[i] == vstd::wrapping::i32_specs::wrapping_sub(NO_SOLN, a[k].rhs));
                let m = choose|m: int| 0 <= m < b.len() && b[m] == a[k];
                assert(b[m] == a[k]);
            }
        }
    }
    if closed(a, soln) {
        assert forall|k: int| 0 <= k < b.len() && soln[(#[trigger] b[k]).var1 as int] != NO_SOLN implies soln[b[k].var2 as int]
            != NO_SOLN by {
            let m = choose|m: int| 0 <= m < a.len() && a[m] == b[k];
            assert(a[m] == b[k]);
        }
    }
    if eq_hits_sentinel(a, soln) {
        let k = choose|k: int|
            0 <= k < a.len() && soln[(#[trigger] a[k]).var1 as int] != NO_SOLN && vstd::wrapping::i32_specs::wrapping_sub(
                soln[a[k].var1 as int],
                a[k].rhs,
            ) == NO_SOLN;
        let m = choose|m: int| 0 <= m < b.len() && b[m] == a[k];
        assert(b[m] == a[k]);
    }
}

/// The equations are ordered by their first variable.
pub open spec fn sorted_by_var1(eqs: Seq<StackEqn>) -> bool {
    forall|i: int, j: int| 0 <= i < j < eqs.len() ==> (#[trigger] eqs[i]).var1 <= (#[trigger] eqs[j]).var1
}

/// The equation read in the other direction: `var2 - var1 = -rhs`.
pub open spec fn mirror(e: StackEqn) -> StackEqn {
    StackEqn { var1: e.var2, var2: e.var1, rhs: vstd::wrapping::i32_specs::wrapping_sub(0, e.rhs) }
}

/// The first position in the ordered `eqs` whose first variable is not below `key`.
fn lower_bound(eqs: &Vec<StackEqn>, key: i32) -> (r: usize)
    requires
        sorted_by_var1(eqs@),
    ensures
        r <= eqs@.len(),
        forall|k: int| 0 <= k < r ==> eqs@[k].var1 < key,
        forall|k: int| r <= k < eqs@.len() ==> eqs@[k].var1 >= key,
{
    let mut lo: usize = 0;
    let mut hi: usize = eqs.len();
    while lo < hi
        invariant
            lo <= hi <= eqs@.len(),
            sorted_by_var1(eqs@),
            forall|k: int| 0 <= k < lo ==> eqs@[k].var1 < key,
            forall|k: int| hi <= k < eqs@.len() ==> eqs@[k].var1 >= key,
        decreases hi - lo,
    {
        let mid = lo + (hi - lo) / 2;
        if eqs[mid].var1 < key {
            lo = mid + 1;
        } else {
            hi = mid;
        }
    }
    lo
}

/// `eqs` ordered by first variable; equations with equal first variables keep their order.
fn sort_by_var1(eqs: &Vec<StackEqn>) -> (r: Vec<StackEqn>)
    ensures
        sorted_by_var1(r@),
        r@.to_multiset() == eqs@.to_multiset(),
        r@.len() == eqs@.len(),
{
    let mut res: Vec<StackEqn> = Vec::new();
    let mut i: usize = 0;
    while i < eqs.len()
        invariant
            i <= eqs@.len(),
            sorted_by_var1(res@),
            res@.to_multiset() == eqs@.take(i as int).to_multiset(),
            res@.len() == i,
        decreases eqs@.len() - i,
    {
        let e = eqs[i];
        let mut j: usize = res.len();
        while j > 0 && res[j - 1].var1 > e.var1
            invariant
                j <= res@.len(),
                sorted_by_var1(res@),
                forall|k: int| j <= k < res@.len() ==> res@[k].var1 > e.var1,
            decreases j,
        {
            j -= 1;
        }
        proof {
            assert(forall|k: int| 0 <= k < j ==> res@[k].var1 <= e.var1) by {
                if j > 0 {
                    assert(res@[j - 1].var1 <= e.var1);
                }
            }
            vstd::seq_lib::to_multiset_insert(res@, j as int, e);
        }
        res.insert(j, e);
        proof {
            assert(eqs@.take(i + 1) =~= eqs@.take(i as int).push(e));
            assert forall|a: int, b: int| 0 <= a < b < res@.len() implies (#[trigger] res@[a]).var1 <= (#[trigger] res@[b]).var1 by {
                let old_res = res@.remove(j as int);
                if a < j && b < j {
                    assert(res@[a] == old_res[a] && res@[b] == old_res[b]);
                } else if a < j && b == j {
                } else if a < j && b > j {
                    assert(res@[a] == old_res[a] && res@[b] == old_res[b - 1]);
                } else if a == j {
                    assert(res@[b] == old_res[b - 1]);
                } else {
                    assert(res@[a] == old_res[a - 1] && res@[b] == old_res[b - 1]);
                }
            }
        }
        i += 1;
    }
    assert(eqs@.take(eqs@.len() as int) =~= eqs@);
    res
}

/// Equations whose multiset is that of in-range equations and their mirrors are in range.
proof fn lemma_dup_in_range(r: Seq<StackEqn>, a: Seq<StackEqn>, n: nat)
    requires
        eqs_in_range(a, n),
        r.to_multiset() == (a + a.map_values(|e: StackEqn| mirror(e))).to_multiset(),
    ensures
        eqs_in_range(r, n),
{
    let all = a + a.map_values(|e: StackEqn| mirror(e));
    assert forall|k: int| 0 <= k < r.len() implies 0 <= (#[trigger] r[k]).var1 < n && 0 <= r[k].var2 < n by {
        vstd::seq_lib::to_multiset_contains(r, r[k]);
        assert(r.contains(r[k]));
        vstd::seq_lib::to_multiset_contains(all, r[k]);
        let j = choose|j: int| 0 <= j < all.len() && all[j] == r[k];
        if j < a.len() {
            assert(all[j] == a[j]);
        } else {
            assert(all[j] == mirror(a[j - a.len()]));
        }
    }
}

/// The ordering class of a stack-pointer reference: inputs, then written varnodes, then free ones.
pub open spec fn ref_class(v: crate::funcdata::Varnode) -> int {
    if v.input {
        0
    } else if v.def is Some {
        1
    } else {
        2
    }
}

/// Varnode `i` is an input or written reference to the storage `(addr, size)`.
pub open spec fn is_sp_ref(f: &Funcdata, i: int, addr: Address, size: u32) -> bool {
    0 <= i < f.vns@.len() && f.vns@[i].loc == addr && f.vns@[i].size == size && ref_class(f.vns@[i]) < 2
}

/// `a` comes before `b` in the order of references: by class, then creation index, then handle.
pub open spec fn ref_before(f: &Funcdata, a: VarnodeId, b: VarnodeId) -> bool {
    let (va, vb) = (f.vns@[a.0 as int], f.vns@[b.0 as int]);
    ref_class(va) < ref_class(vb) || (ref_class(va) == ref_class(vb) && (va.create_index < vb.create_index || (
    va.create_index == vb.create_index && a.0 < b.0)))
}

/// The references in the order [`ref_before`].
pub open spec fn refs_sorted(f: &Funcdata, s: Seq<VarnodeId>) -> bool {
    forall|i: int, j: int| 0 <= i < j < s.len() ==> ref_before(f, #[trigger] s[i], #[trigger] s[j])
}

fn ref_class_of(f: &Funcdata, v: VarnodeId) -> (r: u8)
    requires
        v.0 < f.vns@.len(),
    ensures
        r == ref_class(f.vns@[v.0 as int]),
{
    let vn = f.vn(v);
    if vn.is_input() {
        0
    } else if vn.is_written() {
        1
    } else {
        2
    }
}

fn ref_lt(f: &Funcdata, a: VarnodeId, b: VarnodeId) -> (r: bool)
    requires
        a.0 < f.vns@.len(),
        b.0 < f.vns@.len(),
    ensures
        r == ref_before(f, a, b),
{
    let (ca, cb) = (ref_class_of(f, a), ref_class_of(f, b));
    let (ia, ib) = (f.vn(a).create_index, f.vn(b).create_index);
    ca < cb || (ca == cb && (ia < ib || (ia == ib && a.0 < b.0)))
}

/// Every input or written varnode at `(addr, size)`, in the order [`ref_before`].
fn collect_refs(f: &Funcdata, addr: Address, size: u32) -> (r: Vec<VarnodeId>)
    ensures
        refs_sorted(f, r@),
        forall|k: int| 0 <= k < r@.len() ==> is_sp_ref(f, (#[trigger] r@[k]).0 as int, addr, size),
        forall|i: int| is_sp_ref(f, i, addr, size) ==> r@.contains(VarnodeId(i as usize)),
        r@.len() <= f.vns@.len(),
{
    let mut res: Vec<VarnodeId> = Vec::new();
    let mut v: usize = 0;
    while v < f.vns.len()
        invariant
            v <= f.vns@.len(),
            refs_sorted(f, res@),
            forall|k: int| 0 <= k < res@.len() ==> is_sp_ref(f, (#[trigger] res@[k]).0 as int, addr, size),
            forall|i: int| 0 <= i < v && is_sp_ref(f, i, addr, size) ==> res@.contains(VarnodeId(i as usize)),
            forall|k: int| 0 <= k < res@.len() ==> (#[trigger] res@[k]).0 < v,
            res@.len() <= v,
        decreases f.vns@.len() - v,
    {
        let id = VarnodeId(v);
        if f.vn(id).loc == addr && f.vn(id).size == size && ref_class_of(f, id) < 2 {
            let mut j: usize = res.len();
            while j > 0 && ref_lt(f, id, res[j - 1])
                invariant
                    j <= res@.len(),
                    refs_sorted(f, res@),
                    forall|k: int| 0 <= k < res@.len() ==> (#[trigger] res@[k]).0 < v,
                    forall|k: int| 0 <= k < res@.len() ==> is_sp_ref(f, (#[trigger] res@[k]).0 as int, addr, size),
                    forall|k: int| j <= k < res@.len() ==> ref_before(f, id, #[trigger] res@[k]),
                    id.0 == v,
                    v < f.vns@.len(),
                decreases j,
            {
                j -= 1;
            }
            proof {
                assert forall|k: int| 0 <= k < j implies ref_before(f, #[trigger] res@[k], id) by {
                    assert(!ref_before(f, id, res@[j - 1]));
                    assert(res@[j - 1].0 != id.0);
                    if k < j - 1 {
                        assert(ref_before(f, res@[k], res@[j - 1]));
                    }
                }
            }
            let ghost before = res@;
            res.insert(j, id);
            proof {
                assert forall|a: int, b: int| 0 <= a < b < res@.len() implies ref_before(f, #[trigger] res@[a], #[trigger] res@[b]) by {
                    if a < j && b < j {
                        assert(res@[a] == before[a] && res@[b] == before[b]);
                    } else if a < j && b == j {
                        assert(res@[a] == before[a]);
                    } else if a < j && b > j {
                        assert(res@[a] == before[a] && res@[b] == before[b - 1]);
                    } else if a == j {
                        assert(res@[b] == before[b - 1]);
                    } else {
                        assert(res@[a] == before[a - 1] && res@[b] == before[b - 1]);
                    }
                }
                assert forall|i: int| 0 <= i < v + 1 && is_sp_ref(f, i, addr, size) implies res@.contains(VarnodeId(i as usize)) by {
                    if i == v {
                        assert(res@[j as int] == id);
                    } else {
                        let k = choose|k: int| 0 <= k < before.len() && before[k] == VarnodeId(i as usize);
                        if k < j {
                            assert(res@[k] == before[k]);
                        } else {
                            assert(res@[k + 1] == before[k]);
                        }
                    }
                }
            }
        }
        v += 1;
    }
    res
}

/// Equation `e` relates a written reference `var1` to `var2`, an input of the op defining it.
pub open spec fn equation_from_def(f: &Funcdata, vnlist: Seq<VarnodeId>, e: StackEqn) -> bool {
    &&& 1 <= e.var1 < vnlist.len()
    &&& 0 <= e.var2 < vnlist.len()
    &&& f.vns@[vnlist[e.var1 as int].0 as int].def matches Some(op) && op.0 < f.ops@.len() && f.ops@[op.0 as int].inrefs@.contains(
        vnlist[e.var2 as int],
    )
}

/// The first position of `v` in `list` (meaningful when `list` holds `v`).
pub open spec fn first_index(list: Seq<VarnodeId>, v: VarnodeId) -> int {
    choose|k: int| 0 <= k < list.len() && list[k] == v && forall|j: int| 0 <= j < k ==> list[j] != v
}

/// `k` is the first position of `v` in `list`.
proof fn lemma_first_index(list: Seq<VarnodeId>, v: VarnodeId, k: int)
    requires
        0 <= k < list.len(),
        list[k] == v,
        forall|j: int| 0 <= j < k ==> list[j] != v,
    ensures
        first_index(list, v) == k,
{
    let c = first_index(list, v);
    assert(0 <= c < list.len() && list[c] == v && forall|j: int| 0 <= j < c ==> list[j] != v);
    if c < k {
        assert(list[c] != v);
    }
    if k < c {
        assert(list[k] != v);
    }
}

/// The call spec recorded for call `c` (its first entry), if any.
pub open spec fn call_spec_of(f: &Funcdata, c: OpId) -> Option<crate::fspec::CallSpec> {
    match f.call_spec_index_spec(c) {
        Some(p) => Some(f.call_specs@[p as int].1),
        None => None,
    }
}

/// Input `v` takes part in an equation: it sits in the stack pointer's storage and is one of
/// the variables.
pub open spec fn listed_var(f: &Funcdata, vnlist: Seq<VarnodeId>, v: VarnodeId, sb_addr: Address) -> bool {
    f.vns@[v.0 as int].loc == sb_addr && vnlist.contains(v)
}

/// The equation "variable `i` is the variable for `v` plus `rhs`".
pub open spec fn eqn_for(vnlist: Seq<VarnodeId>, i: int, v: VarnodeId, rhs: i32) -> StackEqn {
    StackEqn { var1: i as i32, var2: first_index(vnlist, v) as i32, rhs }
}

/// The inputs among the first `n` of `ins` that take part in an equation, in order.
pub open spec fn listed_prefix(f: &Funcdata, vnlist: Seq<VarnodeId>, ins: Seq<VarnodeId>, sb_addr: Address, n: int) -> Seq<VarnodeId>
    decreases n,
{
    if n <= 0 {
        Seq::empty()
    } else {
        let p = listed_prefix(f, vnlist, ins, sb_addr, n - 1);
        if listed_var(f, vnlist, ins[n - 1], sb_addr) {
            p.push(ins[n - 1])
        } else {
            p
        }
    }
}

/// The equations a MULTIEQUAL defining variable `i` gives: one per input that takes part, with
/// no offset.
pub open spec fn join_eqns(f: &Funcdata, vnlist: Seq<VarnodeId>, i: int, ins: Seq<VarnodeId>, sb_addr: Address, n: int) -> Seq<StackEqn> {
    listed_prefix(f, vnlist, ins, sb_addr, n).map_values(|v: VarnodeId| eqn_for(vnlist, i, v, 0))
}

/// The stack-pointer change an INDIRECT's guarded call is known to have cancelled (its
/// recorded push), or 0.
pub open spec fn cancelled_push(f: &Funcdata, o: crate::funcdata::PcodeOp) -> i64 {
    match o.guarded_op {
        Some(c) => match call_spec_of(f, c) {
            Some(cs) => match cs.push_neutralized {
                Some(p) => p,
                None => 0,
            },
            None => 0,
        },
        None => 0,
    }
}

/// What reading the equation for variable `i` off its defining op `op` does to the system
/// (`a` before, `b` after):
///   - INT_ADD or INT_AND of a constant and a listed input: `var_i = var_in + constant` (0 for
///     INT_AND) is added;
///   - COPY of a listed input: `var_i = var_in`;
///   - INDIRECT carrying a listed input: the input becomes `i`'s companion, and `var_i = var_in
///     + extrapop` is added when the prototype's extrapop is known and the guarded call has a
///     call spec; otherwise the guess `var_i = var_in + 4 - cancelled push` is added;
///   - MULTIEQUAL: `var_i = var_in` for every listed input, in order;
/// and nothing is added otherwise.
pub open spec fn def_equations_added(f: &Funcdata, i: int, op: OpId, sb_addr: Address, a: StackSolver, b: StackSolver) -> bool {
    let o = f.ops@[op.0 as int];
    let vl = a.vnlist@;
    let ins = o.inrefs@;
    if (o.opc == OpCode::IntAdd || o.opc == OpCode::IntAnd) && ins.len() >= 2 {
        let (other, cst) = if f.vns@[ins[0].0 as int].constant { (ins[1], ins[0]) } else { (ins[0], ins[1]) };
        if f.vns@[cst.0 as int].constant && listed_var(f, vl, other, sb_addr) {
            let rhs: i32 = if o.opc == OpCode::IntAdd { f.vns@[cst.0 as int].loc.offset as i32 } else { 0 };
            &&& b.eqs@ == a.eqs@.push(eqn_for(vl, i, other, rhs))
            &&& b.guess@ == a.guess@ && b.companion@ == a.companion@
        } else {
            b.eqs@ == a.eqs@ && b.guess@ == a.guess@ && b.companion@ == a.companion@
        }
    } else if o.opc == OpCode::Copy && ins.len() >= 1 && listed_var(f, vl, ins[0], sb_addr) {
        &&& b.eqs@ == a.eqs@.push(eqn_for(vl, i, ins[0], 0))
        &&& b.guess@ == a.guess@ && b.companion@ == a.companion@
    } else if o.opc == OpCode::Indirect && ins.len() >= 1 && listed_var(f, vl, ins[0], sb_addr) {
        &&& b.companion@ == a.companion@.update(i, first_index(vl, ins[0]) as i32)
        &&& if o.guarded_op matches Some(c) && call_spec_of(f, c) is Some && f.proto_model.extrapop != EXTRAPOP_UNKNOWN {
            b.eqs@ == a.eqs@.push(eqn_for(vl, i, ins[0], f.proto_model.extrapop)) && b.guess@ == a.guess@
        } else {
            b.eqs@ == a.eqs@ && b.guess@ == a.guess@.push(
                eqn_for(vl, i, ins[0], 4i32.wrapping_sub(cancelled_push(f, o) as i32)),
            )
        }
    } else if o.opc == OpCode::Multiequal {
        &&& b.eqs@ == a.eqs@ + join_eqns(f, vl, i, ins, sb_addr, ins.len() as int)
        &&& b.guess@ == a.guess@ && b.companion@ == a.companion@
    } else {
        b.eqs@ == a.eqs@ && b.guess@ == a.guess@ && b.companion@ == a.companion@
    }
}

/// The guarded call of the INDIRECT `o` has a call spec and the prototype's extrapop is known.
pub open spec fn extrapop_applies(f: &Funcdata, o: crate::funcdata::PcodeOp) -> bool {
    o.guarded_op matches Some(c) && call_spec_of(f, c) is Some && f.proto_model.extrapop != EXTRAPOP_UNKNOWN
}

/// The exact equations the op `op` defining variable `i` gives (see [`def_equations_added`]).
pub open spec fn op_eqs(f: &Funcdata, vl: Seq<VarnodeId>, i: int, op: OpId, sb_addr: Address) -> Seq<StackEqn> {
    let o = f.ops@[op.0 as int];
    let ins = o.inrefs@;
    if (o.opc == OpCode::IntAdd || o.opc == OpCode::IntAnd) && ins.len() >= 2 {
        let (other, cst) = if f.vns@[ins[0].0 as int].constant { (ins[1], ins[0]) } else { (ins[0], ins[1]) };
        if f.vns@[cst.0 as int].constant && listed_var(f, vl, other, sb_addr) {
            let rhs: i32 = if o.opc == OpCode::IntAdd { f.vns@[cst.0 as int].loc.offset as i32 } else { 0 };
            seq![eqn_for(vl, i, other, rhs)]
        } else {
            Seq::empty()
        }
    } else if o.opc == OpCode::Copy && ins.len() >= 1 && listed_var(f, vl, ins[0], sb_addr) {
        seq![eqn_for(vl, i, ins[0], 0)]
    } else if o.opc == OpCode::Indirect && ins.len() >= 1 && listed_var(f, vl, ins[0], sb_addr) {
        if extrapop_applies(f, o) {
            seq![eqn_for(vl, i, ins[0], f.proto_model.extrapop)]
        } else {
            Seq::empty()
        }
    } else if o.opc == OpCode::Multiequal {
        join_eqns(f, vl, i, ins, sb_addr, ins.len() as int)
    } else {
        Seq::empty()
    }
}

/// The exact guesses the op `op` defining variable `i` gives: one for an INDIRECT carrying a
/// listed input across a call whose stack change is not known.
pub open spec fn op_guesses(f: &Funcdata, vl: Seq<VarnodeId>, i: int, op: OpId, sb_addr: Address) -> Seq<StackEqn> {
    let o = f.ops@[op.0 as int];
    let ins = o.inrefs@;
    if o.opc == OpCode::Indirect && ins.len() >= 1 && listed_var(f, vl, ins[0], sb_addr) && !extrapop_applies(f, o) {
        seq![eqn_for(vl, i, ins[0], 4i32.wrapping_sub(cancelled_push(f, o) as i32))]
    } else {
        Seq::empty()
    }
}

/// The equations of variable `i` (none when it is not written).
pub open spec fn var_eqs(f: &Funcdata, vl: Seq<VarnodeId>, i: int, sb_addr: Address) -> Seq<StackEqn> {
    match f.vns@[vl[i].0 as int].def {
        Some(op) => op_eqs(f, vl, i, op, sb_addr),
        None => Seq::empty(),
    }
}

/// The guesses of variable `i` (none when it is not written).
pub open spec fn var_guesses(f: &Funcdata, vl: Seq<VarnodeId>, i: int, sb_addr: Address) -> Seq<StackEqn> {
    match f.vns@[vl[i].0 as int].def {
        Some(op) => op_guesses(f, vl, i, op, sb_addr),
        None => Seq::empty(),
    }
}

/// The equations of variables 1 up to (not including) `n`, in order.
pub open spec fn system_eqs(f: &Funcdata, vl: Seq<VarnodeId>, sb_addr: Address, n: int) -> Seq<StackEqn>
    decreases n,
{
    if n <= 1 {
        Seq::empty()
    } else {
        system_eqs(f, vl, sb_addr, n - 1) + var_eqs(f, vl, n - 1, sb_addr)
    }
}

/// The guesses of variables 1 up to (not including) `n`, in order.
pub open spec fn system_guesses(f: &Funcdata, vl: Seq<VarnodeId>, sb_addr: Address, n: int) -> Seq<StackEqn>
    decreases n,
{
    if n <= 1 {
        Seq::empty()
    } else {
        system_guesses(f, vl, sb_addr, n - 1) + var_guesses(f, vl, n - 1, sb_addr)
    }
}

/// Reading the equations off `op` appends exactly its equations and guesses.
proof fn lemma_added_eqs(f: &Funcdata, i: int, op: OpId, sb_addr: Address, a: StackSolver, b: StackSolver)
    requires
        def_equations_added(f, i, op, sb_addr, a, b),
    ensures
        b.eqs@ == a.eqs@ + op_eqs(f, a.vnlist@, i, op, sb_addr),
        b.guess@ == a.guess@ + op_guesses(f, a.vnlist@, i, op, sb_addr),
{
    let e = op_eqs(f, a.vnlist@, i, op, sb_addr);
    let g = op_guesses(f, a.vnlist@, i, op, sb_addr);
    if e.len() == 1 {
        assert(b.eqs@ =~= a.eqs@ + e);
    } else {
        assert(b.eqs@ =~= a.eqs@ + e);
    }
    assert(b.guess@ =~= a.guess@ + g);
}

/// Entry `p` is the first for call `c`: it is the call spec of `c`.
proof fn lemma_call_spec_first(f: &Funcdata, c: OpId, p: int)
    requires
        0 <= p < f.call_specs@.len(),
        f.call_specs@[p].0 == c,
        forall|k: int| 0 <= k < p ==> f.call_specs@[k].0 != c,
    ensures
        call_spec_of(f, c) == Some(f.call_specs@[p].1),
{
    assert(exists|q: int| 0 <= q < f.call_specs@.len() && (#[trigger] f.call_specs@[q]).0 == c);
    let q = choose|q: int|
        0 <= q < f.call_specs@.len() && (#[trigger] f.call_specs@[q]).0 == c && forall|k: int| 0 <= k < q ==> f.call_specs@[k].0 != c;
    assert(f.call_specs@[p].0 == c);
    if q < p {
        assert(f.call_specs@[q].0 != c);
    }
    if p < q {
        assert(f.call_specs@[p].0 != c);
    }
    assert(q == p);
    assert(f.call_specs@.len() == f.call_specs.len());
    assert(f.call_spec_index_spec(c) == Some(q as usize));
    assert((q as usize) as int == q);
}

/// The position of `v` in `list`.
fn index_of_vn(list: &Vec<VarnodeId>, v: VarnodeId) -> (r: Option<usize>)
    ensures
        match r {
            Some(k) => k < list@.len() && list@[k as int] == v && forall|j: int| 0 <= j < k ==> list@[j] != v,
            None => forall|j: int| 0 <= j < list@.len() ==> list@[j] != v,
        },
{
    let mut k: usize = 0;
    while k < list.len()
        invariant
            k <= list@.len(),
            forall|j: int| 0 <= j < k ==> list@[j] != v,
        decreases list@.len() - k,
    {
        if list[k] == v {
            return Some(k);
        }
        k += 1;
    }
    None
}

impl StackSolver {
    /// An empty solver.
    pub fn new() -> (r: StackSolver)
        ensures
            r.eqs@.len() == 0,
            r.guess@.len() == 0,
            r.vnlist@.len() == 0,
            r.companion@.len() == 0,
            r.soln@.len() == 0,
            r.missedvariables == 0,
    {
        StackSolver {
            eqs: Vec::new(),
            guess: Vec::new(),
            vnlist: Vec::new(),
            companion: Vec::new(),
            soln: Vec::new(),
            missedvariables: 0,
        }
    }

    /// Given `val` as the solution of variable `varnum`, solve every variable the equations
    /// reach from it. A variable that already has a solution keeps it.
    ///
    /// Each variable enters the walk when it receives a solution, so the walk visits at most
    /// one variable more than there are variables; a solution that happens to equal the
    /// sentinel [`NO_SOLN`] would have it revisit variables, and the walk stops there too.
    /// Starting from a [`closed`] solution with a `val` other than the sentinel, the result is
    /// closed again, unless such a value was met.
    pub fn propagate(&mut self, varnum: i32, val: i32)
        requires
            0 <= varnum < old(self).soln@.len(),
            eqs_in_range(old(self).eqs@, old(self).soln@.len()),
            sorted_by_var1(old(self).eqs@),
        ensures
            final(self).eqs == old(self).eqs,
            final(self).guess == old(self).guess,
            final(self).vnlist == old(self).vnlist,
            final(self).companion == old(self).companion,
            final(self).missedvariables == old(self).missedvariables,
            final(self).soln@.len() == old(self).soln@.len(),
            forall|i: int| 0 <= i < old(self).soln@.len() && old(self).soln@[i] != NO_SOLN ==> #[trigger] final(self).soln@[i] == old(self).soln@[i],
            old(self).soln@[varnum as int] == NO_SOLN && val != NO_SOLN ==> final(self).soln@[varnum as int] == val,
            forall|i: int|
                0 <= i < old(self).soln@.len() && old(self).soln@[i] == NO_SOLN && #[trigger] final(self).soln@[i] != NO_SOLN
                    ==> (i == varnum && final(self).soln@[i] == val) || derived(final(self).eqs@, final(self).soln@, i),
            val != NO_SOLN && closed(old(self).eqs@, old(self).soln@) ==> closed(final(self).eqs@, final(self).soln@)
                || eq_hits_sentinel(final(self).eqs@, final(self).soln@),
    {
        if self.soln[varnum as usize] != NO_SOLN {
            return;
        }
        self.soln.set(varnum as usize, val);
        let ghost start = self.soln@;
        let n = self.soln.len();
        let mut workstack: Vec<i32> = Vec::new();
        workstack.push(varnum);
        let limit: u128 = n as u128 + 1;
        let mut pops: u128 = 0;
        let ghost goal = val != NO_SOLN && closed(old(self).eqs@, old(self).soln@);
        let ghost mut hit = false;
        let ghost mut hk: int = 0;
        proof {
            if goal {
                assert(workstack@ =~= seq![varnum]);
                lemma_walk_starts(self.eqs@, old(self).soln@, self.soln@, varnum, val);
                lemma_unsolved_update(old(self).soln@, varnum as int, val);
                lemma_unsolved_le(old(self).soln@);
            }
        }
        while workstack.len() > 0 && pops < limit
            invariant
                hit ==> 0 <= hk < self.eqs@.len() && self.soln@[self.eqs@[hk].var1 as int] != NO_SOLN
                    && vstd::wrapping::i32_specs::wrapping_sub(self.soln@[self.eqs@[hk].var1 as int], self.eqs@[hk].rhs) == NO_SOLN,
                goal && !hit ==> closed_except(self.eqs@, self.soln@, workstack@, -1i32, 0),
                goal && !hit ==> forall|k: int| 0 <= k < workstack@.len() ==> self.soln@[(#[trigger] workstack@[k]) as int] != NO_SOLN,
                goal && !hit ==> pops + workstack@.len() + unsolved(self.soln@) <= n,
                self.soln@.len() == n,
                self.eqs == old(self).eqs,
                self.guess == old(self).guess,
                self.vnlist == old(self).vnlist,
                self.companion == old(self).companion,
                self.missedvariables == old(self).missedvariables,
                eqs_in_range(self.eqs@, n as nat),
                sorted_by_var1(self.eqs@),
                forall|k: int| 0 <= k < workstack@.len() ==> 0 <= #[trigger] workstack@[k] < n,
                forall|i: int| 0 <= i < n && start[i] != NO_SOLN ==> #[trigger] self.soln@[i] == start[i],
                start.len() == n,
                start[varnum as int] == val,
                forall|i: int| 0 <= i < n && i != varnum && old(self).soln@[i] != NO_SOLN ==> start[i] == old(self).soln@[i],
                forall|i: int| 0 <= i < n && i != varnum ==> start[i] == old(self).soln@[i],
                old(self).soln@.len() == n,
                pops <= limit,
                forall|i: int|
                    0 <= i < n && old(self).soln@[i] == NO_SOLN && #[trigger] self.soln@[i] != NO_SOLN ==> (i == varnum
                        && self.soln@[i] == val) || derived(self.eqs@, self.soln@, i),
            decreases limit - pops,
        {
            let ghost ws_before = workstack@;
            pops = pops + 1;
            let cur = workstack.pop().unwrap();
            let mut top = lower_bound(&self.eqs, cur);
            proof {
                assert(ws_before =~= workstack@.push(cur));
                if goal && !hit {
                    assert(ws_before[ws_before.len() - 1] == cur);
                    lemma_walk_pops(self.eqs@, self.soln@, ws_before, workstack@, cur, top as int);
                    assert forall|k: int| 0 <= k < workstack@.len() implies self.soln@[(#[trigger] workstack@[k]) as int] != NO_SOLN by {
                        assert(workstack@[k] == ws_before[k]);
                    }
                }
            }
            while top < self.eqs.len() && self.eqs[top].var1 == cur
                invariant
                    hit ==> 0 <= hk < self.eqs@.len() && self.soln@[self.eqs@[hk].var1 as int] != NO_SOLN
                        && vstd::wrapping::i32_specs::wrapping_sub(self.soln@[self.eqs@[hk].var1 as int], self.eqs@[hk].rhs) == NO_SOLN,
                    goal && !hit ==> closed_except(self.eqs@, self.soln@, workstack@, cur, top as int),
                    goal && !hit ==> forall|k: int| 0 <= k < workstack@.len() ==> self.soln@[(#[trigger] workstack@[k]) as int] != NO_SOLN,
                    goal && !hit ==> self.soln@[cur as int] != NO_SOLN,
                    goal && !hit ==> pops + workstack@.len() + unsolved(self.soln@) <= n,
                    forall|k: int| top <= k < self.eqs@.len() ==> self.eqs@[k].var1 >= cur,
                    self.soln@.len() == n,
                    self.eqs == old(self).eqs,
                    self.guess == old(self).guess,
                    self.vnlist == old(self).vnlist,
                    self.companion == old(self).companion,
                    self.missedvariables == old(self).missedvariables,
                    eqs_in_range(self.eqs@, n as nat),
                    sorted_by_var1(self.eqs@),
                    0 <= cur < n,
                    top <= self.eqs@.len(),
                    forall|k: int| 0 <= k < workstack@.len() ==> 0 <= #[trigger] workstack@[k] < n,
                    forall|i: int| 0 <= i < n && start[i] != NO_SOLN ==> #[trigger] self.soln@[i] == start[i],
                    forall|i: int|
                        0 <= i < n && old(self).soln@[i] == NO_SOLN && #[trigger] self.soln@[i] != NO_SOLN ==> (i == varnum
                            && self.soln@[i] == val) || derived(self.eqs@, self.soln@, i),
                    old(self).soln@.len() == n,
                decreases self.eqs@.len() - top,
            {
                let ghost pre_soln = self.soln@;
                let ghost pre_ws = workstack@;
                let var2 = self.eqs[top].var2;
                if self.soln[var2 as usize] == NO_SOLN {
                    let ghost s0 = self.soln@;
                    let v = self.soln[cur as usize].wrapping_sub(self.eqs[top].rhs);
                    self.soln.set(var2 as usize, v);
                    workstack.push(var2);
                    proof {
                        if hit {
                            assert(self.soln@[self.eqs@[hk].var1 as int] == s0[self.eqs@[hk].var1 as int]);
                        } else if goal {
                            if v == NO_SOLN {
                                hit = true;
                                hk = top as int;
                            } else {
                                lemma_unsolved_update(s0, var2 as int, v);
                                lemma_walk_step(self.eqs@, pre_soln, self.soln@, pre_ws, workstack@, cur, top as int);
                                assert forall|k: int| 0 <= k < workstack@.len() implies self.soln@[(#[trigger] workstack@[k]) as int] != NO_SOLN by {
                                    if k < pre_ws.len() {
                                        assert(workstack@[k] == pre_ws[k]);
                                    }
                                }
                            }
                        }
                    }
                    proof {
                        let e = self.eqs@[top as int];
                        assert(e.var1 == cur);
                        assert forall|i: int|
                            0 <= i < n && old(self).soln@[i] == NO_SOLN && #[trigger] self.soln@[i] != NO_SOLN implies (i
                            == varnum && self.soln@[i] == val) || derived(self.eqs@, self.soln@, i) by {
                            if i == var2 {
                                if cur == var2 {
                                    assert(s0[cur as int] == NO_SOLN);
                                } else {
                                    assert(self.soln@[cur as int] == s0[cur as int]);
                                }
                                if s0[cur as int] == NO_SOLN {
                                    assert(self.soln@[i] == vstd::wrapping::i32_specs::wrapping_sub(NO_SOLN, e.rhs));
                                }
                                assert(self.eqs@[top as int].var2 == i);
                            } else if !derived(self.eqs@, s0, i) {
                                assert(self.soln@[i] == s0[i]);
                            } else {
                                assert(self.soln@[i] == s0[i]);
                                assert(s0[i] != NO_SOLN);
                                let k = choose|k: int|
                                    0 <= k < self.eqs@.len() && (#[trigger] self.eqs@[k]).var2 == i && (s0[i]
                                        == vstd::wrapping::i32_specs::wrapping_sub(s0[self.eqs@[k].var1 as int], self.eqs@[k].rhs)
                                        || s0[i] == vstd::wrapping::i32_specs::wrapping_sub(NO_SOLN, self.eqs@[k].rhs));
                                let w = self.eqs@[k].var1 as int;
                                if w != var2 {
                                    assert(self.soln@[w] == s0[w]);
                                } else {
                                    assert(s0[w] == NO_SOLN);
                                }
                            }
                        }
                    }
                } else {
                    proof {
                        if goal && !hit {
                            lemma_walk_step(self.eqs@, pre_soln, self.soln@, pre_ws, workstack@, cur, top as int);
                        }
                    }
                }
                top += 1;
            }
            proof {
                if goal && !hit {
                    lemma_walk_moves_on(self.eqs@, self.soln@, workstack@, cur, top as int);
                }
            }
        }
        proof {
            assert forall|i: int| 0 <= i < old(self).soln@.len() && old(self).soln@[i] != NO_SOLN implies #[trigger] self.soln@[i] == old(self).soln@[i] by {
                if i == varnum {
                    assert(old(self).soln@[i] == NO_SOLN);
                }
            }
            if goal {
                if hit {
                    assert(eq_hits_sentinel(self.eqs@, self.soln@));
                } else {
                    assert(workstack@.len() == 0);
                    assert forall|k: int| 0 <= k < self.eqs@.len() && self.soln@[(#[trigger] self.eqs@[k]).var1 as int] != NO_SOLN implies self.soln@[self.eqs@[k].var2 as int] != NO_SOLN by {
                        assert(!workstack@.contains(self.eqs@[k].var1));
                    }
                }
            }
        }
    }

    /// Index every input or written reference to the stack pointer `(sb_addr, sb_size)` as a
    /// variable (the input first) and read an equation off the op defining each of the
    /// others: an INT_ADD of a constant, a COPY, each input of a MULTIEQUAL, and an INT_AND
    /// (stack alignment, treated as a copy) give exact equations; an INDIRECT across a call gives
    /// the known `extrapop` when the prototype has one, and otherwise a guess that the call pops
    /// 4 bytes beyond any return-address push already cancelled for it.
    ///
    /// Fails when the first reference is not the stack pointer's input.
    pub fn build(&mut self, f: &Funcdata, sb_addr: Address, sb_size: u32) -> (r: Result<(), &'static str>)
        requires
            f.wf(),
            f.vns@.len() <= i32::MAX,
            old(self).eqs@.len() == 0,
            old(self).guess@.len() == 0,
            old(self).vnlist@.len() == 0,
            old(self).companion@.len() == 0,
        ensures
            refs_sorted(f, final(self).vnlist@),
            forall|k: int| 0 <= k < final(self).vnlist@.len() ==> is_sp_ref(f, (#[trigger] final(self).vnlist@[k]).0 as int, sb_addr, sb_size),
            forall|i: int| is_sp_ref(f, i, sb_addr, sb_size) ==> final(self).vnlist@.contains(VarnodeId(i as usize)),
            r is Err <==> (final(self).vnlist@.len() > 0 && !f.vns@[final(self).vnlist@[0].0 as int].input),
            final(self).companion@.len() == final(self).vnlist@.len(),
            forall|k: int| 0 <= k < final(self).companion@.len() ==> (#[trigger] final(self).companion@[k] == -1 || 0 <= final(self).companion@[k] < final(self).vnlist@.len()),
            eqs_in_range(final(self).eqs@, final(self).vnlist@.len()),
            eqs_in_range(final(self).guess@, final(self).vnlist@.len()),
            forall|k: int| 0 <= k < final(self).eqs@.len() ==> equation_from_def(f, final(self).vnlist@, #[trigger] final(self).eqs@[k]),
            forall|k: int| 0 <= k < final(self).guess@.len() ==> equation_from_def(f, final(self).vnlist@, #[trigger] final(self).guess@[k]),
            r is Ok ==> final(self).eqs@ == system_eqs(f, final(self).vnlist@, sb_addr, final(self).vnlist@.len() as int),
            r is Ok ==> final(self).guess@ == system_guesses(f, final(self).vnlist@, sb_addr, final(self).vnlist@.len() as int),
            final(self).soln == old(self).soln,
    {
        let list = collect_refs(f, sb_addr, sb_size);
        let mut k: usize = 0;
        while k < list.len()
            invariant
                k <= list@.len(),
                self.vnlist@ == list@.take(k as int),
                self.companion@.len() == k,
                forall|j: int| 0 <= j < k ==> self.companion@[j] == -1,
                self.eqs@.len() == 0,
                self.guess@.len() == 0,
                self.soln == old(self).soln,
            decreases list@.len() - k,
        {
            self.vnlist.push(list[k]);
            self.companion.push(-1);
            k += 1;
            assert(self.vnlist@ =~= list@.take(k as int));
        }
        assert(self.vnlist@ =~= list@);
        self.missedvariables = 0;
        if self.vnlist.len() == 0 {
            return Ok(());
        }
        if !f.vn(self.vnlist[0]).is_input() {
            return Err("Input value of stackpointer is not used");
        }
        let n = self.vnlist.len();
        proof {
            assert forall|j: int| 0 <= j < n implies (#[trigger] self.vnlist@[j]).0 < f.vns@.len() by {
                assert(is_sp_ref(f, list@[j].0 as int, sb_addr, sb_size));
            }
        }
        let mut i: usize = 1;
        while i < n
            invariant
                1 <= i <= n,
                n == self.vnlist@.len(),
                n <= i32::MAX,
                self.vnlist@ == list@,
                forall|j: int| 0 <= j < n ==> (#[trigger] self.vnlist@[j]).0 < f.vns@.len(),
                self.companion@.len() == n,
                forall|j: int| 0 <= j < n ==> (#[trigger] self.companion@[j] == -1 || 0 <= self.companion@[j] < n),
                eqs_in_range(self.eqs@, n as nat),
                eqs_in_range(self.guess@, n as nat),
                forall|j: int| 0 <= j < self.eqs@.len() ==> equation_from_def(f, self.vnlist@, #[trigger] self.eqs@[j]),
                forall|j: int| 0 <= j < self.guess@.len() ==> equation_from_def(f, self.vnlist@, #[trigger] self.guess@[j]),
                self.soln == old(self).soln,
                f.wf(),
                self.eqs@ == system_eqs(f, self.vnlist@, sb_addr, i as int),
                self.guess@ == system_guesses(f, self.vnlist@, sb_addr, i as int),
            decreases n - i,
        {
            let ghost s0 = *self;
            let vn = self.vnlist[i];
            let vi = i as i32;
            match f.vn(vn).def {
                None => {
                    self.missedvariables = self.missedvariables.wrapping_add(1);
                },
                Some(op) => {
                    proof {
                        assert(crate::funcdata::vn_wf(f.vns@[vn.0 as int], f.ops@.len()));
                    }
                    self.add_def_equation(f, vi, op, sb_addr);
                    proof {
                        lemma_added_eqs(f, i as int, op, sb_addr, s0, *self);
                    }
                },
            }
            proof {
                assert(self.eqs@ =~= system_eqs(f, self.vnlist@, sb_addr, i + 1));
                assert(self.guess@ =~= system_guesses(f, self.vnlist@, sb_addr, i + 1));
            }
            i += 1;
        }
        Ok(())
    }

    /// Read the equation for variable `i` off `op`, the op defining it.
    fn add_def_equation(&mut self, f: &Funcdata, i: i32, op: OpId, sb_addr: Address)
        requires
            f.wf(),
            1 <= i < old(self).vnlist@.len(),
            old(self).companion@.len() == old(self).vnlist@.len(),
            forall|j: int| 0 <= j < old(self).vnlist@.len() ==> (#[trigger] old(self).vnlist@[j]).0 < f.vns@.len(),
            f.vns@[old(self).vnlist@[i as int].0 as int].def == Some(op),
            op.0 < f.ops@.len(),
            old(self).vnlist@.len() <= i32::MAX,
            forall|j: int| 0 <= j < old(self).companion@.len() ==> (#[trigger] old(self).companion@[j] == -1 || 0 <= old(self).companion@[j] < old(self).vnlist@.len()),
            eqs_in_range(old(self).eqs@, old(self).vnlist@.len()),
            eqs_in_range(old(self).guess@, old(self).vnlist@.len()),
            forall|j: int| 0 <= j < old(self).eqs@.len() ==> equation_from_def(f, old(self).vnlist@, #[trigger] old(self).eqs@[j]),
            forall|j: int| 0 <= j < old(self).guess@.len() ==> equation_from_def(f, old(self).vnlist@, #[trigger] old(self).guess@[j]),
        ensures
            final(self).vnlist == old(self).vnlist,
            final(self).soln == old(self).soln,
            final(self).companion@.len() == old(self).companion@.len(),
            forall|j: int| 0 <= j < final(self).companion@.len() ==> (#[trigger] final(self).companion@[j] == -1 || 0 <= final(self).companion@[j] < final(self).vnlist@.len()),
            eqs_in_range(final(self).eqs@, final(self).vnlist@.len()),
            eqs_in_range(final(self).guess@, final(self).vnlist@.len()),
            forall|j: int| 0 <= j < final(self).eqs@.len() ==> equation_from_def(f, final(self).vnlist@, #[trigger] final(self).eqs@[j]),
            forall|j: int| 0 <= j < final(self).guess@.len() ==> equation_from_def(f, final(self).vnlist@, #[trigger] final(self).guess@[j]),
            def_equations_added(f, i as int, op, sb_addr, *old(self), *final(self)),
    {
        let o = f.op(op);
        let n = self.vnlist.len();
        proof {
            assert(crate::funcdata::op_wf(f.ops@[op.0 as int], f.vns@.len(), f.ops@.len(), f.blocks@.len()));
        }
        match o.code() {
            OpCode::IntAdd | OpCode::IntAnd => {
                if o.num_inputs() < 2 {
                    self.missedvariables = self.missedvariables.wrapping_add(1);
                    return;
                }
                let mut othervn = o.inrefs[0];
                let mut constvn = o.inrefs[1];
                if f.vn(othervn).is_constant() {
                    let t = othervn;
                    othervn = constvn;
                    constvn = t;
                }
                if !f.vn(constvn).is_constant() || f.vn(othervn).loc != sb_addr {
                    self.missedvariables = self.missedvariables.wrapping_add(1);
                    return;
                }
                match index_of_vn(&self.vnlist, othervn) {
                    None => {
                        self.missedvariables = self.missedvariables.wrapping_add(1);
                    },
                    Some(var2) => {
                        proof {
                            lemma_first_index(self.vnlist@, othervn, var2 as int);
                        }
                        let rhs: i32 = if o.code() == OpCode::IntAdd {
                            #[verifier::truncate] (f.vn(constvn).constant_value() as i32)
                        } else {
                            0
                        };
                        assert(o.inrefs@[0] == othervn || o.inrefs@[1] == othervn);
                        self.eqs.push(StackEqn { var1: i, var2: var2 as i32, rhs });
                    },
                }
            },
            OpCode::Copy => {
                if o.num_inputs() < 1 {
                    self.missedvariables = self.missedvariables.wrapping_add(1);
                    return;
                }
                let othervn = o.inrefs[0];
                if f.vn(othervn).loc != sb_addr {
                    self.missedvariables = self.missedvariables.wrapping_add(1);
                    return;
                }
                match index_of_vn(&self.vnlist, othervn) {
                    None => {
                        self.missedvariables = self.missedvariables.wrapping_add(1);
                    },
                    Some(var2) => {
                        proof {
                            lemma_first_index(self.vnlist@, othervn, var2 as int);
                        }
                        assert(o.inrefs@[0] == othervn);
                        self.eqs.push(StackEqn { var1: i, var2: var2 as i32, rhs: 0 });
                    },
                }
            },
            OpCode::Indirect => {
                if o.num_inputs() < 1 {
                    self.missedvariables = self.missedvariables.wrapping_add(1);
                    return;
                }
                let othervn = o.inrefs[0];
                if f.vn(othervn).loc != sb_addr {
                    self.missedvariables = self.missedvariables.wrapping_add(1);
                    return;
                }
                match index_of_vn(&self.vnlist, othervn) {
                    None => {
                        self.missedvariables = self.missedvariables.wrapping_add(1);
                    },
                    Some(var2) => {
                        proof {
                            lemma_first_index(self.vnlist@, othervn, var2 as int);
                        }
                        assert(o.inrefs@[0] == othervn);
                        self.companion.set(i as usize, var2 as i32);
                        let mut neutralized: i64 = 0;
                        if let Some(call) = o.guarded_op() {
                            if let Some(cs) = f.call_spec(call) {
                                proof {
                                    let p = choose|p: int|
                                        0 <= p < f.call_specs@.len() && f.call_specs@[p].0 == call && f.call_specs@[p].1 == *cs
                                            && forall|k: int| 0 <= k < p ==> f.call_specs@[k].0 != call;
                                    lemma_call_spec_first(f, call, p);
                                }
                                let ep = f.proto_model.extrapop;
                                if ep != EXTRAPOP_UNKNOWN {
                                    self.eqs.push(StackEqn { var1: i, var2: var2 as i32, rhs: ep });
                                    return;
                                }
                                if let Some(p) = cs.push_neutralized {
                                    neutralized = p;
                                }
                            }
                        }
                        let rhs = 4i32.wrapping_sub(#[verifier::truncate] (neutralized as i32));
                        self.guess.push(StackEqn { var1: i, var2: var2 as i32, rhs });
                    },
                }
            },
            OpCode::Multiequal => {
                let mut j: usize = 0;
                proof {
                    assert(old(self).eqs@ + join_eqns(f, self.vnlist@, i as int, o.inrefs@, sb_addr, 0) =~= old(self).eqs@);
                }
                while j < o.inrefs.len()
                    invariant
                        j <= o.inrefs@.len(),
                        *o == f.ops@[op.0 as int],
                        self.vnlist == old(self).vnlist,
                        self.soln == old(self).soln,
                        self.companion == old(self).companion,
                        self.guess == old(self).guess,
                        n == self.vnlist@.len(),
                        1 <= i < n,
                        n <= i32::MAX,
                        f.vns@[self.vnlist@[i as int].0 as int].def == Some(op),
                        op.0 < f.ops@.len(),
                        crate::funcdata::op_wf(f.ops@[op.0 as int], f.vns@.len(), f.ops@.len(), f.blocks@.len()),
                        eqs_in_range(self.eqs@, n as nat),
                        forall|k: int| 0 <= k < self.eqs@.len() ==> equation_from_def(f, self.vnlist@, #[trigger] self.eqs@[k]),
                        self.eqs@ == old(self).eqs@ + join_eqns(f, self.vnlist@, i as int, o.inrefs@, sb_addr, j as int),
                    decreases o.inrefs@.len() - j,
                {
                    let othervn = o.inrefs[j];
                    if f.vn(othervn).loc != sb_addr {
                        self.missedvariables = self.missedvariables.wrapping_add(1);
                    } else {
                        match index_of_vn(&self.vnlist, othervn) {
                            None => {
                                self.missedvariables = self.missedvariables.wrapping_add(1);
                            },
                            Some(var2) => {
                                proof {
                                    lemma_first_index(self.vnlist@, othervn, var2 as int);
                                }
                                assert(o.inrefs@[j as int] == othervn);
                                self.eqs.push(StackEqn { var1: i, var2: var2 as i32, rhs: 0 });
                            },
                        }
                    }
                    j += 1;
                    proof {
                        let vl = self.vnlist@;
                        let ins = o.inrefs@;
                        assert(listed_prefix(f, vl, ins, sb_addr, j as int) == (if listed_var(f, vl, ins[j - 1], sb_addr) {
                            listed_prefix(f, vl, ins, sb_addr, j - 1).push(ins[j - 1])
                        } else {
                            listed_prefix(f, vl, ins, sb_addr, j - 1)
                        }));
                        assert(self.eqs@ =~= old(self).eqs@ + join_eqns(f, vl, i as int, ins, sb_addr, j as int));
                    }
                }
            },
            _ => {
                self.missedvariables = self.missedvariables.wrapping_add(1);
            },
        }
    }

    /// Solve the system: the stack pointer's input value (variable 0) is 0 by definition, and
    /// every variable the equations reach from it is solved; then the guesses solve what they
    /// can of the rest, round after round, until a round changes nothing. In the end every
    /// equation leads from a solved variable to a solved one ([`closed`]), unless some value
    /// computed on the way equals the sentinel [`NO_SOLN`] and so reads as no solution.
    ///
    /// The number of guesses with neither side solved falls in every round that continues, so
    /// the rounds stop after at most as many rounds as there are guesses, plus two.
    pub fn solve(&mut self)
        requires
            old(self).vnlist@.len() > 0,
            eqs_in_range(old(self).eqs@, old(self).vnlist@.len()),
            eqs_in_range(old(self).guess@, old(self).vnlist@.len()),
        ensures
            final(self).soln@.len() == final(self).vnlist@.len(),
            final(self).soln@[0] == 0,
            justified(final(self).eqs@, final(self).guess@, final(self).soln@),
            closed(final(self).eqs@, final(self).soln@) || eq_hits_sentinel(final(self).eqs@, final(self).soln@)
                || guess_hits_sentinel(final(self).guess@, final(self).soln@),
            sorted_by_var1(final(self).eqs@),
            final(self).eqs@.to_multiset() == both_ways(old(self).eqs@).to_multiset(),
            final(self).guess == old(self).guess,
            final(self).vnlist == old(self).vnlist,
            final(self).companion == old(self).companion,
            final(self).missedvariables == old(self).missedvariables,
    {
        let n = self.vnlist.len();
        let mut fresh: Vec<i32> = Vec::new();
        let mut i: usize = 0;
        while i < n
            invariant
                i <= n,
                fresh@.len() == i,
                forall|k: int| 0 <= k < i ==> fresh@[k] == NO_SOLN,
            decreases n - i,
        {
            fresh.push(NO_SOLN);
            i += 1;
        }
        self.soln = fresh;
        self.duplicate();
        proof {
            lemma_dup_in_range(self.eqs@, old(self).eqs@, n as nat);
        }
        let ghost before = self.soln@;
        proof {
            assert forall|k: int| 0 <= k < self.eqs@.len() && self.soln@[(#[trigger] self.eqs@[k]).var1 as int] != NO_SOLN
                implies self.soln@[self.eqs@[k].var2 as int] != NO_SOLN by {
                assert(self.soln@[self.eqs@[k].var1 as int] == NO_SOLN);
            }
        }
        self.propagate(0, 0);
        proof {
            assert forall|i: int| 1 <= i < self.soln@.len() && #[trigger] self.soln@[i] != NO_SOLN implies derived(
                self.eqs@,
                self.soln@,
                i,
            ) || guessed(self.guess@, self.soln@, i) by {
                assert(before[i] == NO_SOLN);
            }
        }
        let size = self.guess.len();
        let mut lastcount: u128 = size as u128 + 2;
        let mut rounds: u128 = 0;
        let limit: u128 = size as u128 + 3;
        while rounds < limit
            invariant
                self.soln@.len() == n,
                self.vnlist@.len() == n,
                self.soln@[0] == 0,
                justified(self.eqs@, self.guess@, self.soln@),
                eqs_in_range(self.eqs@, n as nat),
                eqs_in_range(self.guess@, n as nat),
                sorted_by_var1(self.eqs@),
                self.eqs@.to_multiset() == both_ways(old(self).eqs@).to_multiset(),
                self.guess == old(self).guess,
                self.vnlist == old(self).vnlist,
                self.companion == old(self).companion,
                self.missedvariables == old(self).missedvariables,
                size == self.guess@.len(),
                rounds <= limit,
                closed(self.eqs@, self.soln@) || eq_hits_sentinel(self.eqs@, self.soln@) || guess_hits_sentinel(
                    self.guess@,
                    self.soln@,
                ),
            decreases limit - rounds,
        {
            rounds = rounds + 1;
            let mut count: u128 = 0;
            let mut i: usize = 0;
            while i < size
                invariant
                    i <= size,
                    count <= i,
                    self.soln@.len() == n,
                    self.vnlist@.len() == n,
                    self.soln@[0] == 0,
                    justified(self.eqs@, self.guess@, self.soln@),
                    eqs_in_range(self.eqs@, n as nat),
                    eqs_in_range(self.guess@, n as nat),
                    sorted_by_var1(self.eqs@),
                    self.eqs@.to_multiset() == both_ways(old(self).eqs@).to_multiset(),
                    self.guess == old(self).guess,
                    self.vnlist == old(self).vnlist,
                    self.companion == old(self).companion,
                    self.missedvariables == old(self).missedvariables,
                    size == self.guess@.len(),
                    closed(self.eqs@, self.soln@) || eq_hits_sentinel(self.eqs@, self.soln@) || guess_hits_sentinel(
                        self.guess@,
                        self.soln@,
                    ),
                decreases size - i,
            {
                let g = self.guess[i];
                let s1 = self.soln[g.var1 as usize];
                let s2 = self.soln[g.var2 as usize];
                let ghost a = self.soln@;
                if s1 != NO_SOLN && s2 == NO_SOLN {
                    self.propagate(g.var2, s1.wrapping_sub(g.rhs));
                    proof {
                        lemma_justified_step(self.eqs@, self.guess@, a, self.soln@, g.var2 as int, s1.wrapping_sub(g.rhs), i as int);
                        lemma_hits_kept(self.eqs@, self.guess@, a, self.soln@);
                        if s1.wrapping_sub(g.rhs) == NO_SOLN {
                            assert(self.guess@[i as int] == g);
                            assert(guess_hits_sentinel(self.guess@, a));
                        }
                    }
                } else if s1 == NO_SOLN && s2 != NO_SOLN {
                    self.propagate(g.var1, s2.wrapping_add(g.rhs));
                    proof {
                        lemma_justified_step(self.eqs@, self.guess@, a, self.soln@, g.var1 as int, s2.wrapping_add(g.rhs), i as int);
                        lemma_hits_kept(self.eqs@, self.guess@, a, self.soln@);
                        if s2.wrapping_add(g.rhs) == NO_SOLN {
                            assert(self.guess@[i as int] == g);
                            assert(guess_hits_sentinel(self.guess@, a));
                        }
                    }
                } else if s1 == NO_SOLN && s2 == NO_SOLN {
                    count = count + 1;
                }
                i += 1;
            }
            if count == lastcount {
                break;
            }
            lastcount = count;
            if count == 0 {
                break;
            }
        }
    }

    /// Add the mirror image of every equation, so the walk can follow equations either way,
    /// and order all of them by first variable.
    pub fn duplicate(&mut self)
        ensures
            sorted_by_var1(final(self).eqs@),
            final(self).eqs@.to_multiset() == both_ways(old(self).eqs@).to_multiset(),
            final(self).eqs@.len() == 2 * old(self).eqs@.len(),
            final(self).guess == old(self).guess,
            final(self).vnlist == old(self).vnlist,
            final(self).companion == old(self).companion,
            final(self).soln == old(self).soln,
            final(self).missedvariables == old(self).missedvariables,
    {
        let size = self.eqs.len();
        let mut all: Vec<StackEqn> = Vec::new();
        let mut i: usize = 0;
        while i < size
            invariant
                size == old(self).eqs@.len(),
                self.eqs == old(self).eqs,
                i <= size,
                all@ == old(self).eqs@.take(i as int),
            decreases size - i,
        {
            all.push(self.eqs[i]);
            i += 1;
            assert(all@ =~= old(self).eqs@.take(i as int));
        }
        let mut i: usize = 0;
        while i < size
            invariant
                size == old(self).eqs@.len(),
                self.eqs == old(self).eqs,
                i <= size,
                all@ == old(self).eqs@ + old(self).eqs@.map_values(|e: StackEqn| mirror(e)).take(i as int),
            decreases size - i,
        {
            let e = self.eqs[i];
            all.push(StackEqn { var1: e.var2, var2: e.var1, rhs: 0i32.wrapping_sub(e.rhs) });
            i += 1;
            assert(all@ =~= old(self).eqs@ + old(self).eqs@.map_values(|e: StackEqn| mirror(e)).take(i as int));
        }
        assert(old(self).eqs@.map_values(|e: StackEqn| mirror(e)).take(size as int) =~= old(self).eqs@.map_values(
            |e: StackEqn| mirror(e),
        ));
        self.eqs = sort_by_var1(&all);
    }
}

} // verus!

verus! {

/// `v` cut to its low `size` bytes (unchanged for 8 bytes or more).
pub fn mask_value(v: u64, size: u32) -> (r: u64)
    ensures
        r == if size >= 8 { v } else { v & byte_mask(size as nat) },
{
    if size >= 8 {
        v
    } else {
        v & calc_mask(size)
    }
}

/// After the stack analysis, op `o` has been rewritten to `sp_input + constant`: it defined a
/// reference to the stack pointer, it is now an INT_ADD of the stack pointer's input and a new
/// constant, and nothing else about it changed.
pub open spec fn rewritten_to_sp_add(old_f: &Funcdata, new_f: &Funcdata, o: int, addr: Address, size: u32) -> bool {
    let (a, b) = (old_f.ops@[o], new_f.ops@[o]);
    &&& b.opc == OpCode::IntAdd
    &&& b.inrefs@.len() == 2
    &&& b.output == a.output && b.seqnum == a.seqnum && b.parent == a.parent && b.dead == a.dead && b.guarded_op == a.guarded_op
    &&& is_sp_ref(old_f, b.inrefs@[0].0 as int, addr, size)
    &&& old_f.vns@[b.inrefs@[0].0 as int].input
    &&& b.inrefs@[1].0 >= old_f.vns@.len()
    &&& b.inrefs@[1].0 < new_f.vns@.len()
    &&& new_f.vns@[b.inrefs@[1].0 as int].constant
    &&& exists|j: int| is_sp_ref(old_f, j, addr, size) && #[trigger] old_f.vns@[j].def == Some(OpId(o as usize))
}

/// `refs` lists every reference to the stack pointer `(sb_addr, sb_size)` of `f`, in the
/// order the analysis indexes them.
pub open spec fn refs_listed(f: &Funcdata, refs: Seq<VarnodeId>, sb_addr: Address, sb_size: u32) -> bool {
    &&& refs_sorted(f, refs)
    &&& forall|k: int| 0 <= k < refs.len() ==> is_sp_ref(f, (#[trigger] refs[k]).0 as int, sb_addr, sb_size)
    &&& forall|i: int| is_sp_ref(f, i, sb_addr, sb_size) ==> refs.contains(VarnodeId(i as usize))
}

/// `soln` solves the stack system of `f` over the references `refs` (the input first): the
/// input's value is 0, every other solution follows from an equation, read either way, or from
/// a guess, and every reference the equations link to the input is solved, unless a value met
/// on the way equals the sentinel [`NO_SOLN`].
pub open spec fn solves_stack(f: &Funcdata, refs: Seq<VarnodeId>, sb_addr: Address, soln: Seq<i32>) -> bool {
    let n = refs.len() as int;
    let eqs = both_ways(system_eqs(f, refs, sb_addr, n));
    let guess = system_guesses(f, refs, sb_addr, n);
    &&& soln.len() == refs.len()
    &&& soln[0] == 0
    &&& justified(eqs, guess, soln)
    &&& closed(eqs, soln) || eq_hits_sentinel(eqs, soln) || guess_hits_sentinel(guess, soln)
}

/// The op defining reference `i` of `refs` (if an op defines it) is now an INT_ADD of the
/// stack pointer's input and a new constant of the input's size, holding the solution of a
/// reference that op defines, cut to that size.
pub open spec fn ref_rewritten(old_f: &Funcdata, new_f: &Funcdata, refs: Seq<VarnodeId>, soln: Seq<i32>, i: int) -> bool {
    match old_f.vns@[refs[i].0 as int].def {
        None => true,
        Some(op) => {
            let o = new_f.ops@[op.0 as int];
            let size = old_f.vns@[refs[0].0 as int].size;
            let k = new_f.vns@[o.inrefs@[1].0 as int];
            &&& o.opc == OpCode::IntAdd
            &&& o.inrefs@.len() == 2
            &&& o.inrefs@[0] == refs[0]
            &&& k.constant
            &&& k.size == size
            &&& exists|j: int|
                1 <= j < refs.len() && #[trigger] soln[j] != NO_SOLN && old_f.vns@[refs[j].0 as int].def == Some(op)
                    && k.loc.offset == (if size >= 8 {
                    soln[j] as i64 as u64
                } else {
                    (soln[j] as i64 as u64) & byte_mask(size as nat)
                })
        },
    }
}

/// What [`analyze_extra_pop`] does to `old_f`, giving `new_f`: where the prototype's
/// `extrapop` is unknown and the first reference to the stack pointer is its input, some
/// solution of the stack system ([`solves_stack`]) has each reference it solves rewritten
/// ([`ref_rewritten`]).
pub open spec fn extra_pop_applied(old_f: &Funcdata, new_f: &Funcdata, sb_addr: Address, sb_size: u32) -> bool {
    old_f.proto_model.extrapop == EXTRAPOP_UNKNOWN ==> exists|refs: Seq<VarnodeId>|
        refs_listed(old_f, refs, sb_addr, sb_size) && (refs.len() > 0 && old_f.vns@[refs[0].0 as int].input ==> exists|
            soln: Seq<i32>,
        |
            solves_stack(old_f, refs, sb_addr, soln) && forall|i: int|
                1 <= i < refs.len() && soln[i] != NO_SOLN ==> #[trigger] ref_rewritten(old_f, new_f, refs, soln, i))
}

/// Where the prototype's `extrapop` is not known, recover the stack pointer's value at every
/// reference to it: solve the [`StackSolver`] system built from the function and rewrite each
/// solved definition into `sp_input + <solution>` (the solution cut to the stack pointer's
/// size). For an INDIRECT standing for a known call, the call's recovered stack change (its
/// solution minus that of the stack pointer carried into it) is recorded in its call spec.
///
/// Nothing changes when the prototype's `extrapop` is known, when there is no reference to the
/// stack pointer, or when its first reference is not the function input.
pub fn analyze_extra_pop(f: &mut Funcdata, sb_addr: Address, sb_size: u32)
    requires
        old(f).wf(),
        old(f).vns@.len() <= i32::MAX,
    ensures
        final(f).wf(),
        old(f).proto_model.extrapop != EXTRAPOP_UNKNOWN ==> *final(f) == *old(f),
        (forall|i: int| #[trigger] is_sp_ref(old(f), i, sb_addr, sb_size) ==> !old(f).vns@[i].input) ==> *final(f) == *old(f),
        final(f).ops@.len() == old(f).ops@.len(),
        final(f).vns@.len() >= old(f).vns@.len(),
        final(f).vns@.take(old(f).vns@.len() as int) == old(f).vns@,
        final(f).blocks == old(f).blocks,
        forall|o: int| 0 <= o < old(f).ops@.len() ==> #[trigger] final(f).ops@[o] == old(f).ops@[o]
            || rewritten_to_sp_add(old(f), final(f), o, sb_addr, sb_size),
        extra_pop_applied(old(f), final(f), sb_addr, sb_size),
{
    if f.proto_model.extrapop != EXTRAPOP_UNKNOWN {
        return;
    }
    let mut solver = StackSolver::new();
    let built = solver.build(f, sb_addr, sb_size);
    proof {
        assert(refs_listed(old(f), solver.vnlist@, sb_addr, sb_size));
    }
    if built.is_err() {
        assert(*f == *old(f));
        return;
    }
    if solver.vnlist.len() == 0 {
        return;
    }
    let ghost sys = solver.eqs@;
    proof {
        assert(is_sp_ref(&*old(f), solver.vnlist@[0].0 as int, sb_addr, sb_size));
    }
    proof {
        assert forall|k: int| 0 <= k < solver.eqs@.len() implies 0 <= (#[trigger] solver.eqs@[k]).var1 < solver.vnlist@.len() && 0 <= solver.eqs@[k].var2 < solver.vnlist@.len() by {
            assert(equation_from_def(&*old(f), solver.vnlist@, solver.eqs@[k]));
        }
    }
    solver.solve();
    let invn = solver.vnlist[0];
    let n = solver.vnlist.len();
    let ghost f0 = *old(f);
    proof {
        assert(is_sp_ref(&f0, invn.0 as int, sb_addr, sb_size));
        assert(f0.vns@[invn.0 as int].input);
        lemma_same_eqs(solver.eqs@, both_ways(sys), solver.guess@, solver.soln@);
        assert(solves_stack(&f0, solver.vnlist@, sb_addr, solver.soln@));
    }
    let mut i: usize = 1;
    while i < n
        invariant
            1 <= i <= n,
            n == solver.vnlist@.len(),
            n == solver.soln@.len(),
            n == solver.companion@.len(),
            forall|j: int| 0 <= j < n ==> (#[trigger] solver.companion@[j] == -1 || 0 <= solver.companion@[j] < n),
            forall|k: int| 0 <= k < n ==> is_sp_ref(&f0, (#[trigger] solver.vnlist@[k]).0 as int, sb_addr, sb_size),
            invn == solver.vnlist@[0],
            is_sp_ref(&f0, invn.0 as int, sb_addr, sb_size),
            f0.vns@[invn.0 as int].input,
            f0 == *old(f),
            f0.wf(),
            f.wf(),
            f.ops@.len() == f0.ops@.len(),
            f.vns@.len() >= f0.vns@.len(),
            f.vns@.take(f0.vns@.len() as int) == f0.vns@,
            f.blocks == f0.blocks,
            forall|o: int| 0 <= o < f0.ops@.len() ==> #[trigger] f.ops@[o] == f0.ops@[o]
                || rewritten_to_sp_add(&f0, &*f, o, sb_addr, sb_size),
            forall|i2: int| 1 <= i2 < i && solver.soln@[i2] != NO_SOLN ==> #[trigger] ref_rewritten(&f0, &*f, solver.vnlist@, solver.soln@, i2),
        decreases n - i,
    {
        let ghost pre = *f;
        let vn = solver.vnlist[i];
        let soln = solver.soln[i];
        proof {
            assert(is_sp_ref(&f0, vn.0 as int, sb_addr, sb_size));
            assert(f.vns@[vn.0 as int] == f0.vns@[vn.0 as int]);
            assert(crate::funcdata::vn_wf(f.vns@[vn.0 as int], f.ops@.len()));
        }
        if soln != NO_SOLN {
            if let Some(op) = f.vn(vn).def {
                if f.op(op).code() == OpCode::Indirect {
                    if let Some(call) = f.op(op).guarded_op() {
                        if let Some(idx) = f.call_spec_index(call) {
                            let comp = solver.companion[i];
                            let soln2 = if comp >= 0 { solver.soln[comp as usize] } else { 0 };
                            let mut cs = f.call_specs[idx].1.copy();
                            cs.effective_extrapop = Some(soln.wrapping_sub(soln2));
                            let ghost before = *f;
                            f.set_call_spec(call, cs);
                            proof {
                                assert forall|o: int| 0 <= o < f0.ops@.len() && rewritten_to_sp_add(&f0, &before, o, sb_addr, sb_size)
                                    implies rewritten_to_sp_add(&f0, &*f, o, sb_addr, sb_size) by {
                                    let j = choose|j: int| is_sp_ref(&f0, j, sb_addr, sb_size) && #[trigger] f0.vns@[j].def == Some(OpId(o as usize));
                                }
                            }
                        }
                    }
                }
                let sz = f.vn(invn).size;
                let kval = mask_value(soln as i64 as u64, sz);
                let ghost before = *f;
                let k = f.new_const(sz, kval);
                let ins = [invn, k];
                f.op_set_opcode(op, OpCode::IntAdd);
                f.op_set_all_input(op, &ins);
                proof {
                    assert(f.vns@.take(f0.vns@.len() as int) =~= f0.vns@) by {
                        assert(before.vns@.take(f0.vns@.len() as int) == f0.vns@);
                    }
                    assert(f0.vns@[vn.0 as int].def == Some(op));
                    assert(rewritten_to_sp_add(&f0, &*f, op.0 as int, sb_addr, sb_size)) by {
                        assert(f0.vns@[vn.0 as int].def == Some(OpId(op.0 as usize)));
                    }
                    assert forall|o: int| 0 <= o < f0.ops@.len() implies #[trigger] f.ops@[o] == f0.ops@[o]
                        || rewritten_to_sp_add(&f0, &*f, o, sb_addr, sb_size) by {
                        if o != op.0 {
                            assert(f.ops@[o] == before.ops@[o]);
                            if rewritten_to_sp_add(&f0, &before, o, sb_addr, sb_size) {
                                let j = choose|j: int| is_sp_ref(&f0, j, sb_addr, sb_size) && #[trigger] f0.vns@[j].def == Some(OpId(o as usize));
                            }
                        }
                    }
                    assert forall|i2: int| 1 <= i2 < i && solver.soln@[i2] != NO_SOLN implies #[trigger] ref_rewritten(
                        &f0,
                        &before,
                        solver.vnlist@,
                        solver.soln@,
                        i2,
                    ) by {
                        assert(ref_rewritten(&f0, &pre, solver.vnlist@, solver.soln@, i2));
                    }
                    assert(f.ops@[op.0 as int].inrefs@ =~= seq![invn, k]);
                    assert(f.vns@.take(before.vns@.len() as int) =~= before.vns@);
                    lemma_rewrite_kept(&f0, &before, &*f, solver.vnlist@, solver.soln@, i as int, op, k);
                }
            }
        }
        i += 1;
    }
    proof {
        assert(refs_listed(old(f), solver.vnlist@, sb_addr, sb_size));
        assert(solves_stack(old(f), solver.vnlist@, sb_addr, solver.soln@));
    }
}

/// One more reference rewritten: the op defining reference `i` now adds the constant `k` to the
/// input, and every reference rewritten before stays so.
proof fn lemma_rewrite_kept(
    f0: &Funcdata,
    pre: &Funcdata,
    post: &Funcdata,
    refs: Seq<VarnodeId>,
    soln: Seq<i32>,
    i: int,
    op: OpId,
    k: VarnodeId,
)
    requires
        1 <= i < refs.len(),
        soln.len() == refs.len(),
        soln[i] != NO_SOLN,
        f0.vns@[refs[i].0 as int].def == Some(op),
        refs[0].0 < f0.vns@.len(),
        pre.vns@.len() >= f0.vns@.len(),
        pre.vns@.take(f0.vns@.len() as int) == f0.vns@,
        post.vns@.len() == pre.vns@.len() + 1,
        post.vns@.take(pre.vns@.len() as int) == pre.vns@,
        k.0 == pre.vns@.len(),
        post.ops@.len() == pre.ops@.len(),
        forall|o: int| 0 <= o < pre.ops@.len() && o != op.0 ==> #[trigger] post.ops@[o] == pre.ops@[o],
        post.ops@[op.0 as int].opc == OpCode::IntAdd,
        post.ops@[op.0 as int].inrefs@ == seq![refs[0], k],
        post.vns@[k.0 as int].constant,
        post.vns@[k.0 as int].size == f0.vns@[refs[0].0 as int].size,
        post.vns@[k.0 as int].loc.offset == (if f0.vns@[refs[0].0 as int].size >= 8 {
            soln[i] as i64 as u64
        } else {
            (soln[i] as i64 as u64) & byte_mask(f0.vns@[refs[0].0 as int].size as nat)
        }),
        forall|i2: int| 1 <= i2 < i && soln[i2] != NO_SOLN ==> #[trigger] ref_rewritten(f0, pre, refs, soln, i2),
        f0.wf(),
        pre.wf(),
        f0.ops@.len() == pre.ops@.len(),
        forall|i2: int| 0 <= i2 < refs.len() ==> (#[trigger] refs[i2]).0 < f0.vns@.len(),
    ensures
        forall|i2: int| 1 <= i2 < i + 1 && soln[i2] != NO_SOLN ==> #[trigger] ref_rewritten(f0, post, refs, soln, i2),
{
    assert forall|i2: int| 1 <= i2 < i + 1 && soln[i2] != NO_SOLN implies #[trigger] ref_rewritten(f0, post, refs, soln, i2) by {
        if let Some(d) = f0.vns@[refs[i2].0 as int].def {
            if d == op {
                assert(soln[i] != NO_SOLN);
            } else {
                assert(i2 < i);
                assert(ref_rewritten(f0, pre, refs, soln, i2));
                assert(crate::funcdata::vn_wf(f0.vns@[refs[i2].0 as int], f0.ops@.len()));
                assert(crate::funcdata::op_wf(pre.ops@[d.0 as int], pre.vns@.len(), pre.ops@.len(), pre.blocks@.len()));
                assert(post.ops@[d.0 as int] == pre.ops@[d.0 as int]);
                let kk = pre.ops@[d.0 as int].inrefs@[1];
                assert(post.vns@[kk.0 as int] == pre.vns@[kk.0 as int]);
                let j = choose|j: int|
                    1 <= j < refs.len() && #[trigger] soln[j] != NO_SOLN && f0.vns@[refs[j].0 as int].def == Some(d)
                        && pre.vns@[kk.0 as int].loc.offset == (if f0.vns@[refs[0].0 as int].size >= 8 {
                        soln[j] as i64 as u64
                    } else {
                        (soln[j] as i64 as u64) & byte_mask(f0.vns@[refs[0].0 as int].size as nat)
                    });
            }
        }
    }
}

} // verus!

verus! {

/// The constant `c` when `vn` is `spcbasein + c` (an INT_ADD with the stack-pointer input in
/// slot 0 and a constant in slot 1), 0 when `vn` is `spcbasein` itself, otherwise nothing.
pub open spec fn stack_relative_spec(f: &Funcdata, spcbasein: VarnodeId, vn: VarnodeId) -> Option<u64> {
    if spcbasein == vn {
        Some(0)
    } else {
        match f.vns@[vn.0 as int].def {
            None => None,
            Some(op) => {
                let o = f.ops@[op.0 as int];
                if o.opc != OpCode::IntAdd || o.inrefs@.len() < 2 || o.inrefs@[0] != spcbasein
                    || !f.vns@[o.inrefs@[1].0 as int].constant {
                    None
                } else {
                    Some(f.vns@[o.inrefs@[1].0 as int].loc.offset)
                }
            },
        }
    }
}

/// Is `vn` the stack-pointer input plus a constant (or the input itself)? The constant.
fn is_stack_relative(f: &Funcdata, spcbasein: VarnodeId, vn: VarnodeId) -> (r: Option<u64>)
    requires
        f.wf(),
        vn.0 < f.vns@.len(),
    ensures
        r == stack_relative_spec(f, spcbasein, vn),
{
    if spcbasein == vn {
        return Some(0);
    }
    let addop = match f.vn(vn).def {
        Some(op) => op,
        None => return None,
    };
    proof {
        assert(crate::funcdata::vn_wf(f.vns@[vn.0 as int], f.ops@.len()));
        assert(crate::funcdata::op_wf(f.ops@[addop.0 as int], f.vns@.len(), f.ops@.len(), f.blocks@.len()));
    }
    let o = f.op(addop);
    if o.code() != OpCode::IntAdd {
        return None;
    }
    if o.input(0) != Some(spcbasein) {
        return None;
    }
    let constvn = match o.input(1) {
        Some(c) => c,
        None => return None,
    };
    if !f.vn(constvn).is_constant() {
        return None;
    }
    Some(f.vn(constvn).constant_value())
}

/// The LOAD's matching STORE is known: turn the LOAD into a COPY of the stored value (a
/// constant is copied into a new constant). Declines, changing nothing, when the stored value
/// is not linked into the data-flow.
fn adjust_load(f: &mut Funcdata, loadop: OpId, storeop: OpId) -> (r: bool)
    requires
        old(f).wf(),
        loadop.0 < old(f).ops@.len(),
        storeop.0 < old(f).ops@.len(),
        old(f).ops@[storeop.0 as int].inrefs@.len() >= 3,
        old(f).ops@[loadop.0 as int].inrefs@.len() >= 2,
    ensures
        final(f).wf(),
        ({
            let val = old(f).vns@[old(f).ops@[storeop.0 as int].inrefs@[2].0 as int];
            r == (val.constant || val.def is Some || val.input)
        }),
        !r ==> *final(f) == *old(f),
        r ==> changed_load_to_copy(old(f), final(f), loadop.0 as int),
        final(f).ops@.len() == old(f).ops@.len(),
        forall|o: int| 0 <= o < old(f).ops@.len() && o != loadop.0 ==> #[trigger] final(f).ops@[o] == old(f).ops@[o],
        final(f).vns@.len() >= old(f).vns@.len(),
        final(f).vns@.take(old(f).vns@.len() as int) == old(f).vns@,
        final(f).blocks == old(f).blocks,
        final(f).same_meta(old(f)),
{
    proof {
        assert(crate::funcdata::op_wf(f.ops@[storeop.0 as int], f.vns@.len(), f.ops@.len(), f.blocks@.len()));
    }
    let mut vn = f.op(storeop).inrefs[2];
    if f.vn(vn).is_constant() {
        let sz = f.vn(vn).size;
        let off = f.vn(vn).constant_value();
        vn = f.new_const(sz, off);
    } else if f.vn(vn).is_free() {
        return false;
    }
    let ghost mid = *f;
    f.op_remove_input(loadop, 1);
    f.op_set_opcode(loadop, OpCode::Copy);
    f.op_set_input(loadop, 0, vn);
    proof {
        assert(f.vns@.take(old(f).vns@.len() as int) =~= old(f).vns@);
    }
    true
}

/// Op `o` is now a COPY: its address-space input dropped and its first input replaced by the
/// value copied, otherwise as it was.
pub open spec fn changed_load_to_copy(old_f: &Funcdata, new_f: &Funcdata, o: int) -> bool {
    let (a, b) = (old_f.ops@[o], new_f.ops@[o]);
    &&& b.opc == OpCode::Copy
    &&& b.inrefs@.len() == a.inrefs@.len() - 1
    &&& b.output == a.output && b.seqnum == a.seqnum && b.parent == a.parent && b.dead == a.dead && b.guarded_op == a.guarded_op
}

/// One more than the ops and blocks of the first `n` blocks together.
pub open spec fn positions_of(blocks: Seq<crate::funcdata::BlockBasic>, n: int) -> int
    decreases n,
{
    if n <= 0 {
        1
    } else {
        positions_of(blocks, n - 1) + blocks[n - 1].ops@.len() + 1
    }
}

/// The number of positions a backward walk over the blocks can occupy: one for each op and
/// each block, and one more.
fn walk_positions(f: &Funcdata) -> (r: u128)
    ensures
        r == positions_of(f.blocks@, f.blocks@.len() as int),
        r >= 1,
{
    let mut total: u128 = 1;
    let mut b: usize = 0;
    while b < f.blocks.len()
        invariant
            b <= f.blocks@.len(),
            1 <= total <= 1 + b * (usize::MAX as int + 1),
            total == positions_of(f.blocks@, b as int),
        decreases f.blocks@.len() - b,
    {
        let len = f.blocks[b].ops.len() as u128;
        proof {
            assert(b * (usize::MAX as int + 1) + (usize::MAX as int + 1) == (b + 1) * (usize::MAX as int + 1)) by (nonlinear_arith);
            assert((b + 1) * (usize::MAX as int + 1) <= usize::MAX as int * (usize::MAX as int + 1)) by (nonlinear_arith)
                requires
                    b + 1 <= usize::MAX,
            ;
        }
        total = total + len + 1;
        b += 1;
    }
    total
}

} // verus!

verus! {

/// Some LOAD of `a` is a COPY in `b`.
pub open spec fn some_load_copied(a: &Funcdata, b: &Funcdata) -> bool {
    exists|o: int| 0 <= o < a.ops@.len() && a.ops@[o].opc == OpCode::Load && (#[trigger] b.ops@[o]).opc == OpCode::Copy
}

/// Every op is as before, or was a LOAD that is now a COPY.
pub open spec fn only_loads_copied(old_f: &Funcdata, new_f: &Funcdata) -> bool {
    &&& new_f.ops@.len() == old_f.ops@.len()
    &&& forall|o: int| 0 <= o < old_f.ops@.len() ==> #[trigger] new_f.ops@[o] == old_f.ops@[o] || (old_f.ops@[o].opc
        == OpCode::Load && changed_load_to_copy(old_f, new_f, o))
    &&& new_f.vns@.len() >= old_f.vns@.len()
    &&& new_f.vns@.take(old_f.vns@.len() as int) == old_f.vns@
    &&& new_f.blocks == old_f.blocks
    &&& new_f.same_meta(old_f)
}

/// An unchanged function has only had LOADs copied.
proof fn lemma_unchanged_only_loads(f: &Funcdata)
    ensures
        only_loads_copied(f, f),
{
    assert(f.vns@.take(f.vns@.len() as int) =~= f.vns@);
}

/// Trace back from the LOAD `loadop`, through its block and then through single predecessors,
/// for the last STORE through the same stack-relative pointer (`spcbasein + constz`); if it is
/// found, turn the LOAD into a COPY of what was stored ([`adjust_load`]). The search gives up
/// (returning 0 and changing nothing) at a call, at any other kind of STORE, at a STORE that
/// only overlaps the loaded bytes, at an op writing stack-space storage `id`, and at a block
/// with other than one predecessor. Returns the number of LOADs changed.
///
/// A chain of single-predecessor blocks that loops back on itself without any of those ops
/// would keep the search going for ever; the search stops once it has visited every position
/// of every block.
fn repair(f: &mut Funcdata, id: SpaceId, spcbasein: VarnodeId, loadop: OpId, constz: u64) -> (r: u32)
    requires
        old(f).wf(),
        loadop.0 < old(f).ops@.len(),
        old(f).ops@[loadop.0 as int].opc == OpCode::Load,
        old(f).ops@[loadop.0 as int].inrefs@.len() >= 2,
    ensures
        final(f).wf(),
        r <= 1,
        r == 0 ==> *final(f) == *old(f),
        r == 1 ==> changed_load_to_copy(old(f), final(f), loadop.0 as int),
        only_loads_copied(old(f), final(f)),
        forall|o: int| 0 <= o < old(f).ops@.len() && o != loadop.0 ==> #[trigger] final(f).ops@[o] == old(f).ops@[o],
{
    proof {
        assert(crate::funcdata::op_wf(f.ops@[loadop.0 as int], f.vns@.len(), f.ops@.len(), f.blocks@.len()));
        lemma_unchanged_only_loads(&*old(f));
    }
    let loadsize: u64 = match f.op(loadop).output {
        Some(o) => f.vn(o).size as u64,
        None => 0,
    };
    let mut curblock = match f.op(loadop).parent {
        Some(b) => b,
        None => return 0,
    };
    let mut iter = match crate::funcdata::position(&f.block(curblock).ops, loadop) {
        Some(p) => p,
        None => return 0,
    };
    let limit = walk_positions(f);
    let mut steps: u128 = 0;
    while steps < limit
        invariant
            f.wf(),
            *f == *old(f),
            only_loads_copied(old(f), old(f)),
            curblock.0 < f.blocks@.len(),
            iter <= f.blocks@[curblock.0 as int].ops@.len(),
            loadop.0 < f.ops@.len(),
            f.ops@[loadop.0 as int].opc == OpCode::Load,
            f.ops@[loadop.0 as int].inrefs@.len() >= 2,
            steps <= limit,
        decreases limit - steps,
    {
        steps = steps + 1;
        proof {
            assert(crate::funcdata::block_wf(f.blocks@[curblock.0 as int], f.ops@.len(), f.blocks@.len()));
        }
        if iter == 0 {
            if f.block(curblock).in_edges.len() != 1 {
                return 0;
            }
            curblock = f.block(curblock).in_edges[0];
            iter = f.block(curblock).ops.len();
            continue;
        }
        iter -= 1;
        let curop = f.block(curblock).ops[iter];
        proof {
            assert(crate::funcdata::op_wf(f.ops@[curop.0 as int], f.vns@.len(), f.ops@.len(), f.blocks@.len()));
        }
        if f.op(curop).is_call() {
            return 0;
        }
        if f.op(curop).code() == OpCode::Store {
            if f.op(curop).num_inputs() < 3 {
                return 0;
            }
            let ptrvn = f.op(curop).inrefs[1];
            let datavn = f.op(curop).inrefs[2];
            let constnew = match is_stack_relative(f, spcbasein, ptrvn) {
                Some(c) => c,
                None => return 0,
            };
            let datasize = f.vn(datavn).size as u64;
            if constnew == constz && loadsize == datasize {
                let changed = adjust_load(f, loadop, curop);
                return if changed { 1 } else { 0 };
            }
            if constnew <= constz.wrapping_add(loadsize.wrapping_sub(1)) && constnew.wrapping_add(datasize.wrapping_sub(1)) >= constz {
                return 0;
            }
        } else if let Some(outvn) = f.op(curop).output {
            if f.vn(outvn).loc.space == id {
                return 0;
            }
        }
    }
    0
}

/// Find the stack-pointer *clogs* — a constant added to the stack pointer where the "constant"
/// is itself loaded from the stack (possibly negated by a multiply by -1) — and [`repair`] the
/// LOAD each one reads. Returns the number of LOADs changed.
fn check_clog(f: &mut Funcdata, id: SpaceId, sb_addr: Address, sb_size: u32) -> (r: u32)
    requires
        old(f).wf(),
        old(f).vns@.len() <= u32::MAX,
    ensures
        final(f).wf(),
        only_loads_copied(old(f), final(f)),
        r == 0 ==> *final(f) == *old(f),
        r > 0 ==> some_load_copied(old(f), final(f)),
{
    proof {
        lemma_unchanged_only_loads(&*old(f));
    }
    let all = collect_refs(f, sb_addr, sb_size);
    if all.len() == 0 {
        return 0;
    }
    let spcbasein = all[0];
    if !f.vn(spcbasein).is_input() {
        return 0;
    }
    let ghost f0 = *old(f);
    let mut clogcount: u32 = 0;
    let mut k: usize = 1;
    while k < all.len()
        invariant
            1 <= k <= all@.len(),
            f0 == *old(f),
            f.wf(),
            only_loads_copied(&f0, &*f),
            clogcount == 0 ==> *f == f0,
            clogcount > 0 ==> some_load_copied(&f0, &*f),
            clogcount < k,
            all@.len() <= f0.vns@.len(),
            f0.vns@.len() <= u32::MAX,
            forall|j: int| 0 <= j < all@.len() ==> is_sp_ref(&f0, (#[trigger] all@[j]).0 as int, sb_addr, sb_size),
        decreases all@.len() - k,
    {
        let outvn = all[k];
        k += 1;
        proof {
            assert(is_sp_ref(&f0, outvn.0 as int, sb_addr, sb_size));
            assert(f.vns@[outvn.0 as int] == f0.vns@[outvn.0 as int]);
            assert(crate::funcdata::vn_wf(f.vns@[outvn.0 as int], f.ops@.len()));
        }
        let addop = match f.vn(outvn).def {
            Some(op) => op,
            None => continue,
        };
        proof {
            assert(crate::funcdata::op_wf(f.ops@[addop.0 as int], f.vns@.len(), f.ops@.len(), f.blocks@.len()));
        }
        if f.op(addop).code() != OpCode::IntAdd || f.op(addop).num_inputs() < 2 {
            continue;
        }
        let mut y = f.op(addop).inrefs[1];
        if !f.vn(y).is_written() {
            continue;
        }
        let mut x = f.op(addop).inrefs[0];
        let mut constx = is_stack_relative(f, spcbasein, x);
        if constx.is_none() {
            let t = x;
            x = y;
            y = t;
            constx = is_stack_relative(f, spcbasein, x);
        }
        if constx.is_none() {
            continue;
        }
        proof {
            assert(crate::funcdata::vn_wf(f.vns@[y.0 as int], f.ops@.len()));
        }
        let mut loadop = match f.vn(y).def {
            Some(op) => op,
            None => continue,
        };
        proof {
            assert(crate::funcdata::op_wf(f.ops@[loadop.0 as int], f.vns@.len(), f.ops@.len(), f.blocks@.len()));
        }
        if f.op(loadop).code() == OpCode::IntMult {
            if f.op(loadop).num_inputs() < 2 {
                continue;
            }
            let constvn = f.op(loadop).inrefs[1];
            if !f.vn(constvn).is_constant() {
                continue;
            }
            let sz = f.vn(constvn).size;
            if f.vn(constvn).constant_value() != mask_value(u64::MAX, sz) {
                continue;
            }
            y = f.op(loadop).inrefs[0];
            proof {
                assert(crate::funcdata::vn_wf(f.vns@[y.0 as int], f.ops@.len()));
            }
            loadop = match f.vn(y).def {
                Some(op) => op,
                None => continue,
            };
        }
        if f.op(loadop).code() != OpCode::Load || f.op(loadop).num_inputs() < 2 {
            continue;
        }
        proof {
            assert(crate::funcdata::op_wf(f.ops@[loadop.0 as int], f.vns@.len(), f.ops@.len(), f.blocks@.len()));
        }
        let ptrvn = f.op(loadop).inrefs[1];
        let constz = match is_stack_relative(f, spcbasein, ptrvn) {
            Some(c) => c,
            None => continue,
        };
        let ghost before = *f;
        let fixed = repair(f, id, spcbasein, loadop, constz);
        proof {
            assert forall|o: int| 0 <= o < f0.ops@.len() implies #[trigger] f.ops@[o] == f0.ops@[o] || (f0.ops@[o].opc
                == OpCode::Load && changed_load_to_copy(&f0, &*f, o)) by {
                if o == loadop.0 && fixed == 1 {
                    assert(before.ops@[o] == f0.ops@[o]);
                } else {
                    assert(f.ops@[o] == before.ops@[o]);
                }
            }
            assert(f.vns@.take(f0.vns@.len() as int) =~= f0.vns@) by {
                assert(f.vns@.take(before.vns@.len() as int) == before.vns@);
                assert(before.vns@.take(f0.vns@.len() as int) == f0.vns@);
            }
            if fixed == 1 {
                assert(f0.ops@[loadop.0 as int].opc == OpCode::Load);
                assert(f.ops@[loadop.0 as int].opc == OpCode::Copy);
            } else if clogcount > 0 {
                let w = choose|w: int| 0 <= w < f0.ops@.len() && f0.ops@[w].opc == OpCode::Load && (#[trigger] before.ops@[w]).opc == OpCode::Copy;
                assert(f.ops@[w] == before.ops@[w]);
            }
        }
        clogcount = clogcount + fixed;
    }
    clogcount
}

} // verus!

verus! {

/// The stack-pointer flow action: repair stack-pointer clogs, then — once no clog remains —
/// run the linear analysis that recovers the stack-pointer change across calls whose
/// `extrapop` is unknown. The analysis runs at most once per function.
#[derive(Debug, Default)]
pub struct ActionStackPtrFlow {
    /// The analysis has run (or cannot run) for the current function.
    pub analysis_finished: bool,
}

/// The first base register of the function's `stack` space, if it has such a space and the
/// space a base register.
pub open spec fn stack_base(f: &Funcdata) -> Option<(Address, u32)> {
    match space_named(f.spaces@, "stack"@) {
        Some(s) => if f.spaces@[s.0 as int].spacebase@.len() > 0 {
            Some(f.spaces@[s.0 as int].spacebase@[0])
        } else {
            None
        },
        None => None,
    }
}

impl ActionStackPtrFlow {
    pub fn new() -> (r: ActionStackPtrFlow)
        ensures
            !r.analysis_finished,
    {
        ActionStackPtrFlow { analysis_finished: false }
    }

    /// The action's name.
    pub fn name(&self) -> (r: &'static str)
        ensures
            r@ == "stackptrflow"@,
    {
        "stackptrflow"
    }

    /// Prepare for a new function.
    pub fn reset(&mut self, _data: &mut Funcdata)
        ensures
            !final(self).analysis_finished,
            *final(_data) == *old(_data),
    {
        self.analysis_finished = false;
    }

    /// Apply the action once: returns 1 when stack-pointer clogs were repaired (the analysis
    /// then waits for a later application); otherwise runs [`analyze_extra_pop`] on the stack's
    /// base register, finishes, and returns 0. Without a `stack` space or a stack base register
    /// there is nothing to analyse and the action finishes at once.
    pub fn apply(&mut self, data: &mut Funcdata) -> (r: u32)
        requires
            old(data).wf(),
            old(data).vns@.len() <= i32::MAX,
        ensures
            final(data).wf(),
            r <= 1,
            old(self).analysis_finished ==> r == 0 && *final(data) == *old(data) && final(self).analysis_finished,
            r == 1 ==> !old(self).analysis_finished && !final(self).analysis_finished && only_loads_copied(old(data), final(data)),
            r == 0 ==> final(self).analysis_finished,
            final(data).ops@.len() == old(data).ops@.len(),
            r == 1 <==> some_load_copied(old(data), final(data)),
            r == 0 && !old(self).analysis_finished ==> match stack_base(old(data)) {
                Some((sb_addr, sb_size)) => extra_pop_applied(old(data), final(data), sb_addr, sb_size),
                None => *final(data) == *old(data),
            },
    {
        if self.analysis_finished {
            return 0;
        }
        let stack = match data.spaces.by_name("stack") {
            Some(s) => s,
            None => {
                self.analysis_finished = true;
                return 0;
            },
        };
        let sp = data.spaces.get(stack);
        if sp.spacebase.len() == 0 {
            self.analysis_finished = true;
            return 0;
        }
        let (sb_addr, sb_size) = sp.spacebase[0];
        let numchange = check_clog(data, stack, sb_addr, sb_size);
        if numchange == 0 {
            analyze_extra_pop(data, sb_addr, sb_size);
            self.analysis_finished = true;
            0
        } else {
            1
        }
    }
}

} // verus!

verus! {

/// A known stack-pointer state: storage locations whose value is the entry stack pointer
/// plus a known offset. Each location occurs at most once.
pub open spec fn sval_wf(s: Seq<(Address, i64)>) -> bool {
    forall|i: int, j: int| 0 <= i < j < s.len() ==> (#[trigger] s[i]).0 != (#[trigger] s[j]).0
}

/// The offset known for location `a`, if any.
pub open spec fn sval_get(s: Seq<(Address, i64)>, a: Address) -> Option<i64> {
    if exists|i: int| 0 <= i < s.len() && (#[trigger] s[i]).0 == a {
        Some(s[choose|i: int| 0 <= i < s.len() && (#[trigger] s[i]).0 == a].1)
    } else {
        None
    }
}

/// The offset known for location `a`.
fn sval_lookup(s: &Vec<(Address, i64)>, a: Address) -> (r: Option<i64>)
    requires
        sval_wf(s@),
    ensures
        r == sval_get(s@, a),
{
    let mut i: usize = 0;
    while i < s.len()
        invariant
            i <= s@.len(),
            sval_wf(s@),
            forall|k: int| 0 <= k < i ==> s@[k].0 != a,
        decreases s@.len() - i,
    {
        if s[i].0 == a {
            assert(s@[i as int].0 == a);
            let ghost c = choose|k: int| 0 <= k < s@.len() && (#[trigger] s@[k]).0 == a;
            assert(c == i) by {
                if c != i {
                    if c < i {
                        assert(s@[c].0 != a);
                    } else {
                        assert(s@[i as int].0 != s@[c].0);
                    }
                }
            }
            return Some(s[i].1);
        }
        i += 1;
    }
    None
}

/// Track offset `v` for location `a`, replacing any offset it had.
fn sval_insert(s: &mut Vec<(Address, i64)>, a: Address, v: i64)
    requires
        sval_wf(old(s)@),
    ensures
        sval_wf(final(s)@),
        sval_get(final(s)@, a) == Some(v),
        forall|b: Address| b != a ==> sval_get(final(s)@, b) == sval_get(old(s)@, b),
{
    let mut i: usize = 0;
    while i < s.len()
        invariant
            i <= s@.len(),
            s@ == old(s)@,
            sval_wf(s@),
            forall|k: int| 0 <= k < i ==> s@[k].0 != a,
        decreases s@.len() - i,
    {
        if s[i].0 == a {
            s.set(i, (a, v));
            proof {
                assert(sval_wf(s@)) by {
                    assert forall|p: int, q: int| 0 <= p < q < s@.len() implies (#[trigger] s@[p]).0 != (#[trigger] s@[q]).0 by {
                        assert(old(s)@[p].0 != old(s)@[q].0);
                    }
                }
                assert(s@[i as int].0 == a);
                assert forall|b: Address| b != a implies sval_get(s@, b) == sval_get(old(s)@, b) by {
                    if exists|k: int| 0 <= k < s@.len() && (#[trigger] s@[k]).0 == b {
                        let k = choose|k: int| 0 <= k < s@.len() && (#[trigger] s@[k]).0 == b;
                        assert(old(s)@[k].0 == b);
                        let c = choose|k: int| 0 <= k < old(s)@.len() && (#[trigger] old(s)@[k]).0 == b;
                        assert(c == k) by {
                            if c != k {
                                assert(old(s)@[c].0 != old(s)@[k].0);
                            }
                        }
                    } else {
                        assert forall|k: int| 0 <= k < old(s)@.len() implies (#[trigger] old(s)@[k]).0 != b by {
                            if k != i {
                                assert(s@[k] == old(s)@[k]);
                            }
                        }
                    }
                }
                let c = choose|k: int| 0 <= k < s@.len() && (#[trigger] s@[k]).0 == a;
                assert(c == i) by {
                    if c != i {
                        assert(s@[c].0 != s@[i as int].0);
                    }
                }
            }
            return;
        }
        i += 1;
    }
    s.push((a, v));
    proof {
        let n = old(s)@.len() as int;
        assert(sval_wf(s@)) by {
            assert forall|p: int, q: int| 0 <= p < q < s@.len() implies (#[trigger] s@[p]).0 != (#[trigger] s@[q]).0 by {
                if q == n {
                    assert(old(s)@[p].0 != a);
                } else {
                    assert(old(s)@[p].0 != old(s)@[q].0);
                }
            }
        }
        assert(s@[n].0 == a);
        let c = choose|k: int| 0 <= k < s@.len() && (#[trigger] s@[k]).0 == a;
        assert(c == n) by {
            if c != n {
                assert(old(s)@[c].0 != a);
            }
        }
        assert forall|b: Address| b != a implies sval_get(s@, b) == sval_get(old(s)@, b) by {
            if exists|k: int| 0 <= k < old(s)@.len() && (#[trigger] old(s)@[k]).0 == b {
                let k = choose|k: int| 0 <= k < old(s)@.len() && (#[trigger] old(s)@[k]).0 == b;
                assert(s@[k].0 == b);
                let c = choose|k: int| 0 <= k < s@.len() && (#[trigger] s@[k]).0 == b;
                assert(c == k) by {
                    if c != k {
                        if c == n {
                            assert(s@[c].0 == a);
                        } else {
                            assert(old(s)@[c].0 != old(s)@[k].0);
                        }
                    }
                }
            } else {
                assert forall|k: int| 0 <= k < s@.len() implies (#[trigger] s@[k]).0 != b by {
                    if k < n {
                        assert(s@[k] == old(s)@[k]);
                    }
                }
            }
        }
    }
}

/// Stop tracking location `a`.
fn sval_remove(s: &mut Vec<(Address, i64)>, a: Address)
    requires
        sval_wf(old(s)@),
    ensures
        sval_wf(final(s)@),
        sval_get(final(s)@, a) is None,
        forall|b: Address| b != a ==> sval_get(final(s)@, b) == sval_get(old(s)@, b),
{
    let mut out: Vec<(Address, i64)> = Vec::new();
    let mut i: usize = 0;
    while i < s.len()
        invariant
            i <= s@.len(),
            s@ == old(s)@,
            sval_wf(s@),
            sval_wf(out@),
            forall|k: int| 0 <= k < out@.len() ==> (#[trigger] out@[k]).0 != a,
            forall|k: int| #![trigger out@[k]] 0 <= k < out@.len() ==> exists|j: int| 0 <= j < i && (#[trigger] s@[j]) == out@[k],
            forall|j: int| 0 <= j < i && (#[trigger] s@[j]).0 != a ==> out@.contains(s@[j]),
        decreases s@.len() - i,
    {
        if s[i].0 != a {
            proof {
                assert forall|k: int| 0 <= k < out@.len() implies (#[trigger] out@[k]).0 != s@[i as int].0 by {
                    let j = choose|j: int| 0 <= j < i && (#[trigger] s@[j]) == out@[k];
                    assert(s@[j].0 != s@[i as int].0);
                }
            }
            let ghost prev = out@;
            out.push(s[i]);
            proof {
                assert forall|k: int| #![trigger out@[k]] 0 <= k < out@.len() implies exists|j: int| 0 <= j < i + 1 && (#[trigger] s@[j]) == out@[k] by {
                    if k == out@.len() - 1 {
                        assert(s@[i as int] == out@[k]);
                    } else {
                        let j = choose|j: int| 0 <= j < i && (#[trigger] s@[j]) == out@[k];
                    }
                }
                assert forall|j: int| 0 <= j < i + 1 && (#[trigger] s@[j]).0 != a implies out@.contains(s@[j]) by {
                    if j == i {
                        assert(out@[out@.len() - 1] == s@[j]);
                    } else {
                        assert(prev.contains(s@[j]));
                        let k = choose|k: int| 0 <= k < prev.len() && prev[k] == s@[j];
                        assert(out@[k] == s@[j]);
                    }
                }
            }
        }
        i += 1;
    }
    proof {
        assert forall|b: Address| b != a implies sval_get(out@, b) == sval_get(old(s)@, b) by {
            if exists|k: int| 0 <= k < old(s)@.len() && (#[trigger] old(s)@[k]).0 == b {
                let k = choose|k: int| 0 <= k < old(s)@.len() && (#[trigger] old(s)@[k]).0 == b;
                assert(out@.contains(old(s)@[k]));
                let m = choose|m: int| 0 <= m < out@.len() && out@[m] == old(s)@[k];
                assert(out@[m].0 == b);
                let c = choose|m: int| 0 <= m < out@.len() && (#[trigger] out@[m]).0 == b;
                assert(c == m) by {
                    if c != m {
                        assert(out@[c].0 != out@[m].0);
                    }
                }
            } else {
                assert forall|m: int| 0 <= m < out@.len() implies (#[trigger] out@[m]).0 != b by {
                    let j = choose|j: int| 0 <= j < old(s)@.len() && (#[trigger] old(s)@[j]) == out@[m];
                }
            }
        }
    }
    *s = out;
}

} // verus!

verus! {

/// The offset `s` tracks for the storage of varnode `v`.
pub open spec fn known_offset_spec(f: &Funcdata, s: Seq<(Address, i64)>, v: VarnodeId) -> Option<i64> {
    sval_get(s, f.vns@[v.0 as int].loc)
}

/// The value of varnode `v` when it is a constant, read as signed.
pub open spec fn cval_spec(f: &Funcdata, v: VarnodeId) -> Option<i64> {
    if f.vns@[v.0 as int].constant {
        Some(f.vns@[v.0 as int].loc.offset as i64)
    } else {
        None
    }
}

/// The stack offset an op's output holds when it computes `entry_sp + constant` from a known
/// value: a COPY of a known value, an INT_ADD of a known value and a constant (either way
/// round), an INT_SUB of a constant from a known value. Sums wrap at 64 bits.
pub open spec fn symbolic_value_spec(f: &Funcdata, o: crate::funcdata::PcodeOp, s: Seq<(Address, i64)>) -> Option<i64> {
    let ins = o.inrefs@;
    match o.opc {
        OpCode::Copy => if ins.len() >= 1 {
            known_offset_spec(f, s, ins[0])
        } else {
            None
        },
        OpCode::IntAdd => if ins.len() >= 2 {
            if known_offset_spec(f, s, ins[0]) is Some && cval_spec(f, ins[1]) is Some {
                Some(vstd::wrapping::i64_specs::wrapping_add(known_offset_spec(f, s, ins[0]).unwrap(), cval_spec(f, ins[1]).unwrap()))
            } else if known_offset_spec(f, s, ins[1]) is Some && cval_spec(f, ins[0]) is Some {
                Some(vstd::wrapping::i64_specs::wrapping_add(known_offset_spec(f, s, ins[1]).unwrap(), cval_spec(f, ins[0]).unwrap()))
            } else {
                None
            }
        } else {
            None
        },
        OpCode::IntSub => if ins.len() >= 2 && known_offset_spec(f, s, ins[0]) is Some && cval_spec(f, ins[1]) is Some {
            Some(
                vstd::wrapping::i64_specs::wrapping_add(
                    known_offset_spec(f, s, ins[0]).unwrap(),
                    vstd::wrapping::i64_specs::wrapping_sub(0, cval_spec(f, ins[1]).unwrap()),
                ),
            )
        } else {
            None
        },
        _ => None,
    }
}

fn known_offset(f: &Funcdata, s: &Vec<(Address, i64)>, v: VarnodeId) -> (r: Option<i64>)
    requires
        sval_wf(s@),
        v.0 < f.vns@.len(),
    ensures
        r == known_offset_spec(f, s@, v),
{
    sval_lookup(s, f.vn(v).loc)
}

fn cval(f: &Funcdata, v: VarnodeId) -> (r: Option<i64>)
    requires
        v.0 < f.vns@.len(),
    ensures
        r == cval_spec(f, v),
{
    if f.vn(v).is_constant() {
        Some(#[verifier::truncate] (f.vn(v).constant_value() as i64))
    } else {
        None
    }
}

/// The stack offset the op's output holds (see [`symbolic_value_spec`]).
fn symbolic_value(f: &Funcdata, o: &crate::funcdata::PcodeOp, s: &Vec<(Address, i64)>) -> (r: Option<i64>)
    requires
        sval_wf(s@),
        crate::funcdata::op_wf(*o, f.vns@.len(), f.ops@.len(), f.blocks@.len()),
    ensures
        r == symbolic_value_spec(f, *o, s@),
{
    match o.code() {
        OpCode::Copy => {
            if o.num_inputs() < 1 {
                return None;
            }
            known_offset(f, s, o.inrefs[0])
        },
        OpCode::IntAdd => {
            if o.num_inputs() < 2 {
                return None;
            }
            let (a, b) = (o.inrefs[0], o.inrefs[1]);
            if let (Some(av), Some(bc)) = (known_offset(f, s, a), cval(f, b)) {
                return Some(av.wrapping_add(bc));
            }
            if let (Some(bv), Some(ac)) = (known_offset(f, s, b), cval(f, a)) {
                return Some(bv.wrapping_add(ac));
            }
            None
        },
        OpCode::IntSub => {
            if o.num_inputs() < 2 {
                return None;
            }
            let (a, b) = (o.inrefs[0], o.inrefs[1]);
            match (known_offset(f, s, a), cval(f, b)) {
                (Some(av), Some(bc)) => Some(av.wrapping_add(0i64.wrapping_sub(bc))),
                _ => None,
            }
        },
        _ => None,
    }
}

/// Call `call`'s instruction pushes its return address: `store` is a STORE through the stack
/// pointer of a constant and `push` is `sp = sp - amt`, both from the call's instruction.
pub open spec fn is_call_push(f: &Funcdata, sp: Address, call: OpId, store: OpId, push: OpId, amt: i64) -> bool {
    let (c, st, pu) = (f.ops@[call.0 as int], f.ops@[store.0 as int], f.ops@[push.0 as int]);
    &&& call.0 < f.ops@.len() && store.0 < call.0 && push.0 < call.0
    &&& (c.opc == OpCode::Call || c.opc == OpCode::Callind)
    &&& st.opc == OpCode::Store && st.seqnum.pc == c.seqnum.pc
    &&& st.inrefs@.len() >= 3 && f.vns@[st.inrefs@[1].0 as int].loc == sp && f.vns@[st.inrefs@[2].0 as int].constant
    &&& pu.opc == OpCode::IntSub && pu.seqnum.pc == c.seqnum.pc
    &&& pu.inrefs@.len() >= 2 && f.vns@[pu.inrefs@[0].0 as int].loc == sp && f.vns@[pu.inrefs@[1].0 as int].constant
    &&& pu.output matches Some(o) && f.vns@[o.0 as int].loc == sp
    &&& amt == f.vns@[pu.inrefs@[1].0 as int].loc.offset as i64
}

/// Op `s` stores a constant through the stack pointer.
pub open spec fn is_retaddr_store_op(f: &Funcdata, sp: Address, s: int) -> bool {
    let st = f.ops@[s];
    &&& st.opc == OpCode::Store
    &&& st.inrefs@.len() >= 3 && f.vns@[st.inrefs@[1].0 as int].loc == sp && f.vns@[st.inrefs@[2].0 as int].constant
}

/// Op `j` is `sp = sp - constant` from the instruction at `pc`.
pub open spec fn is_push_at(f: &Funcdata, sp: Address, j: int, pc: Address) -> bool {
    0 <= j && is_push_op(f, sp, OpId(j as usize), pc)
}

/// Ops `i` up to (not including) `c` all come from the instruction of op `c`.
pub open spec fn in_run(f: &Funcdata, i: int, c: int) -> bool {
    &&& 0 <= i < c
    &&& forall|j: int| i <= j < c ==> (#[trigger] f.ops@[j]).seqnum.pc == f.ops@[c].seqnum.pc
}

/// Call `c` pushes its return address: among the ops of its instruction before it there are
/// a return-address STORE and a push of the stack pointer.
pub open spec fn pushes_retaddr(f: &Funcdata, sp: Address, c: int) -> bool {
    &&& (f.ops@[c].opc == OpCode::Call || f.ops@[c].opc == OpCode::Callind)
    &&& exists|s: int| in_run(f, s, c) && #[trigger] is_retaddr_store_op(f, sp, s)
    &&& exists|p: int| in_run(f, p, c) && #[trigger] is_push_at(f, sp, p, f.ops@[c].seqnum.pc)
}

/// For every CALL or CALLIND whose instruction pushes the return address — a STORE of a
/// constant through the stack pointer and a `sp = sp - N` among the ops of the same
/// instruction just before the call — the call, the store, the push and `N`, in the order of
/// the calls; the store and the push are the ones nearest the call.
fn call_push_restores(f: &Funcdata, sp: Address) -> (r: Vec<(OpId, OpId, OpId, i64)>)
    requires
        f.wf(),
    ensures
        forall|k: int| 0 <= k < r@.len() ==> is_call_push(f, sp, (#[trigger] r@[k]).0, r@[k].1, r@[k].2, r@[k].3),
        forall|c: int| 0 <= c < f.ops@.len() && pushes_retaddr(f, sp, c) ==> exists|k: int| 0 <= k < r@.len() && (#[trigger] r@[k]).0.0 == c,
        forall|k: int| 0 <= k < r@.len() ==> pushes_retaddr(f, sp, (#[trigger] r@[k]).0.0 as int),
        forall|k: int| 0 <= k < r@.len() ==> in_run(f, (#[trigger] r@[k]).1.0 as int, r@[k].0.0 as int) && in_run(f, r@[k].2.0 as int, r@[k].0.0 as int),
        forall|k: int, j: int| #![trigger r@[k], is_retaddr_store_op(f, sp, j)] 0 <= k < r@.len() && r@[k].1.0 < j < r@[k].0.0 ==> !is_retaddr_store_op(f, sp, j),
        forall|k: int, j: int| #![trigger r@[k], is_push_at(f, sp, j, f.ops@[r@[k].0.0 as int].seqnum.pc)] 0 <= k < r@.len() && r@[k].2.0 < j < r@[k].0.0 ==> !is_push_at(f, sp, j, f.ops@[r@[k].0.0 as int].seqnum.pc),
        forall|k1: int, k2: int| 0 <= k1 < k2 < r@.len() ==> (#[trigger] r@[k1]).0.0 < (#[trigger] r@[k2]).0.0,
{
    let mut out: Vec<(OpId, OpId, OpId, i64)> = Vec::new();
    let mut c: usize = 0;
    while c < f.ops.len()
        invariant
            c <= f.ops@.len(),
            f.wf(),
            forall|k: int| 0 <= k < out@.len() ==> is_call_push(f, sp, (#[trigger] out@[k]).0, out@[k].1, out@[k].2, out@[k].3),
            forall|c2: int| 0 <= c2 < c && pushes_retaddr(f, sp, c2) ==> exists|k: int| 0 <= k < out@.len() && (#[trigger] out@[k]).0.0 == c2,
            forall|k: int| 0 <= k < out@.len() ==> pushes_retaddr(f, sp, (#[trigger] out@[k]).0.0 as int) && out@[k].0.0 < c,
            forall|k: int| 0 <= k < out@.len() ==> in_run(f, (#[trigger] out@[k]).1.0 as int, out@[k].0.0 as int) && in_run(f, out@[k].2.0 as int, out@[k].0.0 as int),
            forall|k: int, j: int| #![trigger out@[k], is_retaddr_store_op(f, sp, j)] 0 <= k < out@.len() && out@[k].1.0 < j < out@[k].0.0 ==> !is_retaddr_store_op(f, sp, j),
            forall|k: int, j: int| #![trigger out@[k], is_push_at(f, sp, j, f.ops@[out@[k].0.0 as int].seqnum.pc)] 0 <= k < out@.len() && out@[k].2.0 < j < out@[k].0.0 ==> !is_push_at(f, sp, j, f.ops@[out@[k].0.0 as int].seqnum.pc),
            forall|k1: int, k2: int| 0 <= k1 < k2 < out@.len() ==> (#[trigger] out@[k1]).0.0 < (#[trigger] out@[k2]).0.0,
        decreases f.ops@.len() - c,
    {
        let call = OpId(c);
        let code = f.op(call).code();
        let ghost out0 = out@;
        if code == OpCode::Call || code == OpCode::Callind {
            let pc = f.op(call).seqnum.pc;
            let mut store: Option<OpId> = None;
            let mut push: Option<(OpId, i64)> = None;
            let mut i: usize = c;
            while i > 0 && f.op(OpId(i - 1)).seqnum.pc == pc
                invariant
                    i <= c,
                    c < f.ops@.len(),
                    f.wf(),
                    f.ops@[c as int].seqnum.pc == pc,
                    f.ops@[c as int].opc == code,
                    code == OpCode::Call || code == OpCode::Callind,
                    forall|j: int| i <= j < c ==> (#[trigger] f.ops@[j]).seqnum.pc == pc,
                    store matches Some(s) ==> i <= s.0 < c && is_retaddr_store_op(f, sp, s.0 as int)
                        && forall|j: int| s.0 < j < c ==> !is_retaddr_store_op(f, sp, j),
                    store is None ==> forall|j: int| i <= j < c ==> !is_retaddr_store_op(f, sp, j),
                    push matches Some((p, amt)) ==> is_push_op(f, sp, p, pc) && i <= p.0 < c && amt == f.vns@[f.ops@[p.0 as int].inrefs@[1].0 as int].loc.offset as i64
                        && forall|j: int| p.0 < j < c ==> !is_push_at(f, sp, j, pc),
                    push is None ==> forall|j: int| i <= j < c ==> !is_push_at(f, sp, j, pc),
                decreases i,
            {
                i -= 1;
                let op = OpId(i);
                let o = f.op(op);
                proof {
                    assert(crate::funcdata::op_wf(f.ops@[i as int], f.vns@.len(), f.ops@.len(), f.blocks@.len()));
                }
                match o.code() {
                    OpCode::Store => {
                        if store.is_none() && o.num_inputs() >= 3 && f.vn(o.inrefs[1]).loc == sp && f.vn(o.inrefs[2]).is_constant() {
                            store = Some(op);
                        }
                    },
                    OpCode::IntSub => {
                        if push.is_none() && o.num_inputs() >= 2 {
                            if let Some(out_vn) = o.output {
                                if f.vn(out_vn).loc == sp && f.vn(o.inrefs[0]).loc == sp && f.vn(o.inrefs[1]).is_constant() {
                                    let amt = #[verifier::truncate] (f.vn(o.inrefs[1]).constant_value() as i64);
                                    push = Some((op, amt));
                                }
                            }
                        }
                    },
                    _ => {},
                }
            }
            proof {
                assert forall|s: int| in_run(f, s, c as int) implies i <= s by {
                    if s < i {
                        assert(f.ops@[i - 1].seqnum.pc == pc);
                    }
                }
            }
            if let (Some(s), Some((p, amt))) = (store, push) {
                out.push((call, s, p, amt));
                proof {
                    assert(in_run(f, s.0 as int, c as int));
                    assert(in_run(f, p.0 as int, c as int));
                    assert(is_retaddr_store_op(f, sp, s.0 as int));
                    assert(is_push_at(f, sp, p.0 as int, f.ops@[c as int].seqnum.pc));
                    assert(pushes_retaddr(f, sp, c as int));
                    assert(out@[out@.len() - 1].0.0 == c);
                }
            } else {
                proof {
                    if pushes_retaddr(f, sp, c as int) {
                        let s2 = choose|s: int| in_run(f, s, c as int) && #[trigger] is_retaddr_store_op(f, sp, s);
                        let p2 = choose|p: int| in_run(f, p, c as int) && #[trigger] is_push_at(f, sp, p, f.ops@[c as int].seqnum.pc);
                        assert(i <= s2 && i <= p2);
                        assert(false);
                    }
                }
            }
        }
        proof {
            assert forall|c2: int| 0 <= c2 < c + 1 && pushes_retaddr(f, sp, c2) implies exists|k: int|
                0 <= k < out@.len() && (#[trigger] out@[k]).0.0 == c2 by {
                if c2 < c {
                    let k = choose|k: int| 0 <= k < out0.len() && (#[trigger] out0[k]).0.0 == c2;
                    assert(out@[k] == out0[k]);
                }
            }
        }
        c += 1;
    }
    out
}

/// Op `p` is `sp = sp - constant` from the instruction at `pc`.
pub open spec fn is_push_op(f: &Funcdata, sp: Address, p: OpId, pc: Address) -> bool {
    let pu = f.ops@[p.0 as int];
    &&& p.0 < f.ops@.len()
    &&& pu.opc == OpCode::IntSub && pu.seqnum.pc == pc
    &&& pu.inrefs@.len() >= 2 && f.vns@[pu.inrefs@[0].0 as int].loc == sp && f.vns@[pu.inrefs@[1].0 as int].constant
    &&& pu.output matches Some(o) && f.vns@[o.0 as int].loc == sp
}

} // verus!

verus! {

/// The out-degree of block `b`.
pub open spec fn outs_of(f: &Funcdata, b: int) -> int {
    f.blocks@[b].out_edges@.len() as int
}

/// The walk steps still owed to the first `m` blocks not yet visited: each takes one step per
/// out-edge and two more.
pub open spec fn unvisited_work(f: &Funcdata, visited: Seq<bool>, m: int) -> int
    decreases m,
{
    if m <= 0 {
        0
    } else {
        unvisited_work(f, visited, m - 1) + if visited[m - 1] { 0 } else { outs_of(f, m - 1) + 2 }
    }
}

/// The walk steps still owed to the blocks on the walk's stack: the out-edges each has left,
/// and one to leave it.
pub open spec fn stack_work(f: &Funcdata, stack: Seq<(usize, usize)>) -> int
    decreases stack.len(),
{
    if stack.len() == 0 {
        0
    } else {
        stack_work(f, stack.drop_last()) + outs_of(f, stack.last().0 as int) - stack.last().1 + 1
    }
}

/// Block `x` is on the walk's stack.
pub open spec fn on_stack(stack: Seq<(usize, usize)>, x: int) -> bool {
    exists|k: int| 0 <= k < stack.len() && stack[k].0 as int == x
}

proof fn lemma_unvisited_nonneg(f: &Funcdata, visited: Seq<bool>, m: int)
    requires
        0 <= m <= visited.len(),
    ensures
        unvisited_work(f, visited, m) >= 0,
    decreases m,
{
    if m > 0 {
        lemma_unvisited_nonneg(f, visited, m - 1);
    }
}

proof fn lemma_unvisited_mark(f: &Funcdata, visited: Seq<bool>, x: int, m: int)
    requires
        0 <= x < visited.len(),
        0 <= m <= visited.len(),
        !visited[x],
    ensures
        unvisited_work(f, visited.update(x, true), m) == unvisited_work(f, visited, m) - if x < m { outs_of(f, x) + 2 } else { 0 },
    decreases m,
{
    if m > 0 {
        lemma_unvisited_mark(f, visited, x, m - 1);
    }
}

proof fn lemma_stack_work_nonneg(f: &Funcdata, stack: Seq<(usize, usize)>)
    requires
        forall|k: int| 0 <= k < stack.len() ==> (#[trigger] stack[k]).1 <= outs_of(f, stack[k].0 as int),
    ensures
        stack_work(f, stack) >= 0,
        stack.len() > 0 ==> stack_work(f, stack) >= 1,
    decreases stack.len(),
{
    if stack.len() > 0 {
        lemma_stack_work_nonneg(f, stack.drop_last());
    }
}

/// The blocks in depth-first postorder from the entry block (block 0), following each block's
/// out-edges in order; blocks the entry does not reach are absent. The entry block comes last,
/// and every successor of a listed block is listed, so every block the entry reaches is.
///
/// The walk takes one step per out-edge and two per block, and is bounded by that count.
fn postorder(f: &Funcdata) -> (r: Vec<usize>)
    requires
        f.wf(),
    ensures
        forall|k: int| 0 <= k < r@.len() ==> (#[trigger] r@[k]) < f.blocks@.len(),
        r@.no_duplicates(),
        f.blocks@.len() > 0 ==> r@.len() > 0 && r@.last() == 0,
        forall|k: int, e: int| 0 <= k < r@.len() && 0 <= e < f.blocks@[r@[k] as int].out_edges@.len()
            ==> #[trigger] has_block(r@, (#[trigger] f.blocks@[r@[k] as int].out_edges@[e]).0 as int),
{
    let n = f.num_blocks();
    let mut order: Vec<usize> = Vec::new();
    if n == 0 {
        return order;
    }
    let mut visited: Vec<bool> = Vec::new();
    let mut i: usize = 0;
    while i < n
        invariant
            i <= n,
            visited@.len() == i,
            forall|j: int| 0 <= j < i ==> !(#[trigger] visited@[j]),
        decreases n - i,
    {
        visited.push(false);
        i += 1;
    }
    let mut limit: u128 = 0;
    let mut b: usize = 0;
    while b < n
        invariant
            b <= n,
            n == f.blocks@.len(),
            limit <= b * (usize::MAX as int + 2),
            visited@.len() == n,
            forall|j: int| 0 <= j < n ==> !(#[trigger] visited@[j]),
            limit == unvisited_work(f, visited@, b as int),
        decreases n - b,
    {
        proof {
            assert((b + 1) * (usize::MAX as int + 2) == b * (usize::MAX as int + 2) + usize::MAX as int + 2) by (nonlinear_arith);
            assert((b + 1) * (usize::MAX as int + 2) <= (usize::MAX as int) * (usize::MAX as int + 2)) by (nonlinear_arith)
                requires
                    b + 1 <= usize::MAX,
            ;
            assert((usize::MAX as int) * (usize::MAX as int + 2) < 0x1_0000_0000_0000_0000_0000_0000_0000_0000) by (nonlinear_arith)
                requires
                    usize::MAX as int <= 0xffff_ffff_ffff_ffff,
            ;
        }
        limit = limit + f.block(BlockId(b)).out_edges.len() as u128 + 2;
        b += 1;
    }
    let mut steps: u128 = 0;
    let mut stack: Vec<(usize, usize)> = Vec::new();
    stack.push((0, 0));
    proof {
        lemma_unvisited_mark(f, visited@, 0, n as int);
        assert(stack@.drop_last() =~= Seq::<(usize, usize)>::empty());
        assert(stack_work(f, Seq::<(usize, usize)>::empty()) == 0);
        assert(stack_work(f, stack@) == outs_of(f, 0) + 1);
        assert(stack@[0].0 == 0);
    }
    visited.set(0, true);
    proof {
        assert forall|x: int| 0 <= x < n && #[trigger] visited@[x] implies has_block(order@, x) || on_stack(stack@, x) by {
            assert(x == 0);
            assert(stack@[0].0 as int == x);
        }
    }
    while stack.len() > 0 && steps < limit
        invariant
            n == f.blocks@.len(),
            f.wf(),
            visited@.len() == n,
            forall|k: int| 0 <= k < stack@.len() ==> (#[trigger] stack@[k]).0 < n,
            forall|k: int| 0 <= k < stack@.len() ==> (#[trigger] stack@[k]).1 <= outs_of(f, stack@[k].0 as int),
            forall|k: int| 0 <= k < order@.len() ==> (#[trigger] order@[k]) < n,
            steps <= limit,
            order@.no_duplicates(),
            forall|k: int| 0 <= k < stack@.len() ==> visited@[(#[trigger] stack@[k]).0 as int],
            forall|k: int| 0 <= k < order@.len() ==> visited@[#[trigger] order@[k] as int],
            forall|k1: int, k2: int| 0 <= k1 < k2 < stack@.len() ==> (#[trigger] stack@[k1]).0 != (#[trigger] stack@[k2]).0,
            forall|k: int, j: int| 0 <= k < stack@.len() && 0 <= j < order@.len() ==> (#[trigger] stack@[k]).0 != #[trigger] order@[j],
            steps + unvisited_work(f, visited@, n as int) + stack_work(f, stack@) <= limit,
            forall|x: int| 0 <= x < n && #[trigger] visited@[x] ==> has_block(order@, x) || on_stack(stack@, x),
            forall|k: int, e: int| 0 <= k < order@.len() && 0 <= e < outs_of(f, order@[k] as int)
                ==> #[trigger] visited@[(#[trigger] f.blocks@[order@[k] as int].out_edges@[e]).0 as int],
            forall|k: int, e: int| 0 <= k < stack@.len() && 0 <= e < stack@[k].1
                ==> #[trigger] visited@[(#[trigger] f.blocks@[stack@[k].0 as int].out_edges@[e]).0 as int],
            stack@.len() > 0 ==> stack@[0].0 == 0,
            stack@.len() == 0 ==> order@.len() > 0 && order@.last() == 0,
        decreases limit - steps,
    {
        steps = steps + 1;
        let top = stack.len() - 1;
        let (blk, e) = stack[top];
        proof {
            assert(crate::funcdata::block_wf(f.blocks@[blk as int], f.ops@.len(), f.blocks@.len()));
        }
        let outs = &f.block(BlockId(blk)).out_edges;
        let ghost st0 = stack@;
        let ghost v0 = visited@;
        let ghost o0 = order@;
        if e < outs.len() {
            stack.set(top, (blk, e + 1));
            let succ = outs[e].0;
            proof {
                assert(stack@.drop_last() =~= st0.drop_last());
                assert(stack_work(f, st0) == stack_work(f, st0.drop_last()) + outs_of(f, blk as int) - e + 1);
                assert(stack_work(f, stack@) == stack_work(f, st0.drop_last()) + outs_of(f, blk as int) - (e + 1) + 1);
            }
            if !visited[succ] {
                let ghost st1 = stack@;
                proof {
                    lemma_unvisited_mark(f, visited@, succ as int, n as int);
                }
                visited.set(succ, true);
                stack.push((succ, 0));
                proof {
                    assert(stack@.drop_last() =~= st1);
                    assert(stack_work(f, stack@) == stack_work(f, st1) + outs_of(f, succ as int) + 1);
                }
            }
            proof {
                assert forall|x: int| 0 <= x < n && #[trigger] visited@[x] implies has_block(order@, x) || on_stack(stack@, x) by {
                    if x == succ as int && !v0[x] {
                        assert(stack@[stack@.len() - 1].0 as int == x);
                    } else {
                        assert(v0[x]);
                        if on_stack(st0, x) {
                            let k = choose|k: int| 0 <= k < st0.len() && st0[k].0 as int == x;
                            assert(stack@[k].0 == st0[k].0);
                        }
                    }
                }
                assert forall|k: int, e2: int| 0 <= k < stack@.len() && 0 <= e2 < stack@[k].1
                    implies #[trigger] visited@[(#[trigger] f.blocks@[stack@[k].0 as int].out_edges@[e2]).0 as int] by {
                    if k < st0.len() && !(k == top && e2 == e) {
                        assert(v0[f.blocks@[st0[k].0 as int].out_edges@[e2].0 as int]);
                    }
                }
            }
        } else {
            order.push(blk);
            stack.pop();
            proof {
                assert(stack@ =~= st0.drop_last());
                assert(stack_work(f, st0) == stack_work(f, st0.drop_last()) + outs_of(f, blk as int) - e + 1);
                assert forall|x: int| 0 <= x < n && #[trigger] visited@[x] implies has_block(order@, x) || on_stack(stack@, x) by {
                    if x == blk as int {
                        assert(order@[order@.len() - 1] as int == x);
                    } else if on_stack(st0, x) {
                        let k = choose|k: int| 0 <= k < st0.len() && st0[k].0 as int == x;
                        assert(k != top);
                        assert(stack@[k] == st0[k]);
                    } else {
                        let j = choose|j: int| 0 <= j < o0.len() && o0[j] as int == x;
                        assert(order@[j] == o0[j]);
                    }
                }
                assert forall|k: int, e2: int| 0 <= k < order@.len() && 0 <= e2 < outs_of(f, order@[k] as int)
                    implies #[trigger] visited@[(#[trigger] f.blocks@[order@[k] as int].out_edges@[e2]).0 as int] by {
                    if k < o0.len() {
                        assert(order@[k] == o0[k]);
                    } else {
                        assert(st0[top as int].1 >= outs_of(f, blk as int));
                    }
                }
                assert forall|k: int, j: int| 0 <= k < stack@.len() && 0 <= j < order@.len() implies (#[trigger] stack@[k]).0
                    != #[trigger] order@[j] by {
                    assert(stack@[k] == st0[k]);
                    if j == o0.len() {
                        assert(st0[k].0 != st0[top as int].0);
                    } else {
                        assert(order@[j] == o0[j]);
                    }
                }
            }
        }
    }
    proof {
        lemma_unvisited_nonneg(f, visited@, n as int);
        lemma_stack_work_nonneg(f, stack@);
        assert(stack@.len() == 0);
        assert forall|k: int, e: int| 0 <= k < order@.len() && 0 <= e < f.blocks@[order@[k] as int].out_edges@.len()
            implies #[trigger] has_block(order@, (#[trigger] f.blocks@[order@[k] as int].out_edges@[e]).0 as int) by {
            assert(crate::funcdata::block_wf(f.blocks@[order@[k] as int], f.ops@.len(), f.blocks@.len()));
            assert(visited@[f.blocks@[order@[k] as int].out_edges@[e].0 as int]);
        }
    }
    order
}

/// The stack space.
pub open spec fn stack_space_of(f: &Funcdata) -> SpaceId {
    space_named(f.spaces@, "stack"@).unwrap()
}

/// Op `o` is as it was, or it was a return-address STORE now copying its stored value into a
/// `stack`-space slot, or it was a return-address push now an identity COPY of the stack
/// pointer it read.
pub open spec fn stack_step_ok(f0: &Funcdata, f: &Funcdata, o: int) -> bool {
    ||| f.ops@[o] == f0.ops@[o]
    ||| (f0.ops@[o].opc == OpCode::Store && f0.ops@[o].inrefs@.len() >= 3 && f.ops@[o].opc == OpCode::Copy
        && f.ops@[o].inrefs@ == seq![f0.ops@[o].inrefs@[2]] && (f.ops@[o].output matches Some(v) && v.0 < f.vns@.len()
        && f.vns@[v.0 as int].loc.space == stack_space_of(f0)))
    ||| (f0.ops@[o].opc == OpCode::IntSub && f0.ops@[o].inrefs@.len() >= 1 && f.ops@[o].opc == OpCode::Copy
        && f.ops@[o].inrefs@ == seq![f0.ops@[o].inrefs@[0]])
}

/// Is `op` the return-address store of one of the calls in `restores`?
fn is_retaddr_store(restores: &Vec<(OpId, OpId, OpId, i64)>, op: OpId) -> (r: bool)
    ensures
        r == exists|k: int| 0 <= k < restores@.len() && (#[trigger] restores@[k]).1 == op,
{
    let mut k: usize = 0;
    while k < restores.len()
        invariant
            k <= restores@.len(),
            forall|j: int| 0 <= j < k ==> (#[trigger] restores@[j]).1 != op,
        decreases restores@.len() - k,
    {
        if restores[k].1 == op {
            return true;
        }
        k += 1;
    }
    false
}

/// The push and its amount for call `op`, if `op` is one of the calls in `restores` (the
/// first entry for it).
fn restore_for(restores: &Vec<(OpId, OpId, OpId, i64)>, op: OpId) -> (r: Option<(OpId, i64)>)
    ensures
        r is None <==> forall|k: int| 0 <= k < restores@.len() ==> (#[trigger] restores@[k]).0 != op,
        r matches Some((p, amt)) ==> exists|k: int| 0 <= k < restores@.len() && (#[trigger] restores@[k]).0 == op && restores@[k].2 == p
            && restores@[k].3 == amt && forall|j: int| 0 <= j < k ==> (#[trigger] restores@[j]).0 != op,
{
    let mut k: usize = 0;
    while k < restores.len()
        invariant
            k <= restores@.len(),
            forall|j: int| 0 <= j < k ==> (#[trigger] restores@[j]).0 != op,
        decreases restores@.len() - k,
    {
        if restores[k].0 == op {
            return Some((restores[k].2, restores[k].3));
        }
        k += 1;
    }
    None
}

/// A copy of a known stack-pointer state.
fn copy_state(s: &Vec<(Address, i64)>) -> (r: Vec<(Address, i64)>)
    ensures
        r@ == s@,
{
    let mut out: Vec<(Address, i64)> = Vec::new();
    let mut k: usize = 0;
    while k < s.len()
        invariant
            k <= s@.len(),
            out@ == s@.take(k as int),
        decreases s@.len() - k,
    {
        out.push(s[k]);
        k += 1;
        assert(out@ =~= s@.take(k as int));
    }
    assert(out@ =~= s@);
    out
}

} // verus!

verus! {

/// The amount of the push nearest call `c` among the ops of its instruction (see
/// [`pushes_retaddr`]).
pub open spec fn nearest_push_amount(f: &Funcdata, sp: Address, c: int) -> i64 {
    let pc = f.ops@[c].seqnum.pc;
    let p = choose|p: int| in_run(f, p, c) && is_push_at(f, sp, p, pc) && forall|j: int| p < j < c ==> !#[trigger] is_push_at(f, sp, j, pc);
    f.vns@[f.ops@[p].inrefs@[1].0 as int].loc.offset as i64
}

/// Block `x` is among `order`.
pub open spec fn has_block(order: Seq<usize>, x: int) -> bool {
    exists|j: int| 0 <= j < order.len() && order[j] as int == x
}

/// Op `c` is listed in one of the blocks.
pub open spec fn in_some_block(f: &Funcdata, c: int) -> bool {
    exists|b: int, q: int| 0 <= b < f.blocks@.len() && 0 <= q < f.blocks@[b].ops@.len() && (#[trigger] f.blocks@[b].ops@[q]).0 == c
}

/// Call `c` of `f0` now records its return-address push as cancelled.
pub open spec fn push_cancelled(f0: &Funcdata, f: &Funcdata, sp: Address, c: int) -> bool {
    call_spec_of(f, OpId(c as usize)) matches Some(cs) && cs.push_neutralized == Some(nearest_push_amount(f0, sp, c))
}

/// Every live call among the first `n` ops listed in block `b` that pushes its return
/// address has its push recorded as cancelled.
pub open spec fn block_pushes_done(f0: &Funcdata, f: &Funcdata, sp: Address, b: int, n: int) -> bool {
    forall|q: int|
        0 <= q < n ==> {
            let c = (#[trigger] f0.blocks@[b].ops@[q]).0 as int;
            !f0.ops@[c].dead && pushes_retaddr(f0, sp, c) ==> push_cancelled(f0, f, sp, c)
        }
}

/// `restores` lists every call that pushes its return address, each with the push nearest it.
pub open spec fn restores_complete(f: &Funcdata, sp: Address, restores: Seq<(OpId, OpId, OpId, i64)>) -> bool {
    &&& forall|c: int| 0 <= c < f.ops@.len() && pushes_retaddr(f, sp, c) ==> exists|k: int| 0 <= k < restores.len() && (#[trigger] restores[k]).0.0 == c
    &&& forall|k: int| 0 <= k < restores.len() ==> in_run(f, (#[trigger] restores[k]).2.0 as int, restores[k].0.0 as int)
    &&& forall|k: int, j: int| #![trigger restores[k], is_push_at(f, sp, j, f.ops@[restores[k].0.0 as int].seqnum.pc)]
        0 <= k < restores.len() && restores[k].2.0 < j < restores[k].0.0 ==> !is_push_at(f, sp, j, f.ops@[restores[k].0.0 as int].seqnum.pc)
}

/// Every call of `f0` whose push `a` records as cancelled still has it so in `b`.
pub open spec fn cancelled_kept(f0: &Funcdata, a: &Funcdata, b: &Funcdata, sp: Address) -> bool {
    forall|c: int| 0 <= c < f0.ops@.len() && #[trigger] push_cancelled(f0, a, sp, c) ==> push_cancelled(f0, b, sp, c)
}

/// Two states with the same call specs record the same cancelled pushes.
proof fn lemma_kept_same_specs(f0: &Funcdata, a: &Funcdata, b: &Funcdata, sp: Address)
    requires
        a.call_specs@ == b.call_specs@,
    ensures
        cancelled_kept(f0, a, b, sp),
{
    assert forall|c: int| 0 <= c < f0.ops@.len() && #[trigger] push_cancelled(f0, a, sp, c) implies push_cancelled(f0, b, sp, c) by {
        assert(a.call_spec_index_spec(OpId(c as usize)) == b.call_spec_index_spec(OpId(c as usize)));
    }
}

/// The first `n` ops of block `b` are done in `a`; if the next one is done in `c` and `c` keeps
/// what `a` recorded, the first `n + 1` are done in `c`.
proof fn lemma_done_step(f0: &Funcdata, a: &Funcdata, c: &Funcdata, sp: Address, b: int, n: int)
    requires
        f0.wf(),
        0 <= b < f0.blocks@.len(),
        0 <= n < f0.blocks@[b].ops@.len(),
        block_pushes_done(f0, a, sp, b, n),
        cancelled_kept(f0, a, c, sp),
        ({
            let x = f0.blocks@[b].ops@[n].0 as int;
            !f0.ops@[x].dead && pushes_retaddr(f0, sp, x) ==> push_cancelled(f0, c, sp, x)
        }),
    ensures
        block_pushes_done(f0, c, sp, b, n + 1),
{
    assert(crate::funcdata::block_wf(f0.blocks@[b], f0.ops@.len(), f0.blocks@.len()));
    assert forall|q: int| 0 <= q < n + 1 implies {
        let x = (#[trigger] f0.blocks@[b].ops@[q]).0 as int;
        !f0.ops@[x].dead && pushes_retaddr(f0, sp, x) ==> push_cancelled(f0, c, sp, x)
    } by {
        if q < n {
            let x = f0.blocks@[b].ops@[q].0 as int;
            if !f0.ops@[x].dead && pushes_retaddr(f0, sp, x) {
                assert(push_cancelled(f0, a, sp, x));
            }
        }
    }
}

/// What is done in `a` stays done in `c` when `c` keeps what `a` recorded.
proof fn lemma_done_mono(f0: &Funcdata, a: &Funcdata, c: &Funcdata, sp: Address, b: int, n: int)
    requires
        f0.wf(),
        0 <= b < f0.blocks@.len(),
        0 <= n <= f0.blocks@[b].ops@.len(),
        block_pushes_done(f0, a, sp, b, n),
        cancelled_kept(f0, a, c, sp),
    ensures
        block_pushes_done(f0, c, sp, b, n),
{
    assert(crate::funcdata::block_wf(f0.blocks@[b], f0.ops@.len(), f0.blocks@.len()));
    assert forall|q: int| 0 <= q < n implies {
        let x = (#[trigger] f0.blocks@[b].ops@[q]).0 as int;
        !f0.ops@[x].dead && pushes_retaddr(f0, sp, x) ==> push_cancelled(f0, c, sp, x)
    } by {
        let x = f0.blocks@[b].ops@[q].0 as int;
        if !f0.ops@[x].dead && pushes_retaddr(f0, sp, x) {
            assert(push_cancelled(f0, a, sp, x));
        }
    }
}

/// Entry `k` of `restores` (from [`call_push_restores`]) holds the nearest push of its call.
proof fn lemma_restore_amount(f: &Funcdata, sp: Address, restores: Seq<(OpId, OpId, OpId, i64)>, k: int)
    requires
        0 <= k < restores.len(),
        is_call_push(f, sp, restores[k].0, restores[k].1, restores[k].2, restores[k].3),
        in_run(f, restores[k].2.0 as int, restores[k].0.0 as int),
        forall|j: int| restores[k].2.0 < j < restores[k].0.0 ==> !#[trigger] is_push_at(f, sp, j, f.ops@[restores[k].0.0 as int].seqnum.pc),
    ensures
        restores[k].3 == nearest_push_amount(f, sp, restores[k].0.0 as int),
{
    let c = restores[k].0.0 as int;
    let p0 = restores[k].2.0 as int;
    let pc = f.ops@[c].seqnum.pc;
    assert(is_push_at(f, sp, p0, pc));
    let p = choose|p: int| in_run(f, p, c) && is_push_at(f, sp, p, pc) && forall|j: int| p < j < c ==> !#[trigger] is_push_at(f, sp, j, pc);
    if p < p0 {
        assert(!is_push_at(f, sp, p0, pc));
    }
    if p0 < p {
        assert(!is_push_at(f, sp, p, pc));
    }
    assert(p == p0);
}

/// Among the first `n` entries, one for call `c` has a first one.
proof fn lemma_first_entry(s: Seq<(OpId, crate::fspec::CallSpec)>, c: OpId, n: int)
    requires
        0 <= n <= s.len(),
        exists|q: int| 0 <= q < n && (#[trigger] s[q]).0 == c,
    ensures
        exists|q: int| 0 <= q < n && (#[trigger] s[q]).0 == c && forall|k: int| 0 <= k < q ==> s[k].0 != c,
    decreases n,
{
    if exists|q: int| 0 <= q < n - 1 && (#[trigger] s[q]).0 == c {
        lemma_first_entry(s, c, n - 1);
        let q = choose|q: int| 0 <= q < n - 1 && (#[trigger] s[q]).0 == c && forall|k: int| 0 <= k < q ==> s[k].0 != c;
        assert(0 <= q < n && s[q].0 == c);
    } else {
        assert(s[n - 1].0 == c);
        assert forall|k: int| 0 <= k < n - 1 implies s[k].0 != c by {
            if s[k].0 == c {
                assert(0 <= k < n - 1 && s[k].0 == c);
            }
        }
    }
}

/// Recording a call spec for call `op` gives it the spec recorded.
proof fn lemma_call_spec_after_set(a: &Funcdata, b: &Funcdata, op: OpId, cs: crate::fspec::CallSpec)
    requires
        match a.call_spec_index_spec(op) {
            Some(p) => b.call_specs@ == a.call_specs@.update(p as int, (op, cs)),
            None => b.call_specs@ == a.call_specs@.push((op, cs)),
        },
    ensures
        call_spec_of(b, op) == Some(cs),
{
    assert(a.call_specs@.len() == a.call_specs.len());
    match a.call_spec_index_spec(op) {
        Some(p) => {
            lemma_first_entry(a.call_specs@, op, a.call_specs@.len() as int);
            let pp = choose|p: int|
                0 <= p < a.call_specs@.len() && (#[trigger] a.call_specs@[p]).0 == op && forall|k: int| 0 <= k < p ==> a.call_specs@[k].0 != op;
            assert(pp as usize as int == pp);
            lemma_call_spec_first(b, op, pp);
        },
        None => {
            lemma_call_spec_first(b, op, a.call_specs@.len() as int);
        },
    }
}

/// Recording a call spec for call `op` leaves that of call `c` as it was.
proof fn lemma_call_spec_other(a: &Funcdata, b: &Funcdata, op: OpId, cs: crate::fspec::CallSpec, c: OpId)
    requires
        c != op,
        match a.call_spec_index_spec(op) {
            Some(p) => b.call_specs@ == a.call_specs@.update(p as int, (op, cs)),
            None => b.call_specs@ == a.call_specs@.push((op, cs)),
        },
    ensures
        call_spec_of(b, c) == call_spec_of(a, c),
{
    assert(a.call_specs@.len() == a.call_specs.len());
    if let Some(p) = a.call_spec_index_spec(op) {
        lemma_first_entry(a.call_specs@, op, a.call_specs@.len() as int);
        let pp = choose|p: int|
            0 <= p < a.call_specs@.len() && (#[trigger] a.call_specs@[p]).0 == op && forall|k: int| 0 <= k < p ==> a.call_specs@[k].0 != op;
        assert(pp as usize as int == pp);
        assert(p as int == pp);
        assert(b.call_specs@.len() == a.call_specs@.len());
    } else {
        assert(b.call_specs@.len() == a.call_specs@.len() + 1);
        assert(b.call_specs@[a.call_specs@.len() as int].0 == op);
    }
    assert forall|q: int| 0 <= q < a.call_specs@.len() implies (#[trigger] b.call_specs@[q]).0 == c <==> a.call_specs@[q].0 == c by {
        if b.call_specs@[q] != a.call_specs@[q] {
            assert(b.call_specs@[q].0 == op);
            assert(a.call_specs@[q].0 == op);
        }
    }
    if exists|q: int| 0 <= q < a.call_specs@.len() && (#[trigger] a.call_specs@[q]).0 == c {
        lemma_first_entry(a.call_specs@, c, a.call_specs@.len() as int);
        let q = choose|q: int|
            0 <= q < a.call_specs@.len() && (#[trigger] a.call_specs@[q]).0 == c && forall|k: int| 0 <= k < q ==> a.call_specs@[k].0 != c;
        lemma_call_spec_first(a, c, q);
        assert(b.call_specs@[q].0 == c);
        assert(b.call_specs@[q] == a.call_specs@[q]);
        assert forall|k: int| 0 <= k < q implies b.call_specs@[k].0 != c by {
            assert(a.call_specs@[k].0 != c);
        }
        lemma_call_spec_first(b, c, q);
    } else {
        assert forall|q: int| 0 <= q < b.call_specs@.len() implies (#[trigger] b.call_specs@[q]).0 != c by {
            if q < a.call_specs@.len() {
                assert(a.call_specs@[q].0 != c);
            }
        }
    }
}

/// Model each call's return-address push. A forward pass over the blocks (in reverse
/// postorder from the entry, then any blocks the entry does not reach) follows, per storage
/// location, the value `entry_sp + offset` (see [`symbolic_value_spec`]); each block starts
/// from the state its first already-visited predecessor ended in, the entry block from
/// `sp = 0`. At each call whose instruction pushes its return address:
///   - the return-address STORE, when its pointer's offset is known, becomes a COPY of the
///     stored value into that `stack`-space slot;
///   - the push `sp = sp - N` becomes an identity COPY, the known stack pointer moves up by
///     `N`, and `N` is recorded as the call's cancelled push.
///
/// Nothing happens without `register` and `stack` spaces, a known stack pointer, or blocks.
#[verifier::rlimit(80)]
#[verifier::spinoff_prover]
pub fn recover_stack(f: &mut Funcdata)
    requires
        old(f).wf(),
    ensures
        final(f).wf(),
        final(f).ops@.len() == old(f).ops@.len(),
        final(f).blocks == old(f).blocks,
        final(f).vns@.len() >= old(f).vns@.len(),
        final(f).vns@.take(old(f).vns@.len() as int) == old(f).vns@,
        forall|o: int| 0 <= o < old(f).ops@.len() ==> #[trigger] stack_step_ok(old(f), final(f), o),
        space_named(old(f).spaces@, "register"@) is Some && space_named(old(f).spaces@, "stack"@) is Some && old(f).blocks@.len() > 0
            ==> (old(f).stack_pointer matches Some(sp) ==> forall|c: int|
            0 <= c < old(f).ops@.len() && !old(f).ops@[c].dead && #[trigger] in_some_block(old(f), c) && pushes_retaddr(old(f), sp, c)
                ==> push_cancelled(old(f), final(f), sp, c)),
{
    proof {
        assert(old(f).vns@.take(old(f).vns@.len() as int) =~= old(f).vns@);
    }
    let reg = f.spaces.by_name("register");
    let stack = f.spaces.by_name("stack");
    if reg.is_none() || stack.is_none() {
        return;
    }
    let stack = stack.unwrap();
    let sp = match f.stack_pointer {
        Some(a) => a,
        None => return,
    };
    let nblk = f.num_blocks();
    if nblk == 0 {
        return;
    }
    let ghost f0 = *old(f);
    let restores = call_push_restores(f, sp);
    let post = postorder(f);
    let mut order: Vec<usize> = Vec::new();
    let mut in_order: Vec<bool> = Vec::new();
    let mut k: usize = 0;
    while k < nblk
        invariant
            k <= nblk,
            in_order@.len() == k,
            forall|x: int| 0 <= x < k ==> !(#[trigger] in_order@[x]),
        decreases nblk - k,
    {
        in_order.push(false);
        k += 1;
    }
    let mut k: usize = post.len();
    while k > 0
        invariant
            k <= post@.len(),
            in_order@.len() == nblk,
            nblk == f.blocks@.len(),
            forall|j: int| 0 <= j < post@.len() ==> (#[trigger] post@[j]) < nblk,
            forall|j: int| 0 <= j < order@.len() ==> (#[trigger] order@[j]) < nblk,
            forall|x: int| 0 <= x < nblk && #[trigger] in_order@[x] ==> has_block(order@, x),
        decreases k,
    {
        k -= 1;
        let ghost o0 = order@;
        let ghost i0 = in_order@;
        order.push(post[k]);
        in_order.set(post[k], true);
        proof {
            assert forall|x: int| 0 <= x < nblk && #[trigger] in_order@[x] implies has_block(order@, x) by {
                if x == post@[k as int] {
                    assert(order@[o0.len() as int] as int == x);
                } else {
                    assert(i0[x]);
                    let j = choose|j: int| 0 <= j < o0.len() && o0[j] as int == x;
                    assert(order@[j] == o0[j]);
                }
            }
        }
    }
    let mut b: usize = 0;
    while b < nblk
        invariant
            b <= nblk,
            in_order@.len() == nblk,
            forall|j: int| 0 <= j < order@.len() ==> (#[trigger] order@[j]) < nblk,
            forall|x: int| 0 <= x < nblk && #[trigger] in_order@[x] ==> has_block(order@, x),
            forall|x: int| 0 <= x < b ==> #[trigger] has_block(order@, x),
        decreases nblk - b,
    {
        let ghost o0 = order@;
        if !in_order[b] {
            order.push(b);
        }
        proof {
            assert forall|x: int| 0 <= x < nblk && #[trigger] in_order@[x] implies has_block(order@, x) by {
                let j = choose|j: int| 0 <= j < o0.len() && o0[j] as int == x;
                assert(order@[j] == o0[j]);
            }
            assert forall|x: int| 0 <= x < b + 1 implies #[trigger] has_block(order@, x) by {
                if x == b {
                    if !in_order@[x] {
                        assert(order@[o0.len() as int] as int == x);
                    } else {
                        let j = choose|j: int| 0 <= j < o0.len() && o0[j] as int == x;
                        assert(order@[j] == o0[j]);
                    }
                } else {
                    assert(has_block(o0, x));
                    let j = choose|j: int| 0 <= j < o0.len() && o0[j] as int == x;
                    assert(order@[j] == o0[j]);
                }
            }
        }
        b += 1;
    }
    let mut sval_out: Vec<Option<Vec<(Address, i64)>>> = Vec::new();
    let mut k: usize = 0;
    while k < nblk
        invariant
            k <= nblk,
            sval_out@.len() == k,
            forall|j: int| 0 <= j < k ==> (#[trigger] sval_out@[j]) is None,
        decreases nblk - k,
    {
        sval_out.push(None);
        k += 1;
    }
    let mut oi: usize = 0;
    while oi < order.len()
        invariant
            f0 == *old(f),
            f.wf(),
            nblk == f.blocks@.len(),
            f.blocks == f0.blocks,
            f.ops@.len() == f0.ops@.len(),
            f.vns@.len() >= f0.vns@.len(),
            f.vns@.take(f0.vns@.len() as int) == f0.vns@,
            f.spaces == f0.spaces,
            Some(stack) == space_named(f0.spaces@, "stack"@),
            forall|o: int| 0 <= o < f0.ops@.len() ==> #[trigger] stack_step_ok(&f0, &*f, o),
            forall|j: int| 0 <= j < order@.len() ==> (#[trigger] order@[j]) < nblk,
            sval_out@.len() == nblk,
            forall|j: int| 0 <= j < nblk ==> ((#[trigger] sval_out@[j]) matches Some(s) ==> sval_wf(s@)),
            forall|k: int| 0 <= k < restores@.len() ==> is_call_push(&f0, sp, (#[trigger] restores@[k]).0, restores@[k].1, restores@[k].2, restores@[k].3),
            restores_complete(&f0, sp, restores@),
            f0.wf(),
            forall|x: int| 0 <= x < nblk ==> #[trigger] has_block(order@, x),
            oi <= order@.len(),
            forall|j: int| 0 <= j < oi ==> block_pushes_done(&f0, &*f, sp, #[trigger] order@[j] as int, f0.blocks@[order@[j] as int].ops@.len() as int),
        decreases order@.len() - oi,
    {
        let b = order[oi];
        let ghost oi0 = oi as int;
        let ghost fb = *f;
        oi += 1;
        proof {
            assert(crate::funcdata::block_wf(f.blocks@[b as int], f.ops@.len(), f.blocks@.len()));
        }
        let mut sval: Vec<(Address, i64)> = Vec::new();
        sval.push((sp, 0));
        let preds = &f.block(BlockId(b)).in_edges;
        let mut pi: usize = 0;
        while pi < preds.len()
            invariant
                pi <= preds@.len(),
                sval_wf(sval@),
                sval_out@.len() == nblk,
                forall|j: int| 0 <= j < nblk ==> ((#[trigger] sval_out@[j]) matches Some(s) ==> sval_wf(s@)),
                forall|j: int| 0 <= j < preds@.len() ==> (#[trigger] preds@[j]).0 < nblk,
            decreases preds@.len() - pi,
        {
            let p = preds[pi].0;
            if let Some(s) = &sval_out[p] {
                sval = copy_state(s);
                break;
            }
            pi += 1;
        }
        let ops = &f.block(BlockId(b)).ops;
        let mut opsv: Vec<OpId> = Vec::new();
        let mut q: usize = 0;
        while q < ops.len()
            invariant
                q <= ops@.len(),
                opsv@ == ops@.take(q as int),
            decreases ops@.len() - q,
        {
            opsv.push(ops[q]);
            q += 1;
            assert(opsv@ =~= ops@.take(q as int));
        }
        assert(opsv@ =~= ops@);
        let mut q: usize = 0;
        while q < opsv.len()
            invariant
                q <= opsv@.len(),
                forall|j: int| 0 <= j < opsv@.len() ==> (#[trigger] opsv@[j]).0 < f.ops@.len(),
                sval_wf(sval@),
                f0 == *old(f),
                f.wf(),
                nblk == f.blocks@.len(),
                f.blocks == f0.blocks,
                f.ops@.len() == f0.ops@.len(),
                f.vns@.len() >= f0.vns@.len(),
                f.vns@.take(f0.vns@.len() as int) == f0.vns@,
                f.spaces == f0.spaces,
                Some(stack) == space_named(f0.spaces@, "stack"@),
                forall|o: int| 0 <= o < f0.ops@.len() ==> #[trigger] stack_step_ok(&f0, &*f, o),
                forall|k: int| 0 <= k < restores@.len() ==> is_call_push(&f0, sp, (#[trigger] restores@[k]).0, restores@[k].1, restores@[k].2, restores@[k].3),
                restores_complete(&f0, sp, restores@),
                f0.wf(),
                opsv@ == f0.blocks@[b as int].ops@,
                b < nblk,
                cancelled_kept(&f0, &fb, &*f, sp),
                block_pushes_done(&f0, &*f, sp, b as int, q as int),
            decreases opsv@.len() - q,
        {
            let op = opsv[q];
            let ghost fi = *f;
            q += 1;
            proof {
                assert(stack_step_ok(&f0, &*f, op.0 as int));
                assert(opsv@[q - 1] == op);
            }
            if f.op(op).is_dead() {
                proof {
                    lemma_kept_same_specs(&f0, &fi, &*f, sp);
                    lemma_done_step(&f0, &fi, &*f, sp, b as int, q - 1);
                }
                continue;
            }
            proof {
                assert(crate::funcdata::op_wf(f.ops@[op.0 as int], f.vns@.len(), f.ops@.len(), f.blocks@.len()));
            }
            let code = f.op(op).code();
            if code == OpCode::Store && is_retaddr_store(&restores, op) && f.op(op).num_inputs() >= 3 {
                let addr = f.op(op).inrefs[1];
                let val = f.op(op).inrefs[2];
                if let Some(c) = sval_lookup(&sval, f.vn(addr).loc) {
                    let size = f.vn(val).size;
                    let ghost before = *f;
                    proof {
                        assert(stack_step_ok(&f0, &before, op.0 as int));
                        assert(f0.ops@[op.0 as int].opc == OpCode::Store);
                    }
                    let ins = [val];
                    f.op_set_all_input(op, &ins);
                    f.op_set_opcode(op, OpCode::Copy);
                    let newv = f.new_output(op, size, Address::new(stack, #[verifier::truncate] (c as u64)));
                    proof {
                        assert(before.ops@[op.0 as int] == f0.ops@[op.0 as int]);
                        assert(f.ops@[op.0 as int].inrefs@ =~= seq![f0.ops@[op.0 as int].inrefs@[2]]);
                        assert(f.vns@.take(f0.vns@.len() as int) =~= f0.vns@) by {
                            assert(before.vns@.take(f0.vns@.len() as int) == f0.vns@);
                        }
                        assert forall|o: int| 0 <= o < f0.ops@.len() implies #[trigger] stack_step_ok(&f0, &*f, o) by {
                            if o != op.0 {
                                assert(f.ops@[o] == before.ops@[o]);
                                assert(stack_step_ok(&f0, &before, o));
                                if before.ops@[o] != f0.ops@[o] {
                                    if let Some(v) = before.ops@[o].output {
                                        if f0.ops@[o].opc == OpCode::Store && before.ops@[o].opc == OpCode::Copy {
                                            assert(f.vns@[v.0 as int] == before.vns@[v.0 as int]);
                                        }
                                    }
                                }
                            }
                        }
                        lemma_kept_same_specs(&f0, &fi, &*f, sp);
                        lemma_done_step(&f0, &fi, &*f, sp, b as int, q - 1);
                    }
                    continue;
                }
            }
            if code == OpCode::Call || code == OpCode::Callind {
                if let Some((push, amt)) = restore_for(&restores, op) {
                    proof {
                        let kk = choose|kk: int| 0 <= kk < restores@.len() && (#[trigger] restores@[kk]).0 == op && restores@[kk].2 == push && restores@[kk].3 == amt;
                        assert(is_call_push(&f0, sp, restores@[kk].0, restores@[kk].1, restores@[kk].2, restores@[kk].3));
                        assert(f0.ops@[push.0 as int].opc == OpCode::IntSub);
                        assert(crate::funcdata::op_wf(f.ops@[push.0 as int], f.vns@.len(), f.ops@.len(), f.blocks@.len()));
                    }
                    if f.op(push).num_inputs() >= 1 {
                        let base = f.op(push).inrefs[0];
                        let ghost before = *f;
                        f.op_set_opcode(push, OpCode::Copy);
                        let ins = [base];
                        f.op_set_all_input(push, &ins);
                        proof {
                            assert(stack_step_ok(&f0, &before, push.0 as int));
                            assert(base == f0.ops@[push.0 as int].inrefs@[0]);
                            assert(f.ops@[push.0 as int].inrefs@ =~= seq![f0.ops@[push.0 as int].inrefs@[0]]);
                            assert forall|o: int| 0 <= o < f0.ops@.len() implies #[trigger] stack_step_ok(&f0, &*f, o) by {
                                if o != push.0 {
                                    assert(f.ops@[o] == before.ops@[o]);
                                    assert(stack_step_ok(&f0, &before, o));
                                }
                            }
                        }
                    }
                    if let Some(v) = sval_lookup(&sval, sp) {
                        sval_insert(&mut sval, sp, v.wrapping_add(amt));
                    }
                    let mut cs = match f.call_spec(op) {
                        Some(c) => c.copy(),
                        None => crate::fspec::CallSpec {
                            push_neutralized: None,
                            effective_extrapop: None,
                            extrapop: None,
                            reads: None,
                            reads_recovered: false,
                        },
                    };
                    cs.push_neutralized = Some(amt);
                    let ghost before = *f;
                    let ghost cs1 = cs;
                    f.set_call_spec(op, cs);
                    proof {
                        assert forall|o: int| 0 <= o < f0.ops@.len() implies #[trigger] stack_step_ok(&f0, &*f, o) by {
                            assert(stack_step_ok(&f0, &before, o));
                        }
                        let kk = choose|kk: int| 0 <= kk < restores@.len() && (#[trigger] restores@[kk]).0 == op && restores@[kk].2 == push && restores@[kk].3 == amt;
                        lemma_restore_amount(&f0, sp, restores@, kk);
                        lemma_call_spec_after_set(&before, &*f, op, cs1);
                        assert forall|c: int| 0 <= c < f0.ops@.len() && #[trigger] push_cancelled(&f0, &before, sp, c) implies push_cancelled(&f0, &*f, sp, c) by {
                            if c != op.0 {
                                assert(f0.ops@.len() == f0.ops.len());
                                assert((c as usize) as int == c);
                                lemma_call_spec_other(&before, &*f, op, cs1, OpId(c as usize));
                            }
                        }
                        assert(push_cancelled(&f0, &*f, sp, op.0 as int));
                        lemma_kept_same_specs(&f0, &fi, &before, sp);
                    }
                }
            }
            if let Some(out) = f.op(op).output {
                proof {
                    assert(crate::funcdata::op_wf(f.ops@[op.0 as int], f.vns@.len(), f.ops@.len(), f.blocks@.len()));
                }
                let outloc = f.vn(out).loc;
                match symbolic_value(f, f.op(op), &sval) {
                    Some(v) => sval_insert(&mut sval, outloc, v),
                    None => sval_remove(&mut sval, outloc),
                }
            }
            proof {
                if f.call_specs@ == fi.call_specs@ {
                    lemma_kept_same_specs(&f0, &fi, &*f, sp);
                }
                lemma_done_step(&f0, &fi, &*f, sp, b as int, q - 1);
            }
        }
        proof {
            assert forall|j: int| 0 <= j < oi implies block_pushes_done(&f0, &*f, sp, #[trigger] order@[j] as int, f0.blocks@[order@[j] as int].ops@.len() as int) by {
                if j < oi0 {
                    lemma_done_mono(&f0, &fb, &*f, sp, order@[j] as int, f0.blocks@[order@[j] as int].ops@.len() as int);
                }
            }
        }
        sval_out.set(b, Some(sval));
    }
    proof {
        assert forall|c: int|
            0 <= c < f0.ops@.len() && !f0.ops@[c].dead && #[trigger] in_some_block(&f0, c) && pushes_retaddr(&f0, sp, c) implies push_cancelled(&f0, &*f, sp, c) by {
            let (bb, qq) = choose|bb: int, qq: int| 0 <= bb < f0.blocks@.len() && 0 <= qq < f0.blocks@[bb].ops@.len() && (#[trigger] f0.blocks@[bb].ops@[qq]).0 == c;
            assert(has_block(order@, bb));
            let j = choose|j: int| 0 <= j < order@.len() && order@[j] as int == bb;
            assert(block_pushes_done(&f0, &*f, sp, order@[j] as int, f0.blocks@[order@[j] as int].ops@.len() as int));
            assert(f0.blocks@[bb].ops@[qq] == f0.blocks@[bb].ops@[qq]);
        }
    }
}

} // verus!
