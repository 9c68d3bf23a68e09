//! Laws of the machine, each proved against the ghost semantics that
//! [`crate::vm::VM::run`] is specified by.

use vstd::prelude::*;
use crate::instr::{Instr, is_linear, linear_effect, required_depth};
use crate::vm::{VmState, VmError, StepRes, RunEnd, step, run_spec};

verus! {

/// A program of straight-line instructions only: no branch, call,
/// return or halt.
pub open spec fn straight_line(prog: Seq<Instr>) -> bool {
    forall|j: int| 0 <= j < prog.len() ==> is_linear(prog[j])
}

/// The reference model of a straight-line program: its instructions
/// applied to the stack one after the other, with no machine involved.
/// `None` as soon as one of them underflows.
pub open spec fn sim(prog: Seq<Instr>, s: Seq<i32>) -> Option<Seq<i32>>
    decreases prog.len(),
{
    if prog.len() == 0 {
        Some(s)
    } else {
        match linear_effect(prog[0], s) {
            None => None,
            Some(s2) => sim(prog.drop_first(), s2),
        }
    }
}

/// Reference-model equivalence: on a straight-line program whose direct
/// simulation succeeds, the machine, given enough fuel, ends cleanly
/// past the last instruction with exactly the simulated stack, and the
/// return stack untouched.
pub proof fn lemma_straight_line_equiv(
    prog: Seq<Instr>,
    dict: Map<Seq<char>, usize>,
    st: VmState,
    fuel: nat,
)
    requires
        straight_line(prog),
        st.ip <= prog.len(),
        (sim(prog.subrange(st.ip as int, prog.len() as int), st.stack) is Some),
        fuel >= prog.len() - st.ip,
    ensures
        run_spec(prog, dict, st, fuel) == (RunEnd {
            state: VmState {
                stack: sim(prog.subrange(st.ip as int, prog.len() as int), st.stack)->Some_0,
                rstack: st.rstack,
                ip: prog.len(),
            },
            result: Ok::<(), VmError>(()),
        }),
    decreases prog.len() - st.ip,
{
    let suffix = prog.subrange(st.ip as int, prog.len() as int);
    if st.ip == prog.len() {
        assert(suffix =~= Seq::<Instr>::empty());
        assert(VmState { stack: st.stack, rstack: st.rstack, ip: prog.len() } == st);
    } else {
        let i = prog[st.ip as int];
        assert(suffix[0] == i);
        let s2 = linear_effect(i, st.stack)->Some_0;
        assert(suffix.drop_first() =~= prog.subrange(st.ip as int + 1, prog.len() as int));
        let st2 = VmState { stack: s2, rstack: st.rstack, ip: st.ip + 1 };
        assert(step(prog, dict, st) == StepRes::Next(st2));
        lemma_straight_line_equiv(prog, dict, st2, (fuel - 1) as nat);
    }
}

/// `Push(v)` immediately followed by `Drop` takes two steps and leaves
/// the stack exactly as it was, for any value and any prior stack.
pub proof fn lemma_push_drop_round_trip(
    prog: Seq<Instr>,
    dict: Map<Seq<char>, usize>,
    st: VmState,
    v: i32,
)
    requires
        st.ip + 1 < prog.len(),
        prog[st.ip as int] == Instr::Push(v),
        prog[st.ip as int + 1] == Instr::Drop,
    ensures
        ({
            let mid = VmState { stack: st.stack.push(v), rstack: st.rstack, ip: st.ip + 1 };
            let fin = VmState { stack: st.stack, rstack: st.rstack, ip: st.ip + 2 };
            step(prog, dict, st) == StepRes::Next(mid) && step(prog, dict, mid)
                == StepRes::Next(fin)
        }),
{
    let mid = VmState { stack: st.stack.push(v), rstack: st.rstack, ip: st.ip + 1 };
    assert(mid.stack.take(mid.stack.len() - 1) =~= st.stack);
}

/// `Dup` immediately followed by `Swap` takes two steps and leaves the
/// top two stack values both equal to the top value before the pair.
pub proof fn lemma_dup_swap_top(prog: Seq<Instr>, dict: Map<Seq<char>, usize>, st: VmState)
    requires
        st.ip + 1 < prog.len(),
        st.stack.len() >= 1,
        prog[st.ip as int] == Instr::Dup,
        prog[st.ip as int + 1] == Instr::Swap,
    ensures
        ({
            let n = st.stack.len();
            let top = st.stack[n - 1];
            let mid = VmState { stack: st.stack.push(top), rstack: st.rstack, ip: st.ip + 1 };
            let fin = VmState {
                stack: st.stack.take(n - 1).push(top).push(top),
                rstack: st.rstack,
                ip: st.ip + 2,
            };
            step(prog, dict, st) == StepRes::Next(mid) && step(prog, dict, mid)
                == StepRes::Next(fin)
        }),
{
    let n = st.stack.len();
    let top = st.stack[n - 1];
    let mid = VmState { stack: st.stack.push(top), rstack: st.rstack, ip: st.ip + 1 };
    let m = mid.stack.len();
    assert(mid.stack.take(m - 2).push(mid.stack[m - 1]).push(mid.stack[m - 2]) =~= st.stack.take(
        n - 1,
    ).push(top).push(top));
}

/// `TwoSwap` applied twice is the identity: on any stack with at least
/// four elements, two steps later the stack is back in its original
/// arrangement.
pub proof fn lemma_two_swap_involution(prog: Seq<Instr>, dict: Map<Seq<char>, usize>, st: VmState)
    requires
        st.ip + 1 < prog.len(),
        st.stack.len() >= 4,
        prog[st.ip as int] == Instr::TwoSwap,
        prog[st.ip as int + 1] == Instr::TwoSwap,
    ensures
        ({
            let fin = VmState { stack: st.stack, rstack: st.rstack, ip: st.ip + 2 };
            step(prog, dict, st) matches StepRes::Next(mid) && step(prog, dict, mid)
                == StepRes::Next(fin)
        }),
{
    let n = st.stack.len();
    let s1 = st.stack.take(n - 4).push(st.stack[n - 2]).push(st.stack[n - 1]).push(
        st.stack[n - 4],
    ).push(st.stack[n - 3]);
    let mid = VmState { stack: s1, rstack: st.rstack, ip: st.ip + 1 };
    assert(step(prog, dict, st) == StepRes::Next(mid));
    assert(s1.len() == n);
    assert(s1.take(n - 4).push(s1[n - 2]).push(s1[n - 1]).push(s1[n - 4]).push(s1[n - 3])
        =~= st.stack);
}

/// A straight-line operation reaching the machine with fewer stack
/// elements than it requires fails with `StackUnderflow`, and a run
/// stops right there with the stack exactly as it was.
pub proof fn lemma_underflow_fails(
    prog: Seq<Instr>,
    dict: Map<Seq<char>, usize>,
    st: VmState,
    fuel: nat,
)
    requires
        st.ip < prog.len(),
        is_linear(prog[st.ip as int]),
        st.stack.len() < required_depth(prog[st.ip as int]),
        fuel >= 1,
    ensures
        (step(prog, dict, st) == StepRes::Fail(VmError::StackUnderflow { ip: st.ip as usize })),
        run_spec(prog, dict, st, fuel) == (RunEnd {
            state: st,
            result: Err::<(), VmError>(VmError::StackUnderflow { ip: st.ip as usize }),
        }),
{
}

/// `CallWord` with a name the dictionary does not hold fails with
/// `UnknownWord`: the run stops right there, with every part of the
/// state untouched, and never transfers control anywhere.
pub proof fn lemma_unknown_word_fails(
    prog: Seq<Instr>,
    dict: Map<Seq<char>, usize>,
    st: VmState,
    name: Seq<char>,
    fuel: nat,
)
    requires
        st.ip < prog.len(),
        prog[st.ip as int] == Instr::CallWord(name),
        !dict.contains_key(name),
        fuel >= 1,
    ensures
        (step(prog, dict, st) == StepRes::Fail(VmError::UnknownWord { ip: st.ip as usize })),
        run_spec(prog, dict, st, fuel) == (RunEnd {
            state: st,
            result: Err::<(), VmError>(VmError::UnknownWord { ip: st.ip as usize }),
        }),
{
}

/// `Jump(0)` is a guaranteed infinite loop: whatever the step budget,
/// the run ends by exhausting it, standing exactly where it stood.
/// (This is the policy the machine takes on a self-jump; a jump whose
/// target would leave the program is rejected with `InvalidJump`
/// instead, so no jump ever over- or underflows the instruction
/// pointer.)
pub proof fn lemma_jump_zero_loops(
    prog: Seq<Instr>,
    dict: Map<Seq<char>, usize>,
    st: VmState,
    fuel: nat,
)
    requires
        st.ip < prog.len(),
        prog[st.ip as int] == Instr::Jump(0),
    ensures
        run_spec(prog, dict, st, fuel) == (RunEnd {
            state: st,
            result: Err::<(), VmError>(VmError::StepLimit { ip: st.ip as usize }),
        }),
    decreases fuel,
{
    if fuel > 0 {
        assert(step(prog, dict, st) == StepRes::Next(
            VmState { stack: st.stack, rstack: st.rstack, ip: st.ip },
        ));
        assert(VmState { stack: st.stack, rstack: st.rstack, ip: st.ip } == st);
        lemma_jump_zero_loops(prog, dict, st, (fuel - 1) as nat);
    }
}

} // verus!
