//! The virtual machine: a ghost small-step semantics (`step`, `run_spec`)
//! and the executable machine proved equivalent to it.
//!
//! Execution is bounded by an explicit step budget handed to [`VM::run`];
//! a program that does not halt within the budget ends with
//! [`VmError::StepLimit`].  Every fatal condition of the machine is a
//! typed error, never a panic:
//! - an operation finding fewer evaluation-stack elements than it needs
//!   ends with `StackUnderflow`, and the stack is left exactly as it was;
//! - `Return` with no pending frame ends with `ReturnStackUnderflow`;
//! - `CallWord` with a name absent from the dictionary ends with
//!   `UnknownWord`;
//! - a branch, call or return whose target lies outside `0 ..= program
//!   length` ends with `InvalidJump` (a target equal to the program
//!   length simply runs off the end, which ends execution normally).

use vstd::prelude::*;
use crate::instr::{Instruction, Instr, prog_view, is_linear, linear_effect, depth_value};

verus! {

/// A fatal execution outcome.  Each variant carries the address of the
/// instruction that was executing when the condition arose.
#[derive(Debug, Clone, Copy, PartialEq, Eq, Structural)]
pub enum VmError {
    /// An operation required more evaluation-stack elements than were present.
    StackUnderflow { ip: usize },
    /// `Return` executed with an empty return stack.
    ReturnStackUnderflow { ip: usize },
    /// `CallWord` referenced a name absent from the dictionary.
    UnknownWord { ip: usize },
    /// A branch, call or return target lay outside the program.
    InvalidJump { ip: usize },
    /// The step budget was exhausted before execution ended.
    StepLimit { ip: usize },
}

/// Ghost state of a running machine: evaluation stack, return stack and
/// instruction pointer.  The program and dictionary are not part of the
/// state; they never change during a run.
pub struct VmState {
    pub stack: Seq<i32>,
    pub rstack: Seq<usize>,
    pub ip: nat,
}

/// The dictionary a sequence of entries denotes: later entries override
/// earlier ones with the same name, as repeated definition does.
pub open spec fn dict_view(entries: Seq<(String, usize)>) -> Map<Seq<char>, usize>
    decreases entries.len(),
{
    if entries.len() == 0 {
        Map::empty()
    } else {
        dict_view(entries.drop_last()).insert(entries.last().0@, entries.last().1)
    }
}

/// What one instruction does: continue at a new state, stop cleanly, or
/// fail with an error.
pub enum StepRes {
    Next(VmState),
    Stop,
    Fail(VmError),
}

/// Transfer of control to `target`, with the given new stacks.  A target
/// outside `0 ..= len` is rejected; a target equal to `len` makes the
/// machine run off the end, which ends execution normally.
pub open spec fn goto(
    st: VmState,
    len: nat,
    target: int,
    rstack: Seq<usize>,
    stack: Seq<i32>,
) -> StepRes {
    if target < 0 || target > len {
        StepRes::Fail(VmError::InvalidJump { ip: st.ip as usize })
    } else {
        StepRes::Next(VmState { stack, rstack, ip: target as nat })
    }
}

/// The small-step semantics: the effect of the instruction at `st.ip`.
pub open spec fn step(prog: Seq<Instr>, dict: Map<Seq<char>, usize>, st: VmState) -> StepRes
    recommends
        st.ip < prog.len(),
{
    let i = prog[st.ip as int];
    if is_linear(i) {
        match linear_effect(i, st.stack) {
            Some(s2) => StepRes::Next(VmState { stack: s2, rstack: st.rstack, ip: st.ip + 1 }),
            None => StepRes::Fail(VmError::StackUnderflow { ip: st.ip as usize }),
        }
    } else {
        match i {
            Instr::Jump(o) => goto(st, prog.len(), st.ip + o, st.rstack, st.stack),
            Instr::IfZero(o) => if st.stack.len() < 1 {
                StepRes::Fail(VmError::StackUnderflow { ip: st.ip as usize })
            } else {
                let popped = st.stack.take(st.stack.len() - 1);
                if st.stack[st.stack.len() - 1] == 0 {
                    goto(st, prog.len(), st.ip + o, st.rstack, popped)
                } else {
                    StepRes::Next(VmState { stack: popped, rstack: st.rstack, ip: st.ip + 1 })
                }
            },
            Instr::Call(a) => goto(
                st,
                prog.len(),
                a as int,
                st.rstack.push((st.ip + 1) as usize),
                st.stack,
            ),
            Instr::CallWord(name) => if dict.contains_key(name) {
                goto(
                    st,
                    prog.len(),
                    dict[name] as int,
                    st.rstack.push((st.ip + 1) as usize),
                    st.stack,
                )
            } else {
                StepRes::Fail(VmError::UnknownWord { ip: st.ip as usize })
            },
            Instr::Return => if st.rstack.len() < 1 {
                StepRes::Fail(VmError::ReturnStackUnderflow { ip: st.ip as usize })
            } else {
                goto(
                    st,
                    prog.len(),
                    st.rstack.last() as int,
                    st.rstack.drop_last(),
                    st.stack,
                )
            },
            Instr::Halt => StepRes::Stop,
            // every remaining instruction is linear, so this arm is never reached
            _ => StepRes::Stop,
        }
    }
}

/// Where a bounded run ends: the state at the end, and `Ok` for a clean
/// end (a `Halt`, or the instruction pointer leaving the program) or the
/// error that stopped it.
pub struct RunEnd {
    pub state: VmState,
    pub result: Result<(), VmError>,
}

/// Executing at most `fuel` instructions from `st`.
pub open spec fn run_spec(
    prog: Seq<Instr>,
    dict: Map<Seq<char>, usize>,
    st: VmState,
    fuel: nat,
) -> RunEnd
    decreases fuel,
{
    if st.ip >= prog.len() {
        RunEnd { state: st, result: Ok(()) }
    } else if fuel == 0 {
        RunEnd { state: st, result: Err(VmError::StepLimit { ip: st.ip as usize }) }
    } else {
        match step(prog, dict, st) {
            StepRes::Next(st2) => run_spec(prog, dict, st2, (fuel - 1) as nat),
            StepRes::Stop => RunEnd { state: st, result: Ok(()) },
            StepRes::Fail(e) => RunEnd { state: st, result: Err(e) },
        }
    }
}

/// The virtual machine.  The program is immutable during execution; the
/// two stacks and the instruction pointer are the run-time state, and
/// the dictionary resolves `CallWord` names.
pub struct VM {
    pub stack: Vec<i32>,
    pub program: Vec<Instruction>,
    pub ip: usize,
    pub return_stack: Vec<usize>,
    pub dictionary: Vec<(String, usize)>,
}

impl VM {
    /// The ghost state of this machine.
    pub open spec fn state(self) -> VmState {
        VmState { stack: self.stack@, rstack: self.return_stack@, ip: self.ip as nat }
    }

    /// The ghost image of the installed program.
    pub open spec fn prog(self) -> Seq<Instr> {
        prog_view(self.program@)
    }

    /// The map the installed dictionary denotes.
    pub open spec fn dict(self) -> Map<Seq<char>, usize> {
        dict_view(self.dictionary@)
    }

    /// A fresh machine over `program`: empty stacks, instruction pointer
    /// at the start, empty dictionary.
    pub fn new(program: Vec<Instruction>) -> (vm: Self)
        ensures
            vm.program@ == program@,
            vm.stack@ == Seq::<i32>::empty(),
            vm.return_stack@ == Seq::<usize>::empty(),
            vm.ip == 0,
            vm.dictionary@ == Seq::<(String, usize)>::empty(),
    {
        Self {
            stack: Vec::new(),
            program,
            ip: 0,
            return_stack: Vec::new(),
            dictionary: Vec::new(),
        }
    }

    /// Records `name` as a word entered at `address`, overriding any
    /// earlier entry for the same name.
    pub fn add_word(&mut self, name: &str, address: usize)
        ensures
            final(self).dict() == old(self).dict().insert(name@, address),
            final(self).dictionary@.len() == old(self).dictionary@.len() + 1,
            final(self).dictionary@.drop_last() == old(self).dictionary@,
            final(self).dictionary@.last().0@ == name@,
            final(self).dictionary@.last().1 == address,
            final(self).stack == old(self).stack,
            final(self).program == old(self).program,
            final(self).return_stack == old(self).return_stack,
            final(self).ip == old(self).ip,
    {
        self.dictionary.push((name.to_owned(), address));
        proof {
            assert(self.dictionary@.drop_last() =~= old(self).dictionary@);
        }
    }

    /// Executes at most `fuel` instructions, until a `Halt`, until the
    /// instruction pointer leaves the program, or until a fatal
    /// condition.  The outcome and the machine's final state are exactly
    /// those of the ghost semantics `run_spec` on the starting state.
    pub fn run(&mut self, fuel: usize) -> (r: Result<(), VmError>)
        ensures
            final(self).program == old(self).program,
            final(self).dictionary == old(self).dictionary,
            final(self).state() == run_spec(
                old(self).prog(),
                old(self).dict(),
                old(self).state(),
                fuel as nat,
            ).state,
            r == run_spec(
                old(self).prog(),
                old(self).dict(),
                old(self).state(),
                fuel as nat,
            ).result,
    {
        let ghost prog = self.prog();
        let ghost dict = self.dict();
        let ghost s0 = self.state();
        let mut remaining: usize = fuel;
        while self.ip < self.program.len()
            invariant
                self.program == old(self).program,
                self.dictionary == old(self).dictionary,
                prog == self.prog(),
                dict == self.dict(),
                run_spec(prog, dict, self.state(), remaining as nat) == run_spec(
                    prog,
                    dict,
                    s0,
                    fuel as nat,
                ),
                s0 == old(self).state(),
            decreases remaining,
        {
            let ghost pre = self.state();
            if remaining == 0 {
                return Err(VmError::StepLimit { ip: self.ip });
            }
            remaining = remaining - 1;
            proof {
                assert(prog[pre.ip as int] == self.program@[pre.ip as int]@);
            }
            match &self.program[self.ip] {
                Instruction::Push(v) => {
                    self.stack.push(*v);
                    self.ip = self.ip + 1;
                    proof {
                        assert(step(prog, dict, pre) == StepRes::Next(self.state()));
                    }
                },
                Instruction::Add => {
                    let n = self.stack.len();
                    if n < 2 {
                        return Err(VmError::StackUnderflow { ip: self.ip });
                    }
                    let b = self.stack.pop().unwrap();
                    let a = self.stack.pop().unwrap();
                    self.stack.push(a.wrapping_add(b));
                    self.ip = self.ip + 1;
                    proof {
                        assert(self.stack@ =~= pre.stack.take(n - 2).push(
                            vstd::wrapping::i32_specs::wrapping_add(a, b),
                        ));
                        assert(step(prog, dict, pre) == StepRes::Next(self.state()));
                    }
                },
                Instruction::Mul => {
                    let n = self.stack.len();
                    if n < 2 {
                        return Err(VmError::StackUnderflow { ip: self.ip });
                    }
                    let b = self.stack.pop().unwrap();
                    let a = self.stack.pop().unwrap();
                    self.stack.push(a.wrapping_mul(b));
                    self.ip = self.ip + 1;
                    proof {
                        assert(self.stack@ =~= pre.stack.take(n - 2).push(
                            vstd::wrapping::i32_specs::wrapping_mul(a, b),
                        ));
                        assert(step(prog, dict, pre) == StepRes::Next(self.state()));
                    }
                },
                Instruction::Dup => {
                    let n = self.stack.len();
                    if n < 1 {
                        return Err(VmError::StackUnderflow { ip: self.ip });
                    }
                    let top = self.stack[n - 1];
                    self.stack.push(top);
                    self.ip = self.ip + 1;
                    proof {
                        assert(step(prog, dict, pre) == StepRes::Next(self.state()));
                    }
                },
                Instruction::Drop => {
                    let n = self.stack.len();
                    if n < 1 {
                        return Err(VmError::StackUnderflow { ip: self.ip });
                    }
                    self.stack.pop();
                    self.ip = self.ip + 1;
                    proof {
                        assert(self.stack@ =~= pre.stack.take(n - 1));
                        assert(step(prog, dict, pre) == StepRes::Next(self.state()));
                    }
                },
                Instruction::Swap => {
                    let n = self.stack.len();
                    if n < 2 {
                        return Err(VmError::StackUnderflow { ip: self.ip });
                    }
                    let b = self.stack.pop().unwrap();
                    let a = self.stack.pop().unwrap();
                    self.stack.push(b);
                    self.stack.push(a);
                    self.ip = self.ip + 1;
                    proof {
                        assert(self.stack@ =~= pre.stack.take(n - 2).push(b).push(a));
                        assert(step(prog, dict, pre) == StepRes::Next(self.state()));
                    }
                },
                Instruction::Over => {
                    let n = self.stack.len();
                    if n < 2 {
                        return Err(VmError::StackUnderflow { ip: self.ip });
                    }
                    let v = self.stack[n - 2];
                    self.stack.push(v);
                    self.ip = self.ip + 1;
                    proof {
                        assert(step(prog, dict, pre) == StepRes::Next(self.state()));
                    }
                },
                Instruction::Rot => {
                    let n = self.stack.len();
                    if n < 3 {
                        return Err(VmError::StackUnderflow { ip: self.ip });
                    }
                    let c = self.stack.pop().unwrap();
                    let b = self.stack.pop().unwrap();
                    let a = self.stack.pop().unwrap();
                    self.stack.push(b);
                    self.stack.push(c);
                    self.stack.push(a);
                    self.ip = self.ip + 1;
                    proof {
                        assert(self.stack@ =~= pre.stack.take(n - 3).push(b).push(c).push(a));
                        assert(step(prog, dict, pre) == StepRes::Next(self.state()));
                    }
                },
                Instruction::Nip => {
                    let n = self.stack.len();
                    if n < 2 {
                        return Err(VmError::StackUnderflow { ip: self.ip });
                    }
                    let top = self.stack.pop().unwrap();
                    self.stack.pop();
                    self.stack.push(top);
                    self.ip = self.ip + 1;
                    proof {
                        assert(self.stack@ =~= pre.stack.take(n - 2).push(top));
                        assert(step(prog, dict, pre) == StepRes::Next(self.state()));
                    }
                },
                Instruction::Tuck => {
                    let n = self.stack.len();
                    if n < 2 {
                        return Err(VmError::StackUnderflow { ip: self.ip });
                    }
                    let b = self.stack.pop().unwrap();
                    let a = self.stack.pop().unwrap();
                    self.stack.push(b);
                    self.stack.push(a);
                    self.stack.push(b);
                    self.ip = self.ip + 1;
                    proof {
                        assert(self.stack@ =~= pre.stack.take(n - 2).push(b).push(a).push(b));
                        assert(step(prog, dict, pre) == StepRes::Next(self.state()));
                    }
                },
                Instruction::TwoDup => {
                    let n = self.stack.len();
                    if n < 2 {
                        return Err(VmError::StackUnderflow { ip: self.ip });
                    }
                    let a = self.stack[n - 2];
                    let b = self.stack[n - 1];
                    self.stack.push(a);
                    self.stack.push(b);
                    self.ip = self.ip + 1;
                    proof {
                        assert(step(prog, dict, pre) == StepRes::Next(self.state()));
                    }
                },
                Instruction::TwoDrop => {
                    let n = self.stack.len();
                    if n < 2 {
                        return Err(VmError::StackUnderflow { ip: self.ip });
                    }
                    self.stack.pop();
                    self.stack.pop();
                    self.ip = self.ip + 1;
                    proof {
                        assert(self.stack@ =~= pre.stack.take(n - 2));
                        assert(step(prog, dict, pre) == StepRes::Next(self.state()));
                    }
                },
                Instruction::TwoSwap => {
                    let n = self.stack.len();
                    if n < 4 {
                        return Err(VmError::StackUnderflow { ip: self.ip });
                    }
                    let d = self.stack.pop().unwrap();
                    let c = self.stack.pop().unwrap();
                    let b = self.stack.pop().unwrap();
                    let a = self.stack.pop().unwrap();
                    self.stack.push(c);
                    self.stack.push(d);
                    self.stack.push(a);
                    self.stack.push(b);
                    self.ip = self.ip + 1;
                    proof {
                        assert(self.stack@ =~= pre.stack.take(n - 4).push(c).push(d).push(a).push(
                            b,
                        ));
                        assert(step(prog, dict, pre) == StepRes::Next(self.state()));
                    }
                },
                Instruction::Depth => {
                    let n = self.stack.len();
                    let d: i32 = if n > (i32::MAX as usize) {
                        i32::MAX
                    } else {
                        n as i32
                    };
                    self.stack.push(d);
                    self.ip = self.ip + 1;
                    proof {
                        assert(d == depth_value(pre.stack.len()));
                        assert(step(prog, dict, pre) == StepRes::Next(self.state()));
                    }
                },
                Instruction::Jump(o) => {
                    match branch_target(self.ip, self.program.len(), *o) {
                        Some(t) => {
                            self.ip = t;
                            proof {
                                assert(step(prog, dict, pre) == StepRes::Next(self.state()));
                            }
                        },
                        None => {
                            return Err(VmError::InvalidJump { ip: self.ip });
                        },
                    }
                },
                Instruction::IfZero(o) => {
                    let n = self.stack.len();
                    if n < 1 {
                        return Err(VmError::StackUnderflow { ip: self.ip });
                    }
                    let cond = self.stack[n - 1];
                    if cond == 0 {
                        match branch_target(self.ip, self.program.len(), *o) {
                            Some(t) => {
                                self.stack.pop();
                                self.ip = t;
                                proof {
                                    assert(self.stack@ =~= pre.stack.take(n - 1));
                                    assert(step(prog, dict, pre) == StepRes::Next(self.state()));
                                }
                            },
                            None => {
                                return Err(VmError::InvalidJump { ip: self.ip });
                            },
                        }
                    } else {
                        self.stack.pop();
                        self.ip = self.ip + 1;
                        proof {
                            assert(self.stack@ =~= pre.stack.take(n - 1));
                            assert(step(prog, dict, pre) == StepRes::Next(self.state()));
                        }
                    }
                },
                Instruction::Call(a) => {
                    let addr = *a;
                    if addr > self.program.len() {
                        return Err(VmError::InvalidJump { ip: self.ip });
                    }
                    self.return_stack.push(self.ip + 1);
                    self.ip = addr;
                    proof {
                        assert(step(prog, dict, pre) == StepRes::Next(self.state()));
                    }
                },
                Instruction::CallWord(name) => {
                    match dict_lookup(&self.dictionary, name) {
                        None => {
                            return Err(VmError::UnknownWord { ip: self.ip });
                        },
                        Some(addr) => {
                            if addr > self.program.len() {
                                return Err(VmError::InvalidJump { ip: self.ip });
                            }
                            self.return_stack.push(self.ip + 1);
                            self.ip = addr;
                            proof {
                                assert(step(prog, dict, pre) == StepRes::Next(self.state()));
                            }
                        },
                    }
                },
                Instruction::Return => {
                    let n = self.return_stack.len();
                    if n < 1 {
                        return Err(VmError::ReturnStackUnderflow { ip: self.ip });
                    }
                    let ret = self.return_stack[n - 1];
                    if ret > self.program.len() {
                        return Err(VmError::InvalidJump { ip: self.ip });
                    }
                    self.return_stack.pop();
                    self.ip = ret;
                    proof {
                        assert(self.return_stack@ =~= pre.rstack.drop_last());
                        assert(step(prog, dict, pre) == StepRes::Next(self.state()));
                    }
                },
                Instruction::Halt => {
                    return Ok(());
                },
            }
        }
        Ok(())
    }
}

/// The target of a branch displaced `off` from `ip`: `None` when it
/// would leave `0 ..= len`.
fn branch_target(ip: usize, len: usize, off: isize) -> (r: Option<usize>)
    requires
        ip < len,
    ensures
        match r {
            Some(t) => 0 <= ip + off <= len && t == ip + off,
            None => ip + off < 0 || ip + off > len,
        },
{
    if off >= 0 {
        let offu = off as usize;
        if offu <= len - ip {
            Some(ip + offu)
        } else {
            None
        }
    } else {
        let mag: usize = if off == isize::MIN {
            (isize::MAX as usize) + 1
        } else {
            (-off) as usize
        };
        proof {
            assert(mag == -(off as int));
        }
        if mag <= ip {
            Some(ip - mag)
        } else {
            None
        }
    }
}

/// The address the dictionary holds for `name`, if any: the one of its
/// last entry with that name.
pub fn dict_lookup(entries: &Vec<(String, usize)>, name: &String) -> (r: Option<usize>)
    ensures
        dict_view(entries@).contains_key(name@) ==> r == Some(dict_view(entries@)[name@]),
        !dict_view(entries@).contains_key(name@) ==> r is None,
{
    let mut i: usize = entries.len();
    while i > 0
        invariant
            i <= entries@.len(),
            forall|j: int| i <= j < entries@.len() ==> entries@[j].0@ != name@,
        decreases i,
    {
        i = i - 1;
        let e = &entries[i];
        if e.0 == *name {
            proof {
                lemma_dict_view_beyond(entries@, i + 1, name@);
                assert(entries@.take(i + 1).drop_last() =~= entries@.take(i as int));
                assert(entries@.take(i + 1).last() == entries@[i as int]);
                lemma_dict_view_beyond(entries@.take(i as int), i as int, name@);
            }
            return Some(e.1);
        }
    }
    proof {
        lemma_dict_view_beyond(entries@, 0, name@);
        assert(entries@.take(0).len() == 0);
    }
    None
}

/// Entries at positions `i` and beyond whose names all differ from `k`
/// do not affect what the dictionary holds for `k`.
proof fn lemma_dict_view_beyond(entries: Seq<(String, usize)>, i: int, k: Seq<char>)
    requires
        0 <= i <= entries.len(),
        forall|j: int| i <= j < entries.len() ==> entries[j].0@ != k,
    ensures
        dict_view(entries).contains_key(k) == dict_view(entries.take(i)).contains_key(k),
        dict_view(entries).contains_key(k) ==> dict_view(entries)[k] == dict_view(
            entries.take(i),
        )[k],
    decreases entries.len() - i,
{
    if i == entries.len() {
        assert(entries.take(i) =~= entries);
    } else {
        assert(entries.last().0@ != k);
        lemma_dict_view_beyond(entries.drop_last(), i, k);
        assert(entries.drop_last().take(i) =~= entries.take(i));
    }
}

} // verus!
