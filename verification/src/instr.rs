//! The instruction set, its ghost image, and the stack effect of the
//! straight-line (non-control-flow) operations.

use vstd::prelude::*;

verus! {

/// One machine instruction.
///
/// The zero-operand operations manipulate the evaluation stack only;
/// `Jump`, `IfZero`, `Call`, `CallWord`, `Return` and `Halt` redirect or
/// end control flow.  `CallWord` carries a word name that is resolved
/// through the dictionary when the instruction executes.
#[derive(Debug, PartialEq, Eq)]
pub enum Instruction {
    Push(i32),
    Add,
    Mul,
    Dup,
    Drop,
    Swap,
    Over,
    Rot,
    Nip,
    Tuck,
    TwoDup,
    TwoDrop,
    TwoSwap,
    Depth,
    Jump(isize),
    IfZero(isize),
    Call(usize),
    CallWord(String),
    Return,
    Halt,
}

/// Ghost image of an instruction: the same shape, with a word name seen
/// as its character sequence.  All contracts speak of this image.
pub enum Instr {
    Push(i32),
    Add,
    Mul,
    Dup,
    Drop,
    Swap,
    Over,
    Rot,
    Nip,
    Tuck,
    TwoDup,
    TwoDrop,
    TwoSwap,
    Depth,
    Jump(isize),
    IfZero(isize),
    Call(usize),
    CallWord(Seq<char>),
    Return,
    Halt,
}

impl View for Instruction {
    type V = Instr;

    open spec fn view(&self) -> Instr {
        match self {
            Instruction::Push(v) => Instr::Push(*v),
            Instruction::Add => Instr::Add,
            Instruction::Mul => Instr::Mul,
            Instruction::Dup => Instr::Dup,
            Instruction::Drop => Instr::Drop,
            Instruction::Swap => Instr::Swap,
            Instruction::Over => Instr::Over,
            Instruction::Rot => Instr::Rot,
            Instruction::Nip => Instr::Nip,
            Instruction::Tuck => Instr::Tuck,
            Instruction::TwoDup => Instr::TwoDup,
            Instruction::TwoDrop => Instr::TwoDrop,
            Instruction::TwoSwap => Instr::TwoSwap,
            Instruction::Depth => Instr::Depth,
            Instruction::Jump(o) => Instr::Jump(*o),
            Instruction::IfZero(o) => Instr::IfZero(*o),
            Instruction::Call(a) => Instr::Call(*a),
            Instruction::CallWord(name) => Instr::CallWord(name@),
            Instruction::Return => Instr::Return,
            Instruction::Halt => Instr::Halt,
        }
    }
}

/// The ghost image of a whole program.
pub open spec fn prog_view(p: Seq<Instruction>) -> Seq<Instr> {
    p.map_values(|i: Instruction| i@)
}

/// True of the instructions whose whole effect is on the evaluation
/// stack: everything except branching, calling, returning and halting.
pub open spec fn is_linear(i: Instr) -> bool {
    match i {
        Instr::Push(_) => true,
        Instr::Add => true,
        Instr::Mul => true,
        Instr::Dup => true,
        Instr::Drop => true,
        Instr::Swap => true,
        Instr::Over => true,
        Instr::Rot => true,
        Instr::Nip => true,
        Instr::Tuck => true,
        Instr::TwoDup => true,
        Instr::TwoDrop => true,
        Instr::TwoSwap => true,
        Instr::Depth => true,
        _ => false,
    }
}

/// How many evaluation-stack elements a linear instruction requires.
pub open spec fn required_depth(i: Instr) -> nat {
    match i {
        Instr::Push(_) => 0,
        Instr::Add => 2,
        Instr::Mul => 2,
        Instr::Dup => 1,
        Instr::Drop => 1,
        Instr::Swap => 2,
        Instr::Over => 2,
        Instr::Rot => 3,
        Instr::Nip => 2,
        Instr::Tuck => 2,
        Instr::TwoDup => 2,
        Instr::TwoDrop => 2,
        Instr::TwoSwap => 4,
        Instr::Depth => 0,
        _ => 0,
    }
}

/// The stack size pushed by `Depth`, saturated at `i32::MAX` so that the
/// value always fits the machine's cell type.
pub open spec fn depth_value(n: nat) -> i32 {
    if n > i32::MAX { i32::MAX } else { n as i32 }
}

/// The stack effect of a linear instruction: `None` on underflow, and
/// otherwise the new evaluation stack.  `Add` and `Mul` wrap on
/// overflow, two's-complement style; the second-popped value is the
/// left operand.
pub open spec fn linear_effect(i: Instr, s: Seq<i32>) -> Option<Seq<i32>> {
    let n = s.len();
    match i {
        Instr::Push(v) => Some(s.push(v)),
        Instr::Add => if n < 2 {
            None
        } else {
            Some(s.take(n - 2).push(vstd::wrapping::i32_specs::wrapping_add(s[n - 2], s[n - 1])))
        },
        Instr::Mul => if n < 2 {
            None
        } else {
            Some(s.take(n - 2).push(vstd::wrapping::i32_specs::wrapping_mul(s[n - 2], s[n - 1])))
        },
        Instr::Dup => if n < 1 {
            None
        } else {
            Some(s.push(s[n - 1]))
        },
        Instr::Drop => if n < 1 {
            None
        } else {
            Some(s.take(n - 1))
        },
        Instr::Swap => if n < 2 {
            None
        } else {
            Some(s.take(n - 2).push(s[n - 1]).push(s[n - 2]))
        },
        Instr::Over => if n < 2 {
            None
        } else {
            Some(s.push(s[n - 2]))
        },
        Instr::Rot => if n < 3 {
            None
        } else {
            Some(s.take(n - 3).push(s[n - 2]).push(s[n - 1]).push(s[n - 3]))
        },
        Instr::Nip => if n < 2 {
            None
        } else {
            Some(s.take(n - 2).push(s[n - 1]))
        },
        Instr::Tuck => if n < 2 {
            None
        } else {
            Some(s.take(n - 2).push(s[n - 1]).push(s[n - 2]).push(s[n - 1]))
        },
        Instr::TwoDup => if n < 2 {
            None
        } else {
            Some(s.push(s[n - 2]).push(s[n - 1]))
        },
        Instr::TwoDrop => if n < 2 {
            None
        } else {
            Some(s.take(n - 2))
        },
        Instr::TwoSwap => if n < 4 {
            None
        } else {
            Some(s.take(n - 4).push(s[n - 2]).push(s[n - 1]).push(s[n - 4]).push(s[n - 3]))
        },
        Instr::Depth => Some(s.push(depth_value(n))),
        _ => None,
    }
}

/// The image of programs laid end to end.
pub proof fn lemma_prog_view_concat(a: Seq<Instruction>, b: Seq<Instruction>)
    ensures
        prog_view(a + b) == prog_view(a) + prog_view(b),
{
    assert forall|j: int| 0 <= j < (a + b).len() implies prog_view(a + b)[j] == (prog_view(a)
        + prog_view(b))[j] by {
        if j < a.len() {
            assert((a + b)[j] == a[j]);
        } else {
            assert((a + b)[j] == b[j - a.len()]);
        }
    }
    assert(prog_view(a + b) =~= prog_view(a) + prog_view(b));
}

} // verus!
