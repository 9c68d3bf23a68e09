use forth_vm::instr::Instruction;
use forth_vm::vm::{VmError, VM};

const FUEL: usize = 10_000;

fn underflows(instr: Instruction, prior: Vec<i32>) {
    let mut vm = VM::new(vec![instr]);
    vm.stack = prior.clone();
    assert_eq!(vm.run(FUEL), Err(VmError::StackUnderflow { ip: 0 }));
    // The stack is exactly as it was: nothing was popped before failing.
    assert_eq!(vm.stack, prior);
}

#[test]
fn every_operation_underflows_below_its_minimum() {
    underflows(Instruction::Dup, vec![]);
    underflows(Instruction::Drop, vec![]);
    underflows(Instruction::Add, vec![1]);
    underflows(Instruction::Mul, vec![1]);
    underflows(Instruction::Swap, vec![1]);
    underflows(Instruction::Over, vec![1]);
    underflows(Instruction::Nip, vec![1]);
    underflows(Instruction::Tuck, vec![1]);
    underflows(Instruction::TwoDup, vec![1]);
    underflows(Instruction::TwoDrop, vec![1]);
    underflows(Instruction::IfZero(1), vec![]);
    underflows(Instruction::Rot, vec![1, 2]);
    underflows(Instruction::TwoSwap, vec![1, 2, 3]);
}

#[test]
fn underflow_reports_the_failing_address() {
    let program = vec![Instruction::Push(1), Instruction::Add];
    let mut vm = VM::new(program);
    assert_eq!(vm.run(FUEL), Err(VmError::StackUnderflow { ip: 1 }));
    assert_eq!(vm.stack, vec![1]);
}

#[test]
fn return_with_no_frame_underflows_return_stack() {
    let mut vm = VM::new(vec![Instruction::Return]);
    assert_eq!(vm.run(FUEL), Err(VmError::ReturnStackUnderflow { ip: 0 }));
}

#[test]
fn unknown_word_fails_and_executes_nothing() {
    let program = vec![
        Instruction::CallWord("missing".to_string()),
        Instruction::Push(1),
    ];
    let mut vm = VM::new(program);
    assert_eq!(vm.run(FUEL), Err(VmError::UnknownWord { ip: 0 }));
    // Control never fell through to an arbitrary address.
    assert_eq!(vm.stack, Vec::<i32>::new());
    assert_eq!(vm.return_stack, Vec::<usize>::new());
    assert_eq!(vm.ip, 0);
}

#[test]
fn unknown_word_with_wrong_dictionary_entry_name() {
    let program = vec![Instruction::CallWord("a".to_string())];
    let mut vm = VM::new(program);
    vm.add_word("b", 0);
    assert_eq!(vm.run(FUEL), Err(VmError::UnknownWord { ip: 0 }));
}

#[test]
fn negative_jump_target_is_rejected() {
    let mut vm = VM::new(vec![Instruction::Jump(-5)]);
    assert_eq!(vm.run(FUEL), Err(VmError::InvalidJump { ip: 0 }));
}

#[test]
fn jump_past_the_end_is_rejected() {
    let mut vm = VM::new(vec![Instruction::Jump(2)]);
    assert_eq!(vm.run(FUEL), Err(VmError::InvalidJump { ip: 0 }));
}

#[test]
fn call_outside_the_program_is_rejected() {
    let mut vm = VM::new(vec![Instruction::Call(10)]);
    assert_eq!(vm.run(FUEL), Err(VmError::InvalidJump { ip: 0 }));
}

#[test]
fn return_to_an_address_outside_the_program_is_rejected() {
    let mut vm = VM::new(vec![Instruction::Return]);
    vm.return_stack = vec![99];
    assert_eq!(vm.run(FUEL), Err(VmError::InvalidJump { ip: 0 }));
}

#[test]
fn self_jump_exhausts_the_step_budget() {
    let mut vm = VM::new(vec![Instruction::Jump(0)]);
    assert_eq!(vm.run(FUEL), Err(VmError::StepLimit { ip: 0 }));
    assert_eq!(vm.ip, 0);

    let mut vm = VM::new(vec![Instruction::Jump(0)]);
    assert_eq!(vm.run(1), Err(VmError::StepLimit { ip: 0 }));
}

#[test]
fn zero_budget_stops_before_the_first_instruction() {
    let mut vm = VM::new(vec![Instruction::Push(1)]);
    assert_eq!(vm.run(0), Err(VmError::StepLimit { ip: 0 }));
    assert_eq!(vm.stack, Vec::<i32>::new());
}
