use forth_vm::instr::Instruction;
use forth_vm::vm::VM;

const FUEL: usize = 10_000;

#[test]
fn arithmetic_program_runs_to_twenty() {
    // (2 + 3) * 4
    let program = vec![
        Instruction::Push(2),
        Instruction::Push(3),
        Instruction::Add,
        Instruction::Push(4),
        Instruction::Mul,
        Instruction::Halt,
    ];
    let mut vm = VM::new(program);
    assert_eq!(vm.run(FUEL), Ok(()));
    assert_eq!(vm.stack, vec![20]);
}

#[test]
fn call_and_return_square_five() {
    // The word at address 3 squares the top of stack.
    let program = vec![
        Instruction::Push(5),
        Instruction::Call(3),
        Instruction::Halt,
        Instruction::Dup,
        Instruction::Mul,
        Instruction::Return,
    ];
    let mut vm = VM::new(program);
    assert_eq!(vm.run(FUEL), Ok(()));
    assert_eq!(vm.stack, vec![25]);
}

#[test]
fn call_word_through_dictionary() {
    let program = vec![
        Instruction::Push(5),
        Instruction::CallWord("sq".to_string()),
        Instruction::Halt,
        Instruction::Dup,
        Instruction::Mul,
        Instruction::Return,
    ];
    let mut vm = VM::new(program);
    vm.add_word("sq", 3);
    assert_eq!(vm.run(FUEL), Ok(()));
    assert_eq!(vm.stack, vec![25]);
}

#[test]
fn new_vm_starts_empty() {
    let vm = VM::new(vec![Instruction::Halt]);
    assert_eq!(vm.stack, Vec::<i32>::new());
    assert_eq!(vm.return_stack, Vec::<usize>::new());
    assert_eq!(vm.ip, 0);
    assert!(vm.dictionary.is_empty());
}

#[test]
fn add_word_overrides_earlier_entry() {
    let program = vec![
        Instruction::CallWord("w".to_string()),
        Instruction::Halt,
        Instruction::Push(1),
        Instruction::Return,
        Instruction::Push(2),
        Instruction::Return,
    ];
    let mut vm = VM::new(program);
    vm.add_word("w", 2);
    vm.add_word("w", 4);
    assert_eq!(vm.run(FUEL), Ok(()));
    assert_eq!(vm.stack, vec![2]);
}

#[test]
fn push_then_drop_leaves_stack_unchanged() {
    let program = vec![Instruction::Push(7), Instruction::Drop, Instruction::Halt];
    let mut vm = VM::new(program);
    vm.stack = vec![1, 2];
    assert_eq!(vm.run(FUEL), Ok(()));
    assert_eq!(vm.stack, vec![1, 2]);
}

#[test]
fn dup_then_swap_keeps_top_pair_equal() {
    let program = vec![Instruction::Dup, Instruction::Swap, Instruction::Halt];
    let mut vm = VM::new(program);
    vm.stack = vec![4, 9];
    assert_eq!(vm.run(FUEL), Ok(()));
    assert_eq!(vm.stack, vec![4, 9, 9]);
}

#[test]
fn two_swap_twice_restores_arrangement() {
    let program = vec![Instruction::TwoSwap, Instruction::TwoSwap, Instruction::Halt];
    let mut vm = VM::new(program);
    vm.stack = vec![1, 2, 3, 4, 5];
    assert_eq!(vm.run(FUEL), Ok(()));
    assert_eq!(vm.stack, vec![1, 2, 3, 4, 5]);
}

#[test]
fn straight_line_program_matches_direct_simulation() {
    // Simulated by hand: 1 2 over rot tuck nip 2dup 2drop swap depth
    let program = vec![
        Instruction::Push(1),
        Instruction::Push(2),
        Instruction::Over,  // 1 2 1
        Instruction::Rot,   // 2 1 1
        Instruction::Tuck,  // 2 1 1 1
        Instruction::Nip,   // 2 1 1
        Instruction::TwoDup,  // 2 1 1 1 1
        Instruction::TwoDrop, // 2 1 1
        Instruction::Swap,  // 2 1 1
        Instruction::Depth, // 2 1 1 3
    ];
    let mut vm = VM::new(program);
    assert_eq!(vm.run(FUEL), Ok(()));
    assert_eq!(vm.stack, vec![2, 1, 1, 3]);
}

#[test]
fn stack_shuffles_move_values_as_forth_defines() {
    let mut vm = VM::new(vec![Instruction::Rot]);
    vm.stack = vec![10, 20, 30];
    assert_eq!(vm.run(FUEL), Ok(()));
    assert_eq!(vm.stack, vec![20, 30, 10]);

    let mut vm = VM::new(vec![Instruction::Nip]);
    vm.stack = vec![10, 20];
    assert_eq!(vm.run(FUEL), Ok(()));
    assert_eq!(vm.stack, vec![20]);

    let mut vm = VM::new(vec![Instruction::Tuck]);
    vm.stack = vec![10, 20];
    assert_eq!(vm.run(FUEL), Ok(()));
    assert_eq!(vm.stack, vec![20, 10, 20]);

    let mut vm = VM::new(vec![Instruction::TwoSwap]);
    vm.stack = vec![1, 2, 3, 4];
    assert_eq!(vm.run(FUEL), Ok(()));
    assert_eq!(vm.stack, vec![3, 4, 1, 2]);
}

#[test]
fn depth_pushes_current_size() {
    let mut vm = VM::new(vec![Instruction::Depth]);
    assert_eq!(vm.run(FUEL), Ok(()));
    assert_eq!(vm.stack, vec![0]);

    let mut vm = VM::new(vec![
        Instruction::Push(1),
        Instruction::Push(2),
        Instruction::Depth,
    ]);
    assert_eq!(vm.run(FUEL), Ok(()));
    assert_eq!(vm.stack, vec![1, 2, 2]);
}

#[test]
fn add_and_mul_wrap_around() {
    let mut vm = VM::new(vec![
        Instruction::Push(i32::MAX),
        Instruction::Push(1),
        Instruction::Add,
    ]);
    assert_eq!(vm.run(FUEL), Ok(()));
    assert_eq!(vm.stack, vec![i32::MIN]);

    let mut vm = VM::new(vec![
        Instruction::Push(65536),
        Instruction::Push(65536),
        Instruction::Mul,
    ]);
    assert_eq!(vm.run(FUEL), Ok(()));
    assert_eq!(vm.stack, vec![0]);
}

#[test]
fn if_zero_branches_on_zero_only() {
    let taken = vec![
        Instruction::Push(0),
        Instruction::IfZero(2),
        Instruction::Push(1),
        Instruction::Push(2),
        Instruction::Halt,
    ];
    let mut vm = VM::new(taken);
    assert_eq!(vm.run(FUEL), Ok(()));
    assert_eq!(vm.stack, vec![2]);

    let not_taken = vec![
        Instruction::Push(5),
        Instruction::IfZero(2),
        Instruction::Push(1),
        Instruction::Push(2),
        Instruction::Halt,
    ];
    let mut vm = VM::new(not_taken);
    assert_eq!(vm.run(FUEL), Ok(()));
    assert_eq!(vm.stack, vec![1, 2]);
}

#[test]
fn backward_jump_loops_and_counts_down() {
    // 3 begin dup if-zero-exit -1 + again: counts 3,2,1,0 leaving 0
    let program = vec![
        Instruction::Push(3),
        Instruction::Dup,
        Instruction::IfZero(4),
        Instruction::Push(-1),
        Instruction::Add,
        Instruction::Jump(-4),
        Instruction::Halt,
    ];
    let mut vm = VM::new(program);
    assert_eq!(vm.run(FUEL), Ok(()));
    assert_eq!(vm.stack, vec![0]);
}

#[test]
fn running_off_the_end_ends_cleanly() {
    let mut vm = VM::new(vec![Instruction::Push(1)]);
    assert_eq!(vm.run(FUEL), Ok(()));
    assert_eq!(vm.stack, vec![1]);
    assert_eq!(vm.ip, 1);
}

#[test]
fn jump_to_program_length_ends_cleanly() {
    let mut vm = VM::new(vec![Instruction::Jump(1)]);
    assert_eq!(vm.run(FUEL), Ok(()));
    assert_eq!(vm.stack, Vec::<i32>::new());
}
