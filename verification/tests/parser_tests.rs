use forth_vm::instr::Instruction;
use forth_vm::parser::{ParseError, Parser};
use forth_vm::vm::VM;

const FUEL: usize = 10_000;

fn run_source(src: &str) -> Vec<i32> {
    let mut parser = Parser::new();
    parser.parse(src).expect("source should parse");
    let (instructions, dictionary) = parser.finalize();
    let mut vm = VM::new(instructions);
    vm.dictionary = dictionary;
    vm.run(FUEL).expect("program should run");
    vm.stack
}

#[test]
fn word_defined_after_use_squares_five() {
    assert_eq!(run_source("5 square : square dup * ;"), vec![25]);
}

#[test]
fn word_defined_before_use_squares_five() {
    assert_eq!(run_source(": square dup * ; 5 square"), vec![25]);
}

#[test]
fn finalize_lays_out_main_halt_then_definitions() {
    let mut parser = Parser::new();
    parser.parse("5 square : square dup * ;").unwrap();
    let (instructions, dictionary) = parser.finalize();
    assert_eq!(
        instructions,
        vec![
            Instruction::Push(5),
            Instruction::CallWord("square".to_string()),
            Instruction::Halt,
            Instruction::Dup,
            Instruction::Mul,
            Instruction::Return,
        ]
    );
    assert_eq!(dictionary, vec![("square".to_string(), 3)]);
}

#[test]
fn finalize_of_empty_source_is_a_lone_halt() {
    let mut parser = Parser::new();
    parser.parse("").unwrap();
    let (instructions, dictionary) = parser.finalize();
    assert_eq!(instructions, vec![Instruction::Halt]);
    assert_eq!(dictionary, Vec::<(String, usize)>::new());
}

#[test]
fn whitespace_of_every_kind_separates_tokens() {
    assert_eq!(run_source("  5 \t 7\n+\r\n"), vec![12]);
}

#[test]
fn every_builtin_name_is_recognized() {
    let mut parser = Parser::new();
    parser
        .parse("dup drop swap over rot nip tuck 2dup 2drop 2swap + * depth")
        .unwrap();
    let (instructions, _) = parser.finalize();
    assert_eq!(
        instructions,
        vec![
            Instruction::Dup,
            Instruction::Drop,
            Instruction::Swap,
            Instruction::Over,
            Instruction::Rot,
            Instruction::Nip,
            Instruction::Tuck,
            Instruction::TwoDup,
            Instruction::TwoDrop,
            Instruction::TwoSwap,
            Instruction::Add,
            Instruction::Mul,
            Instruction::Depth,
            Instruction::Halt,
        ]
    );
}

#[test]
fn integer_literals_cover_signs_and_the_full_range() {
    let mut parser = Parser::new();
    parser
        .parse("0 +5 -3 2147483647 -2147483648 007")
        .unwrap();
    let (instructions, _) = parser.finalize();
    assert_eq!(
        instructions,
        vec![
            Instruction::Push(0),
            Instruction::Push(5),
            Instruction::Push(-3),
            Instruction::Push(i32::MAX),
            Instruction::Push(i32::MIN),
            Instruction::Push(7),
            Instruction::Halt,
        ]
    );
}

#[test]
fn out_of_range_or_malformed_numbers_become_words() {
    let mut parser = Parser::new();
    parser.parse("2147483648 -2147483649 1x +- -").unwrap();
    let (instructions, _) = parser.finalize();
    assert_eq!(
        instructions,
        vec![
            Instruction::CallWord("2147483648".to_string()),
            Instruction::CallWord("-2147483649".to_string()),
            Instruction::CallWord("1x".to_string()),
            Instruction::CallWord("+-".to_string()),
            Instruction::CallWord("-".to_string()),
            Instruction::Halt,
        ]
    );
}

#[test]
fn later_definition_of_the_same_word_wins() {
    assert_eq!(run_source(": f 1 ; : f 2 ; f"), vec![2]);
}

#[test]
fn definitions_can_call_other_words() {
    assert_eq!(
        run_source(": square dup * ; : fourth square square ; 3 fourth"),
        vec![81]
    );
}

#[test]
fn semicolon_outside_definition_is_malformed() {
    let mut parser = Parser::new();
    assert_eq!(parser.parse("5 ;"), Err(ParseError::MalformedDefinition));
}

#[test]
fn unterminated_definition_is_malformed() {
    let mut parser = Parser::new();
    assert_eq!(
        parser.parse(": square dup *"),
        Err(ParseError::MalformedDefinition)
    );
}

#[test]
fn colon_without_a_name_is_malformed() {
    let mut parser = Parser::new();
    assert_eq!(parser.parse(":"), Err(ParseError::MalformedDefinition));
}

#[test]
fn nested_definition_is_malformed() {
    let mut parser = Parser::new();
    assert_eq!(
        parser.parse(": a 1 : b 2 ; ;"),
        Err(ParseError::MalformedDefinition)
    );
}

#[test]
fn parse_accumulates_over_calls() {
    let mut parser = Parser::new();
    parser.parse("5").unwrap();
    parser.parse("square : square dup * ;").unwrap();
    let (instructions, dictionary) = parser.finalize();
    let mut vm = VM::new(instructions);
    vm.dictionary = dictionary;
    vm.run(FUEL).unwrap();
    assert_eq!(vm.stack, vec![25]);
}
