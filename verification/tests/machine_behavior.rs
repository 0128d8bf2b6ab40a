//! Executor behavior: instruction semantics, labels and jumps, output
//! rendering, input requests, and error reporting.

use bytevm::defs::{ExecOutcome, ReadMode, VmError};
use bytevm::machine::Machine;
use bytevm::source::Source;
use bytevm::stack::Stack;
use bytevm::token::parse_source;

fn machine_for(text: &str) -> Machine {
    let lines = parse_source(text);
    let source = Source::new(lines).expect("program should have a start label");
    Machine::new(Stack::new(), source)
}

fn stack_of(machine: &Machine) -> Vec<u8> {
    let mut values = Vec::new();
    for i in 0..machine.stack.len() {
        values.push(machine.stack.get(i));
    }
    values
}

fn run(text: &str) -> Machine {
    let mut machine = machine_for(text);
    assert_eq!(machine.execute(), Ok(ExecOutcome::Done));
    machine
}

fn run_error(text: &str) -> VmError {
    let mut machine = machine_for(text);
    machine.execute().expect_err("the program should fail")
}

#[test]
fn missing_start_label_is_rejected_before_anything_runs() {
    let lines = parse_source("load 1\nhalt\n");
    match Source::new(lines) {
        Err(VmError::EntryPointNotFound) => {},
        other => panic!("expected a missing entry point, got {:?}", other.is_ok()),
    }
}

#[test]
fn first_start_label_wins() {
    let machine = run("#start\nload 1\nhalt\n#start\nload 2\nhalt\n");
    assert_eq!(stack_of(&machine), vec![1]);
}

#[test]
fn lines_before_start_never_run() {
    let machine = run("load 9\n#start\nload 1\nhalt\n");
    assert_eq!(stack_of(&machine), vec![1]);
}

#[test]
fn program_ends_when_the_cursor_runs_off_the_end() {
    let machine = run("#start\nload 5\n");
    assert_eq!(stack_of(&machine), vec![5]);
}

#[test]
fn cmp_on_equal_values_leaves_value_and_equal_flag() {
    let mut machine = machine_for("#start\nhalt\n#l\nhalt\n");
    machine.stack.push(5);
    machine.stack.push(5);
    let line = vec!["cmp".to_string()];
    assert_eq!(machine.execute_(&line), Ok(None));
    assert_eq!(stack_of(&machine), vec![5, 0]);
}

#[test]
fn jeq_on_equal_flag_moves_the_cursor_after_the_label() {
    let mut machine = machine_for("#start\nhalt\n#l\nhalt\n");
    machine.stack.push(5);
    machine.stack.push(5);
    assert_eq!(machine.execute_(&vec!["cmp".to_string()]), Ok(None));
    let jump = vec!["jeq".to_string(), "#l".to_string()];
    assert_eq!(machine.execute_(&jump), Ok(None));
    // The label "#l" stands on line index 2; the next fetch resumes at
    // the line after it.
    assert_eq!(machine.source.ip(), 2);
}

#[test]
fn cmp_flags_follow_the_value_left_on_the_stack() {
    // Stack [10, 3]: cmp pops 3, leaves 10, and 10 > 3 is GREATER.
    let machine = run("#start\nload 10\nload 3\ncmp\nhalt\n");
    assert_eq!(stack_of(&machine), vec![10, 1]);

    // Stack [3, 10]: cmp pops 10, leaves 3, and 3 < 10 is LESS.
    let machine = run("#start\nload 3\nload 10\ncmp\nhalt\n");
    assert_eq!(stack_of(&machine), vec![3, 2]);
}

#[test]
fn conditional_jumps_peek_and_leave_the_flag() {
    let machine = run("#start\nload 1\nload 2\ncmp\njne #t\nload 77\nhalt\n#t\nload 9\nhalt\n");
    // 1 < 2 leaves LESS; jne takes the jump, the flag stays, 9 loads.
    assert_eq!(stack_of(&machine), vec![1, 2, 9]);
}

#[test]
fn jgr_and_jle_follow_the_flag() {
    let machine = run("#start\nload 9\nload 2\ncmp\njgr #t\nhalt\n#t\nload 1\nhalt\n");
    assert_eq!(stack_of(&machine), vec![9, 1, 1]);

    let machine = run("#start\nload 2\nload 9\ncmp\njle #t\nhalt\n#t\nload 4\nhalt\n");
    assert_eq!(stack_of(&machine), vec![2, 2, 4]);
}

#[test]
fn jump_to_unknown_label_is_a_no_op() {
    let machine = run("#start\njmp #nowhere\nload 7\nhalt\n");
    assert_eq!(stack_of(&machine), vec![7]);
}

#[test]
fn jump_lands_on_the_last_matching_label() {
    let machine = run("#start\njmp #l\n#l\nload 1\nhalt\n#l\nload 2\nhalt\n");
    assert_eq!(stack_of(&machine), vec![2]);
}

#[test]
fn load_string_pushes_characters_in_order() {
    let machine = run("#start\nload \"AB\"\nhalt\n");
    assert_eq!(stack_of(&machine), vec![65, 66]);
    assert_eq!(machine.stack.top(), Ok(66));
}

#[test]
fn load_string_with_embedded_space() {
    let machine = run("#start\nload \"a b\"\nhalt\n");
    assert_eq!(stack_of(&machine), vec![97, 32, 98]);
}

#[test]
fn load_number_pushes_one_byte() {
    let machine = run("#start\nload 0\nload 255\nhalt\n");
    assert_eq!(stack_of(&machine), vec![0, 255]);
}

#[test]
fn load_number_too_large_for_a_byte_fails() {
    assert_eq!(run_error("#start\nload 256\nhalt\n"), VmError::InvalidInteger);
    assert_eq!(run_error("#start\nload 99999999999999999999\nhalt\n"), VmError::InvalidInteger);
}

#[test]
fn load_with_malformed_argument_does_nothing() {
    let machine = run("#start\nload abc\nload \"x\nhalt\n");
    assert_eq!(stack_of(&machine), Vec::<u8>::new());
}

#[test]
fn put_number_prints_decimal_and_leaves_the_value() {
    let mut machine = machine_for("#start\nload 200\nload 0\nput\nhalt\n");
    assert_eq!(machine.execute(), Ok(ExecOutcome::Done));
    assert_eq!(machine.output, b"200".to_vec());
    assert_eq!(stack_of(&machine), vec![200]);
}

#[test]
fn put_number_renders_every_width() {
    let machine = run("#start\nload 0\nload 0\nput\nhalt\n");
    assert_eq!(machine.output, b"0".to_vec());

    let machine = run("#start\nload 45\nload 0\nput\nhalt\n");
    assert_eq!(machine.output, b"45".to_vec());
}

#[test]
fn put_char_prints_the_byte_itself() {
    let machine = run("#start\nload 72\nload 1\nput\nhalt\n");
    assert_eq!(machine.output, b"H".to_vec());
    assert_eq!(stack_of(&machine), vec![72]);
}

#[test]
fn put_bits_prints_eight_binary_digits() {
    let machine = run("#start\nload 5\nload 2\nput\nhalt\n");
    assert_eq!(machine.output, b"00000101".to_vec());

    let machine = run("#start\nload 255\nload 2\nput\nhalt\n");
    assert_eq!(machine.output, b"11111111".to_vec());
}

#[test]
fn put_with_unknown_format_flag_fails() {
    assert_eq!(run_error("#start\nload 5\nload 9\nput\nhalt\n"), VmError::InvalidFormatFlag);
}

#[test]
fn arithmetic_instructions_compute() {
    assert_eq!(stack_of(&run("#start\nload 2\nload 3\nadd\nhalt\n")), vec![5]);
    assert_eq!(stack_of(&run("#start\nload 9\nload 3\nsub\nhalt\n")), vec![6]);
    assert_eq!(stack_of(&run("#start\nload 6\nload 7\nmul\nhalt\n")), vec![42]);
    assert_eq!(stack_of(&run("#start\nload 17\nload 5\ndiv\nhalt\n")), vec![3]);
}

#[test]
fn bitwise_instructions_compute() {
    assert_eq!(stack_of(&run("#start\nload 12\nload 10\nand\nhalt\n")), vec![8]);
    assert_eq!(stack_of(&run("#start\nload 12\nload 10\nor\nhalt\n")), vec![14]);
    assert_eq!(stack_of(&run("#start\nload 12\nload 10\nxor\nhalt\n")), vec![6]);
    assert_eq!(stack_of(&run("#start\nload 5\nnot\nhalt\n")), vec![250]);
}

#[test]
fn copy_and_drop_work_on_the_top() {
    assert_eq!(stack_of(&run("#start\nload 4\ncopy\nhalt\n")), vec![4, 4]);
    assert_eq!(stack_of(&run("#start\nload 4\nload 5\ndrop\nhalt\n")), vec![4]);
}

#[test]
fn division_by_zero_is_fatal() {
    assert_eq!(run_error("#start\nload 10\nload 0\ndiv\nhalt\n"), VmError::DivisionByZero);
}

#[test]
fn arithmetic_leaving_the_byte_domain_is_fatal() {
    assert_eq!(run_error("#start\nload 200\nload 200\nadd\nhalt\n"), VmError::Overflow);
    assert_eq!(run_error("#start\nload 1\nload 2\nsub\nhalt\n"), VmError::Overflow);
    assert_eq!(run_error("#start\nload 100\nload 100\nmul\nhalt\n"), VmError::Overflow);
}

#[test]
fn popping_an_empty_stack_is_fatal() {
    assert_eq!(run_error("#start\nadd\nhalt\n"), VmError::EmptyStack);
    assert_eq!(run_error("#start\ndrop\nhalt\n"), VmError::EmptyStack);
    assert_eq!(run_error("#start\nload 1\nput\nhalt\n"), VmError::EmptyStack);
}

#[test]
fn unknown_instructions_are_fatal() {
    assert_eq!(run_error("#start\nfoo\nhalt\n"), VmError::InvalidInstruction);
    assert_eq!(run_error("#start\nfoo bar\nhalt\n"), VmError::InvalidInstruction);
}

#[test]
fn too_many_tokens_on_a_line_is_fatal() {
    assert_eq!(run_error("#start\nload 1 2\nhalt\n"), VmError::InvalidArity);
}

#[test]
fn comment_only_line_has_no_tokens_and_is_fatal_to_execute() {
    assert_eq!(run_error("#start\n; just a note\nhalt\n"), VmError::InvalidArity);
}

#[test]
fn read_char_suspends_and_resumes() {
    let mut machine = machine_for("#start\nload 0\nread\nhalt\n");
    assert_eq!(machine.execute(), Ok(ExecOutcome::Need(ReadMode::Char)));
    machine.provide_char(65);
    assert_eq!(machine.execute(), Ok(ExecOutcome::Done));
    assert_eq!(stack_of(&machine), vec![65]);
}

#[test]
fn read_line_pushes_characters_reversed_so_the_first_is_on_top() {
    let mut machine = machine_for("#start\nload 1\nread\nhalt\n");
    assert_eq!(machine.execute(), Ok(ExecOutcome::Need(ReadMode::Str)));
    machine.provide_line("ab\n");
    assert_eq!(machine.execute(), Ok(ExecOutcome::Done));
    assert_eq!(stack_of(&machine), vec![10, 98, 97]);
    assert_eq!(machine.stack.top(), Ok(97));
}

#[test]
fn read_with_unknown_mode_flag_is_fatal() {
    assert_eq!(run_error("#start\nload 7\nread\nhalt\n"), VmError::InvalidReadFlag);
}

#[test]
fn halt_stops_before_later_lines_run() {
    let machine = run("#start\nload 1\nhalt\nload 2\nhalt\n");
    assert_eq!(stack_of(&machine), vec![1]);
    assert!(machine.halt);
}

#[test]
fn source_reports_the_current_line_for_diagnostics() {
    let lines = parse_source("#start\nload 1 2\nhalt\n");
    let source = Source::new(lines).unwrap();
    let mut machine = Machine::new(Stack::new(), source);
    assert_eq!(machine.execute(), Err(VmError::InvalidArity));
    assert!(machine.source.ip() < machine.source.len());
    let (at, text) = machine.source.at();
    assert_eq!(at, 2);
    assert_eq!(text, "load 1 2".to_string());
}

#[test]
fn cursor_moves_stay_within_the_program() {
    let lines = parse_source("#start\nload 1\nhalt\n");
    let mut source = Source::new(lines).unwrap();
    assert_eq!(source.ip(), 0);
    assert_eq!(source.len(), 3);
    source.mut_ip(2);
    assert_eq!(source.ip(), 2);
    // A value past one-past-the-end is ignored.
    source.mut_ip(9);
    assert_eq!(source.ip(), 2);
    source.mut_ip(3);
    assert_eq!(source.ip(), 3);
}

#[test]
fn whole_program_prints_its_text_and_stops() {
    // A sentinel of zero under the text; each pass prints the top
    // character, drops it, and loops until the sentinel surfaces.
    let text = "#start\n\
                load 0\n\
                load \"iH\"\n\
                #loop\n\
                load 1\n\
                put\n\
                drop\n\
                load 0\n\
                cmp\n\
                jeq #end\n\
                drop\n\
                jmp #loop\n\
                #end\n\
                halt\n";
    let mut machine = machine_for(text);
    assert_eq!(machine.execute(), Ok(ExecOutcome::Done));
    assert_eq!(machine.output, b"Hi".to_vec());
}
