use tapegen::brainfuck::{decimal_text, to_bf, RunError};
use tapegen::interpreter::{Interpreter, Step};
use tapegen::text::{chars_of, message3, owned, string_of};

#[test]
fn interpreter_starts_with_one_zero_cell() {
    let machine = Interpreter::new("+");
    assert_eq!(machine.memory(), &vec![0u8]);
    assert_eq!(machine.memory_ptr(), 0);
    assert_eq!(machine.instruction_ptr(), 0);
    assert_eq!(machine.instructions(), &vec!['+']);
    assert_eq!(machine.output(), "");
}

#[test]
fn step_halts_at_the_end() {
    let mut machine = Interpreter::new("");
    assert_eq!(machine.step(None), Step::Halted);
    assert_eq!(machine.step(Some(1)), Step::Halted);
}

#[test]
fn arithmetic_wraps() {
    let mut machine = Interpreter::new("-++");
    assert_eq!(machine.step(None), Step::Ran);
    assert_eq!(machine.memory(), &vec![255u8]);
    assert_eq!(machine.step(None), Step::Ran);
    assert_eq!(machine.memory(), &vec![0u8]);
    assert_eq!(machine.step(None), Step::Ran);
    assert_eq!(machine.memory(), &vec![1u8]);
    assert_eq!(machine.step(None), Step::Halted);
}

#[test]
fn tape_grows_to_the_right() {
    let mut machine = Interpreter::new(">><>");
    for _ in 0..4 {
        assert_eq!(machine.step(None), Step::Ran);
    }
    assert_eq!(machine.memory(), &vec![0u8, 0, 0]);
    assert_eq!(machine.memory_ptr(), 2);
}

#[test]
fn moving_left_of_the_first_cell_is_stuck() {
    let mut machine = Interpreter::new("<+");
    assert_eq!(machine.step(None), Step::Stuck);
    assert_eq!(machine.instruction_ptr(), 0);
}

#[test]
fn read_waits_for_a_byte() {
    let mut machine = Interpreter::new(",.");
    assert_eq!(machine.step(None), Step::NeedsInput);
    assert_eq!(machine.instruction_ptr(), 0);
    assert_eq!(machine.step(Some(65)), Step::Ran);
    assert_eq!(machine.memory(), &vec![65u8]);
    assert_eq!(machine.step(None), Step::Ran);
    assert_eq!(machine.output(), "A");
}

#[test]
fn loop_on_zero_jumps_behind_its_partner() {
    let mut machine = Interpreter::new("[+[-]+]>");
    assert_eq!(machine.step(None), Step::Ran);
    assert_eq!(machine.instruction_ptr(), 7);
    assert_eq!(machine.memory(), &vec![0u8]);
}

#[test]
fn loop_runs_until_zero() {
    let mut machine = Interpreter::new("+++[->++<]>.");
    let mut steps = 0;
    while machine.step(None) == Step::Ran {
        steps += 1;
    }
    assert_eq!(machine.memory(), &vec![0u8, 6]);
    assert_eq!(machine.output(), "\u{6}");
    assert_eq!(steps, 3 + 1 + 3 * 6 + 2);
}

#[test]
fn brackets_without_partner_are_stuck() {
    let mut machine = Interpreter::new("[+");
    assert_eq!(machine.step(None), Step::Stuck);
    let mut machine = Interpreter::new("+]");
    assert_eq!(machine.step(None), Step::Ran);
    assert_eq!(machine.step(None), Step::Stuck);
    let mut machine = Interpreter::new("]+");
    assert_eq!(machine.step(None), Step::Ran);
    assert_eq!(machine.step(None), Step::Ran);
    assert_eq!(machine.memory(), &vec![1u8]);
}

#[test]
fn other_characters_are_skipped() {
    let mut machine = Interpreter::new("a+ b");
    let mut steps = 0;
    while machine.step(None) == Step::Ran {
        steps += 1;
    }
    assert_eq!(steps, 4);
    assert_eq!(machine.memory(), &vec![1u8]);
}

#[test]
fn host_program_of_a_small_program() {
    let expected = "use std::io::Read;\n\
use std::io::Write;\n\
\n\
fn main() {\n\
\x20   let mut sp = 0;\n\
\x20   let mut stack = vec![0u8; 30000];\n\
\x20   stack[sp] = stack[sp].wrapping_add(1);\n\
\x20   while stack[sp] != 0 {\n\
\x20       stack[sp] = stack[sp].wrapping_sub(1);\n\
\x20       sp += 1;\n\
\x20       stack[sp] = std::io::stdin().bytes().next().unwrap().unwrap();\n\
\x20       print!(\"{}\", stack[sp] as char); std::io::stdout().flush().unwrap();\n\
\x20       sp -= 1;\n\
\x20   }\n\
}\n";
    assert_eq!(to_bf("+[->,.<]").unwrap(), expected);
}

#[test]
fn host_program_keeps_indentation_before_blanks() {
    let out = to_bf("+ \n+").unwrap();
    assert!(out.ends_with(
        "    stack[sp] = stack[sp].wrapping_add(1);\n            stack[sp] = stack[sp].wrapping_add(1);\n}\n"
    ));
}

#[test]
fn host_program_rejects_other_characters() {
    match to_bf("+a") {
        Err(RunError::InvalidChar(1, 'a')) => {}
        other => panic!("{:?}", other),
    }
    match to_bf("+\r") {
        Err(RunError::InvalidChar(1, '\r')) => {}
        other => panic!("{:?}", other),
    }
}

#[test]
fn host_program_rejects_a_second_stray_bracket() {
    assert!(to_bf("]").unwrap().ends_with("vec![0u8; 30000];\n}\n}\n"));
    match to_bf("+]]") {
        Err(RunError::InvalidChar(2, ']')) => {}
        other => panic!("{:?}", other),
    }
}

#[test]
fn run_errors_in_words() {
    assert_eq!(RunError::CouldNotCompile.message(), "Could not compile the generated Rust code");
    assert_eq!(RunError::PermissionDenied.message(), "Permission denied");
    assert_eq!(RunError::Runtime("boom".to_string()).message(), "Runtime error: boom");
    assert_eq!(RunError::InvalidPath("x.b".to_string()).message(), "Invalid path: x.b");
    assert_eq!(RunError::InvalidChar(1203, '?').message(), "Invalid character at index 1203: ?");
}

#[test]
fn decimal_text_of_numbers() {
    assert_eq!(decimal_text(0), "0");
    assert_eq!(decimal_text(9), "9");
    assert_eq!(decimal_text(10), "10");
    assert_eq!(decimal_text(4096), "4096");
    assert_eq!(decimal_text(usize::MAX), usize::MAX.to_string());
}

#[test]
fn text_helpers() {
    assert_eq!(chars_of("a\u{e9}"), vec!['a', '\u{e9}']);
    assert_eq!(string_of(&vec!['h', 'i']), "hi");
    assert_eq!(string_of(&vec![]), "");
    assert_eq!(owned("x"), "x");
    assert_eq!(message3("a", "", "c"), "ac");
}

#[test]
fn picture_marks_the_selected_cell_and_the_next_instruction() {
    let mut machine = Interpreter::new("+>");
    assert_eq!(machine.render(), "Memory:\n[00]\n\nInstructions:\nv\n+>\n\nOutput:\n");
    machine.step(None);
    assert_eq!(machine.render(), "Memory:\n[01]\n\nInstructions:\n v\n+>\n\nOutput:\n");
    machine.step(None);
    assert_eq!(machine.render(), "Memory:\n 01[00]\n\nInstructions:\n  v\n+>\n\nOutput:\n");
}

#[test]
fn picture_breaks_lines() {
    let code = ">".repeat(19) + "<" + &"+".repeat(130) + ".";
    let mut machine = Interpreter::new(&code);
    while machine.step(None) == Step::Ran {}
    let expected = "Memory:\n".to_string()
        + &" 00".repeat(18)
        + "\n[82]00"
        + "\n\nInstructions:\n"
        + &code[0..148]
        + "\n   v\n"
        + &code[148..]
        + "\n\nOutput:\n\u{82}";
    assert_eq!(machine.render(), expected);
}
