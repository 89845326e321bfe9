use bf_interpreter::arguments::Feature;
use bf_interpreter::cell::Cell;
use bf_interpreter::command::BfCommand;
use bf_interpreter::interpreter::Interpreter;
use bf_interpreter::io::IoPort;
use console::Term;

fn output_of(interpreter: &Interpreter) -> String {
    match &interpreter.io {
        IoPort::Buffered(b) => b.output.iter().collect(),
        IoPort::Console(_) => panic!("not a buffered machine"),
    }
}

#[test]
fn print_h_combine_repl() {
    let mut interpreter = Interpreter::new(30000, vec![], Term::stdout());

    assert_eq!(
        interpreter.run(String::from(">+++++++++[<++++ ++++>-]<.")),
        Ok(0)
    );

    println!();
}

#[test]
fn print_h_repl() {
    let mut interpreter = Interpreter::new(30000, vec![], Term::stdout());

    assert_eq!(interpreter.run(String::from(">+++++++++")), Ok(0));
    assert_eq!(interpreter.run(String::from("[<++++ ++++>-]<.")), Ok(0));

    println!();
}

#[test]
fn nested_loop_level_1_combine() {
    let mut interpreter = Interpreter::new(5, vec![], Term::stdout());

    assert_eq!(interpreter.run(String::from("++[>++[>+<-]<-]")), Ok(0));
    assert_eq!(interpreter.cells[2], Cell::new(4, &vec![]));

    println!();
}

#[test]
fn reset() {
    let mut interpreter = Interpreter::new(30000, vec![], Term::stdout());

    assert_eq!(interpreter.run(String::from(">++++")), Ok(0));

    assert_eq!(interpreter.pointer, 1);
    assert_eq!(interpreter.cells[0], Cell::new(0, &vec![]));
    assert_eq!(interpreter.cells[1], Cell::new(4, &vec![]));

    interpreter.reset();

    assert_eq!(interpreter.pointer, 0);
    assert_eq!(interpreter.cells[0], Cell::new(0, &vec![]));
    assert_eq!(interpreter.cells[1], Cell::new(0, &vec![]));
    assert_eq!(interpreter.bf_commands, Vec::<BfCommand>::new());
}

#[test]
fn nested_loop_leaves_expected_state() {
    let mut interpreter = Interpreter::buffered(2, vec![], vec![]);
    assert_eq!(interpreter.run(String::from("++[>++<-]>.")), Ok(0));
    assert_eq!(interpreter.pointer, 1);
    assert_eq!(interpreter.cells[1], Cell::Byte(4));
    assert_eq!(interpreter.cells[0], Cell::Byte(0));
    assert_eq!(output_of(&interpreter), "\u{4}");
}

#[test]
fn pointer_out_of_bounds_without_wrap() {
    let mut interpreter = Interpreter::buffered(1, vec![], vec![]);
    let err = interpreter.run(String::from(">")).unwrap_err();
    assert_eq!(err.message(), "Pointer out of bounds 1");
    assert_eq!(err.code, 11);
}

#[test]
fn pointer_wraps_when_enabled() {
    let mut interpreter = Interpreter::buffered(1, vec![Feature::ReversePointer], vec![]);
    assert_eq!(interpreter.run(String::from(">")), Ok(0));
    assert_eq!(interpreter.pointer, 0);
}

#[test]
fn pointer_wraps_backward_when_enabled() {
    let mut interpreter = Interpreter::buffered(3, vec![Feature::ReversePointer], vec![]);
    assert_eq!(interpreter.run(String::from("<")), Ok(0));
    assert_eq!(interpreter.pointer, 2);
}

#[test]
fn decrement_fresh_cell_fails_without_value_wrap() {
    let mut interpreter = Interpreter::buffered(1, vec![], vec![]);
    let err = interpreter.run(String::from("-")).unwrap_err();
    assert_eq!(err.message(), "Value out of bounds");
    assert_eq!(err.code, 12);
    assert_eq!(interpreter.cells[0], Cell::Byte(0));
}

#[test]
fn decrement_fresh_cell_wraps_when_enabled() {
    let mut interpreter = Interpreter::buffered(1, vec![Feature::NoReverseValue], vec![]);
    assert_eq!(interpreter.run(String::from("-")), Ok(0));
    assert_eq!(interpreter.cells[0], Cell::Byte(255));
}

#[test]
fn increment_at_max_fails_without_value_wrap() {
    let mut interpreter = Interpreter::buffered(1, vec![], vec![]);
    let plusses = "+".repeat(256);
    let err = interpreter.run(plusses).unwrap_err();
    assert_eq!(err.code, 12);
    assert_eq!(interpreter.cells[0], Cell::Byte(255));
}

#[test]
fn hello_world_round_trip() {
    let program = String::from(
        "++++++++[>++++[>++>+++>+++>+<<<<-]>+>+>->>+[<]<-]>>.>---.+++++++..+++.>>.<-.<.+++.------.--------.>>+.>++.",
    );
    let mut interpreter = Interpreter::buffered(30000, vec![], vec![]);
    assert_eq!(interpreter.run(program), Ok(0));
    assert_eq!(output_of(&interpreter), "Hello World!\n");

    interpreter.reset();
    assert_eq!(interpreter.pointer, 0);
    for k in 0..10 {
        assert_eq!(interpreter.cells[k], Cell::Byte(0));
    }
    assert_eq!(interpreter.bf_commands, Vec::<BfCommand>::new());
}

#[test]
fn unmatched_bracket_leaves_machine_untouched() {
    let mut interpreter = Interpreter::buffered(4, vec![], vec![]);
    assert_eq!(interpreter.run(String::from("++")), Ok(0));
    let err = interpreter.run(String::from("+[")).unwrap_err();
    assert_eq!(err.message(), "Unmatched bracket");
    assert_eq!(err.code, 15);
    assert_eq!(interpreter.cells[0], Cell::Byte(2));
    assert_eq!(interpreter.pointer, 0);
}

#[test]
fn buffered_read_echoes_and_stores() {
    let mut interpreter = Interpreter::buffered(2, vec![], vec!['a', 'b']);
    assert_eq!(interpreter.run(String::from(",.>,.")), Ok(0));
    assert_eq!(interpreter.cells[0], Cell::Byte(97));
    assert_eq!(interpreter.cells[1], Cell::Byte(98));
    assert_eq!(output_of(&interpreter), "aabb");
}

#[test]
fn buffered_read_fails_when_input_is_exhausted() {
    let mut interpreter = Interpreter::buffered(1, vec![], vec![]);
    let err = interpreter.run(String::from(",")).unwrap_err();
    assert_eq!(
        err.message(),
        "Failed to read byte from stdin: no bytes available: end of input"
    );
    assert_eq!(err.code, 13);
}

#[test]
fn wide_output_rejects_surrogate_values() {
    let mut interpreter = Interpreter::buffered(1, vec![Feature::AllowUtf8], vec![]);
    let program = "+".repeat(0xD800) + ".";
    let err = interpreter.run(program).unwrap_err();
    assert_eq!(err.message(), "Invalid utf8");
    assert_eq!(err.code, 16);
}

#[test]
fn wide_output_prints_wide_characters() {
    let mut interpreter = Interpreter::buffered(1, vec![Feature::AllowUtf8], vec![]);
    let program = "+".repeat(129408) + ".";
    assert_eq!(interpreter.run(program), Ok(0));
    assert_eq!(output_of(&interpreter), "🦀");
}
