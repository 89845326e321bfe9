use bf_interpreter::command::{to_bf_commands, BfCommand};
use bf_interpreter::utils::clean;

#[test]
fn compile_empty_loop() {
    let cmds = to_bf_commands(vec!['[', ']']).unwrap();
    assert_eq!(cmds, vec![BfCommand::Loop(vec![])]);
}

#[test]
fn compile_unmatched_open_fails() {
    let err = to_bf_commands(vec!['[']).unwrap_err();
    assert_eq!(err.message(), "Unmatched bracket");
    assert_eq!(err.code, 15);
}

#[test]
fn compile_skips_unknown_characters() {
    let cmds = to_bf_commands("a+b- c>d<e.f,g".chars().collect()).unwrap();
    assert_eq!(
        cmds,
        vec![
            BfCommand::IncVal,
            BfCommand::DecVal,
            BfCommand::IncPtr,
            BfCommand::DecPtr,
            BfCommand::Print,
            BfCommand::Read,
        ]
    );
}

#[test]
fn compile_nested_loops() {
    let cmds = to_bf_commands("+[>[-]<]".chars().collect()).unwrap();
    assert_eq!(
        cmds,
        vec![
            BfCommand::IncVal,
            BfCommand::Loop(vec![
                BfCommand::IncPtr,
                BfCommand::Loop(vec![BfCommand::DecVal]),
                BfCommand::DecPtr,
            ]),
        ]
    );
}

#[test]
fn compile_skips_stray_close() {
    let cmds = to_bf_commands("]+".chars().collect()).unwrap();
    assert_eq!(cmds, vec![BfCommand::IncVal]);
}

#[test]
fn from_char_maps_symbols() {
    assert_eq!(BfCommand::from('>'), Some(BfCommand::IncPtr));
    assert_eq!(BfCommand::from('<'), Some(BfCommand::DecPtr));
    assert_eq!(BfCommand::from('+'), Some(BfCommand::IncVal));
    assert_eq!(BfCommand::from('-'), Some(BfCommand::DecVal));
    assert_eq!(BfCommand::from('.'), Some(BfCommand::Print));
    assert_eq!(BfCommand::from(','), Some(BfCommand::Read));
    assert_eq!(BfCommand::from('['), None);
    assert_eq!(BfCommand::from(']'), None);
    assert_eq!(BfCommand::from('x'), None);
}

#[test]
fn clean_keeps_only_symbols() {
    let cleaned = clean(String::from("say + hi - now [.,<>]!")).unwrap();
    assert_eq!(cleaned, "+-[.,<>]");
}

#[test]
fn clean_rejects_empty_source() {
    assert_eq!(clean(String::new()), None);
}

#[test]
fn clean_rejects_commentary_only_source() {
    assert_eq!(clean(String::from("no symbols here")), None);
}
