use hyperfc::ast::Node;
use hyperfc::compile::{compile, diagnostic, exit_code, CompileError, EXIT_FAILURE, EXIT_SUCCESS};
use hyperfc::parser::{parse, parse_bytes, ParseError};

#[test]
fn parse_empty_text() {
    assert_eq!(parse(""), Ok(vec![]));
}

#[test]
fn parse_every_operator() {
    assert_eq!(
        parse("><+-.,"),
        Ok(vec![
            Node::PointerMove { count: 1 },
            Node::PointerMove { count: -1 },
            Node::CellDelta { amount: 1 },
            Node::CellDelta { amount: -1 },
            Node::Output,
            Node::Input,
        ])
    );
}

#[test]
fn parse_does_not_coalesce() {
    assert_eq!(
        parse("++>>"),
        Ok(vec![
            Node::CellDelta { amount: 1 },
            Node::CellDelta { amount: 1 },
            Node::PointerMove { count: 1 },
            Node::PointerMove { count: 1 },
        ])
    );
}

#[test]
fn parse_skips_comments() {
    assert_eq!(
        parse("a + b\n- c é ."),
        Ok(vec![Node::CellDelta { amount: 1 }, Node::CellDelta { amount: -1 }, Node::Output])
    );
}

#[test]
fn parse_nested_loops() {
    assert_eq!(
        parse("[-[>]]+"),
        Ok(vec![
            Node::Loop {
                body: vec![
                    Node::CellDelta { amount: -1 },
                    Node::Loop { body: vec![Node::PointerMove { count: 1 }] },
                ],
            },
            Node::CellDelta { amount: 1 },
        ])
    );
}

#[test]
fn parse_empty_loop() {
    assert_eq!(parse("[]"), Ok(vec![Node::Loop { body: vec![] }]));
}

#[test]
fn parse_lone_close() {
    assert_eq!(parse("]"), Err(ParseError::UnmatchedClose { position: 0 }));
}

#[test]
fn parse_close_before_open() {
    assert_eq!(parse("]["), Err(ParseError::UnmatchedClose { position: 0 }));
}

#[test]
fn parse_extra_close() {
    assert_eq!(parse("+[]]"), Err(ParseError::UnmatchedClose { position: 3 }));
}

#[test]
fn parse_unclosed_loop() {
    assert_eq!(parse("[[]"), Err(ParseError::UnmatchedOpen { position: 0 }));
}

#[test]
fn parse_unclosed_after_closed() {
    assert_eq!(parse("[] [ +"), Err(ParseError::UnmatchedOpen { position: 3 }));
}

#[test]
fn parse_reports_first_of_several_unclosed() {
    assert_eq!(parse("+[[["), Err(ParseError::UnmatchedOpen { position: 1 }));
}

#[test]
fn parse_position_counts_bytes() {
    assert_eq!(parse("é]"), Err(ParseError::UnmatchedClose { position: 2 }));
}

#[test]
fn parse_bytes_agrees_with_parse() {
    assert_eq!(parse_bytes("+[-]".as_bytes()), parse("+[-]"));
    assert_eq!(parse_bytes(&[0xff, 43, 0x80]), Ok(vec![Node::CellDelta { amount: 1 }]));
}

#[test]
fn parse_error_messages() {
    assert_eq!(ParseError::UnmatchedClose { position: 0 }.message(), "unmatched ']' at byte 0");
    assert_eq!(ParseError::UnmatchedOpen { position: 1234 }.message(), "unmatched '[' at byte 1234");
    assert_eq!(ParseError::UnmatchedOpen { position: 7 }.position(), 7);
    assert_eq!(ParseError::UnmatchedClose { position: 9 }.position(), 9);
}

#[test]
fn compile_error_messages() {
    assert_eq!(
        CompileError::Parse(ParseError::UnmatchedClose { position: 10 }).message(),
        "unmatched ']' at byte 10"
    );
    assert_eq!(CompileError::TooManyBlocks.message(), "program has too many blocks");
}

#[test]
fn lone_close_fails_with_a_message() {
    let r = compile("]", 2, None);
    let e = r.unwrap_err();
    assert_eq!(e, CompileError::Parse(ParseError::UnmatchedClose { position: 0 }));
    let line = diagnostic("prog.hf", &e.message());
    assert_eq!(line, "prog.hf: unmatched ']' at byte 0");
    assert!(!line.is_empty());
    assert_eq!(exit_code(false), 2);
    assert_eq!(EXIT_FAILURE, 2);
}

#[test]
fn trivial_program_compiles() {
    assert!(compile("+.", 2, None).is_ok());
    assert_eq!(exit_code(true), 0);
    assert_eq!(EXIT_SUCCESS, 0);
}
