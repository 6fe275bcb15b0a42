use minimake::error::MakeError;
use minimake::parser::{Parser, Statement};

#[test]
fn two_rule_makefile_parses_exactly() {
    let mut parser = Parser::new(String::from("all: foo.o\n\tgcc -c foo.o\n\nfoo.o:\n\ttouch foo.o\n"));
    let program = parser.parse().expect("this makefile parses");
    assert_eq!(program.statements.len(), 2);
    match &program.statements[0] {
        Statement::RuleStmt(r) => {
            assert_eq!(r.target, "all");
            assert_eq!(r.prerequisite, vec![String::from("foo.o")]);
            assert_eq!(r.commands.len(), 1);
            assert_eq!(r.commands[0].command, "gcc");
            assert_eq!(r.commands[0].args, vec![String::from("-c"), String::from("foo.o")]);
        },
        other => panic!("expected a rule, got {:?}", other),
    }
    match &program.statements[1] {
        Statement::RuleStmt(r) => {
            assert_eq!(r.target, "foo.o");
            assert!(r.prerequisite.is_empty());
            assert_eq!(r.commands.len(), 1);
            assert_eq!(r.commands[0].command, "touch");
            assert_eq!(r.commands[0].args, vec![String::from("foo.o")]);
        },
        other => panic!("expected a rule, got {:?}", other),
    }
}

#[test]
fn empty_input_parses_to_no_statements() {
    let mut parser = Parser::new(String::new());
    let program = parser.parse().expect("empty input parses");
    assert!(program.statements.is_empty());
}

#[test]
fn blank_lines_are_skipped() {
    let mut parser = Parser::new(String::from("\n\n\na:\n"));
    let program = parser.parse().expect("parses");
    assert_eq!(program.statements.len(), 1);
}

#[test]
fn rule_with_two_commands_keeps_both() {
    let mut parser = Parser::new(String::from("a:\n\tfirst x\n\tsecond y\n"));
    let program = parser.parse().expect("parses");
    match &program.statements[0] {
        Statement::RuleStmt(r) => {
            assert_eq!(r.commands.len(), 2);
            assert_eq!(r.commands[0].command, "first");
            assert_eq!(r.commands[1].command, "second");
        },
        other => panic!("expected a rule, got {:?}", other),
    }
}

#[test]
fn rule_without_trailing_newline_parses() {
    let mut parser = Parser::new(String::from("a: b"));
    let program = parser.parse().expect("parses");
    match &program.statements[0] {
        Statement::RuleStmt(r) => {
            assert_eq!(r.target, "a");
            assert_eq!(r.prerequisite, vec![String::from("b")]);
            assert!(r.commands.is_empty());
        },
        other => panic!("expected a rule, got {:?}", other),
    }
}

#[test]
fn recipe_ends_at_next_rule_line() {
    let mut parser = Parser::new(String::from("a:\n\tcmd one\nb:\n"));
    let program = parser.parse().expect("parses");
    assert_eq!(program.statements.len(), 2);
}

#[test]
fn identifier_without_colon_is_a_parse_error() {
    let mut parser = Parser::new(String::from("lonely\n"));
    match parser.parse() {
        Err(MakeError::Parse { .. }) => {},
        other => panic!("expected a parse error, got {:?}", other),
    }
}

#[test]
fn leading_colon_is_a_parse_error() {
    let mut parser = Parser::new(String::from(": b\n"));
    match parser.parse() {
        Err(MakeError::Parse { .. }) => {},
        other => panic!("expected a parse error, got {:?}", other),
    }
}

#[test]
fn directive_and_assignment_become_placeholders() {
    let mut parser = Parser::new(String::from(".PHONY: all\n$(CC) = gcc\na:\n"));
    let program = parser.parse().expect("parses");
    assert_eq!(program.statements.len(), 3);
    assert!(matches!(program.statements[0], Statement::DirectiveStmt(_)));
    assert!(matches!(program.statements[1], Statement::AssignStmt(_)));
    assert!(matches!(program.statements[2], Statement::RuleStmt(_)));
}

#[test]
fn lex_error_inside_rule_aborts_parse() {
    let mut parser = Parser::new(String::from("a: $x\n"));
    match parser.parse() {
        Err(MakeError::Lex { .. }) => {},
        other => panic!("expected a lexical error, got {:?}", other),
    }
}
