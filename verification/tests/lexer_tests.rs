use minimake::error::MakeError;
use minimake::lexer::{Lexer, Token};

fn tokens_of(text: &str) -> Vec<Token> {
    let mut lexer = Lexer::new(String::from(text));
    let mut out = Vec::new();
    loop {
        match lexer.next() {
            Ok(Some(t)) => out.push(t),
            Ok(None) => break,
            Err(e) => panic!("unexpected lexical error: {:?}", e),
        }
    }
    out
}

#[test]
fn config_variable_token() {
    assert_eq!(tokens_of(".PHONY"), vec![Token::ConfigVariable(String::from("PHONY"))]);
}

#[test]
fn user_variable_token() {
    assert_eq!(tokens_of("$(CC)"), vec![Token::UserVariable(String::from("CC"))]);
}

#[test]
fn single_character_tokens() {
    assert_eq!(
        tokens_of(":;\t\n"),
        vec![Token::Colon, Token::SemiColon, Token::Tab, Token::NewLine]
    );
}

#[test]
fn identifier_runs_to_whitespace() {
    assert_eq!(
        tokens_of("all: foo.o"),
        vec![
            Token::Identifier(String::from("all")),
            Token::Colon,
            Token::Identifier(String::from("foo.o")),
        ]
    );
}

#[test]
fn spaces_are_skipped() {
    assert_eq!(
        tokens_of("  a   b "),
        vec![Token::Identifier(String::from("a")), Token::Identifier(String::from("b"))]
    );
}

#[test]
fn bare_dollar_is_a_lex_error() {
    let mut lexer = Lexer::new(String::from("$x"));
    match lexer.next() {
        Err(MakeError::Lex { pos }) => assert_eq!(pos, 0),
        other => panic!("expected a lexical error, got {:?}", other),
    }
}

#[test]
fn next_command_splits_on_single_spaces() {
    let mut lexer = Lexer::new(String::from("gcc -c foo.o\nrest"));
    let c = lexer.next_command();
    assert_eq!(c.command, "gcc");
    assert_eq!(c.args, vec![String::from("-c"), String::from("foo.o")]);
    // the newline is left unconsumed
    assert_eq!(lexer.next(), Ok(Some(Token::NewLine)));
}

#[test]
fn next_command_without_args() {
    let mut lexer = Lexer::new(String::from("make\n"));
    let c = lexer.next_command();
    assert_eq!(c.command, "make");
    assert!(c.args.is_empty());
}

#[test]
fn next_command_at_end_of_input() {
    let mut lexer = Lexer::new(String::from("touch foo.o"));
    let c = lexer.next_command();
    assert_eq!(c.command, "touch");
    assert_eq!(c.args, vec![String::from("foo.o")]);
    assert!(lexer.is_empty());
}

#[test]
fn is_empty_reports_exhaustion() {
    let mut lexer = Lexer::new(String::from("a"));
    assert!(!lexer.is_empty());
    let _ = lexer.next();
    assert!(lexer.is_empty());
}
