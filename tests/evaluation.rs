use interpreter::parser::{ParseError, Parser};
use interpreter::tokenizer::{LexError, Token};

fn run(source: &str) -> Result<Vec<i32>, ParseError> {
    let mut parser = Parser::new(source.to_string());
    parser.parse_computation()
}

#[test]
fn literal_arithmetic() {
    assert_eq!(run("computation 2 + 1 * ((2 + 3) * 4).").unwrap(), vec![22]);
}

#[test]
fn declarations_then_statements() {
    let r = run("computation var i <- 2 * 3; var abracadabra <- 7; (((abracadabra * i))); i - 5 - 1.");
    assert_eq!(r.unwrap(), vec![42, 0]);
}

#[test]
fn divide_by_zero_is_an_error() {
    match run("computation 4 / 0.") {
        Err(ParseError::DivideByZero { pos }) => assert_eq!(pos, 14),
        other => panic!("unexpected outcome {:?}", other),
    }
}

#[test]
fn undefined_variable_is_named() {
    match run("computation x + 1.") {
        Err(ParseError::UndefinedVariable { pos, name }) => {
            assert_eq!(pos, 12);
            assert_eq!(name, "x");
        },
        other => panic!("unexpected outcome {:?}", other),
    }
}

#[test]
fn lone_less_than_is_a_lexical_error() {
    match run("computation var i < 2;") {
        Err(ParseError::Lexical(e)) => {
            assert_eq!(e, LexError::UnexpectedCharacter { pos: 18, found: b'<' })
        },
        other => panic!("unexpected outcome {:?}", other),
    }
}

#[test]
fn single_declaration_then_reference() {
    assert_eq!(run("computation var i <- 1; i + 1.").unwrap(), vec![2]);
}

#[test]
fn subtraction_is_left_associative() {
    assert_eq!(run("computation 10 - 4 - 3.").unwrap(), vec![3]);
    assert_eq!(run("computation 100 / 10 / 5.").unwrap(), vec![2]);
}

#[test]
fn multiplication_binds_tighter() {
    assert_eq!(run("computation 2 * 3 + 4 * 5; 2 + 3 * 4 - 6 / 2.").unwrap(), vec![26, 11]);
}

#[test]
fn division_truncates_toward_zero() {
    assert_eq!(run("computation var m <- 0 - 7; m / 2; 7 / 2; m / (0 - 2).").unwrap(), vec![-3, 3, 3]);
}

#[test]
fn redeclaration_overwrites() {
    assert_eq!(run("computation var a <- 1; var a <- a + 5; a.").unwrap(), vec![6]);
}

#[test]
fn trailing_semicolon_and_empty_program() {
    assert_eq!(run("computation 1; 2;.").unwrap(), vec![1, 2]);
    assert_eq!(run("computation .").unwrap(), Vec::<i32>::new());
}

#[test]
fn whitespace_and_newlines_are_ignored() {
    assert_eq!(run("\n computation\tvar x<-3;\n x*x .").unwrap(), vec![9]);
}

#[test]
fn largest_literal_and_overflow() {
    assert_eq!(run("computation 2147483647.").unwrap(), vec![2147483647]);
    match run("computation 2147483648.") {
        Err(ParseError::Lexical(e)) => assert_eq!(e, LexError::NumberOutOfRange { pos: 12 }),
        other => panic!("unexpected outcome {:?}", other),
    }
    match run("computation 2147483647 + 1.") {
        Err(ParseError::Overflow { pos }) => assert_eq!(pos, 23),
        other => panic!("unexpected outcome {:?}", other),
    }
    match run("computation var m <- 0 - 2147483647 - 1; m / (0 - 1).") {
        Err(ParseError::Overflow { pos }) => assert_eq!(pos, 43),
        other => panic!("unexpected outcome {:?}", other),
    }
}

#[test]
fn missing_close_paren() {
    match run("computation (1 + 2.") {
        Err(ParseError::ExpectedToken { pos, expected, found }) => {
            assert_eq!(pos, 18);
            assert_eq!(expected, Token::CloseParen);
            assert_eq!(found, Token::EOF);
        },
        other => panic!("unexpected outcome {:?}", other),
    }
}

#[test]
fn missing_keyword() {
    match run("var i <- 1; i.") {
        Err(ParseError::ExpectedToken { pos, expected, found }) => {
            assert_eq!(pos, 0);
            assert_eq!(expected, Token::Computation);
            assert_eq!(found, Token::Variable);
        },
        other => panic!("unexpected outcome {:?}", other),
    }
}

#[test]
fn declaration_without_identifier() {
    match run("computation var 5 <- 1; 1.") {
        Err(ParseError::ExpectedIdentifier { pos }) => assert_eq!(pos, 16),
        other => panic!("unexpected outcome {:?}", other),
    }
}

#[test]
fn unexpected_factor_and_statement_end() {
    match run("computation 1 + ;.") {
        Err(ParseError::UnexpectedFactor { pos, found }) => {
            assert_eq!(pos, 16);
            assert_eq!(found, Token::Semicolon);
        },
        other => panic!("unexpected outcome {:?}", other),
    }
    match run("computation 1 2.") {
        Err(ParseError::UnexpectedEndOfStatement { pos, found }) => {
            assert_eq!(pos, 14);
            assert_eq!(found, Token::Number(2));
        },
        other => panic!("unexpected outcome {:?}", other),
    }
}

#[test]
fn missing_terminator() {
    match run("computation 1 + 2") {
        Err(ParseError::Lexical(e)) => assert_eq!(e, LexError::UnexpectedEnd { pos: 17 }),
        other => panic!("unexpected outcome {:?}", other),
    }
}

#[test]
fn stray_character() {
    match run("computation 1 # 2.") {
        Err(ParseError::Lexical(e)) => {
            assert_eq!(e, LexError::UnexpectedCharacter { pos: 14, found: b'#' })
        },
        other => panic!("unexpected outcome {:?}", other),
    }
}

#[test]
fn errors_name_the_token_found() {
    match run("1 + 1.") {
        Err(ParseError::ExpectedToken { pos, expected, found }) => {
            assert_eq!(pos, 0);
            assert_eq!(expected, Token::Computation);
            assert_eq!(found, Token::Number(1));
        },
        other => panic!("unexpected outcome {:?}", other),
    }
    match run("computation (1 + 2;") {
        Err(ParseError::ExpectedToken { pos, expected, found }) => {
            assert_eq!(pos, 18);
            assert_eq!(expected, Token::CloseParen);
            assert_eq!(found, Token::Semicolon);
        },
        other => panic!("unexpected outcome {:?}", other),
    }
    match run("computation var x 1;") {
        Err(ParseError::ExpectedToken { pos, expected, found }) => {
            assert_eq!(pos, 18);
            assert_eq!(expected, Token::Assignment);
            assert_eq!(found, Token::Number(1));
        },
        other => panic!("unexpected outcome {:?}", other),
    }
    match run("computation var x <- 1 .") {
        Err(ParseError::ExpectedToken { pos, expected, found }) => {
            assert_eq!(pos, 23);
            assert_eq!(expected, Token::Semicolon);
            assert_eq!(found, Token::EOF);
        },
        other => panic!("unexpected outcome {:?}", other),
    }
    match run("computation - 5.") {
        Err(ParseError::UnexpectedFactor { pos, found }) => {
            assert_eq!(pos, 12);
            assert_eq!(found, Token::Minus);
        },
        other => panic!("unexpected outcome {:?}", other),
    }
    match run("computation 1 ).") {
        Err(ParseError::UnexpectedEndOfStatement { pos, found }) => {
            assert_eq!(pos, 14);
            assert_eq!(found, Token::CloseParen);
        },
        other => panic!("unexpected outcome {:?}", other),
    }
}

#[test]
fn cursor_stops_on_the_terminator() {
    let mut parser = Parser::new("computation 1; 2 * 3; (4)  .".to_string());
    assert_eq!(parser.parse_computation().unwrap(), vec![1, 6, 4]);
    match parser.parse_computation() {
        Err(ParseError::ExpectedToken { pos, expected, found }) => {
            assert_eq!(pos, 27);
            assert_eq!(expected, Token::Computation);
            assert_eq!(found, Token::EOF);
        },
        other => panic!("unexpected outcome {:?}", other),
    }
}

#[test]
fn three_operand_precedence_and_association() {
    assert_eq!(run("computation 7 - 2 * 3.").unwrap(), vec![1]);
    assert_eq!(run("computation 7 - (2 * 3).").unwrap(), vec![1]);
    assert_eq!(run("computation (7 - 2) * 3.").unwrap(), vec![15]);
    assert_eq!(run("computation 9 + 8 / 3.").unwrap(), vec![11]);
    assert_eq!(run("computation 8 / 2 / 2.").unwrap(), vec![2]);
    assert_eq!(run("computation 8 / (2 / 2).").unwrap(), vec![8]);
    assert_eq!(run("computation 5 - 3 + 1.").unwrap(), vec![3]);
}
