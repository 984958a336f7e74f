use interpreter::tokenizer::{LexError, Token, Tokenizer};

#[test]
fn scans_every_kind_of_token() {
    let mut t = Tokenizer::new("computation var x_1 <- 42 + - * / ; ( ) .".to_string());
    let expected = vec![
        Token::Computation,
        Token::Variable,
        Token::Identifier("x_1".to_string()),
        Token::Assignment,
        Token::Number(42),
        Token::Plus,
        Token::Minus,
        Token::Times,
        Token::Divide,
        Token::Semicolon,
        Token::OpenParen,
        Token::CloseParen,
        Token::EOF,
    ];
    for e in expected {
        assert_eq!(t.next_token().unwrap(), e);
    }
}

#[test]
fn peeking_does_not_move_the_cursor() {
    let mut t = Tokenizer::new("  abc + 1.".to_string());
    for _ in 0..5 {
        assert_eq!(t.peek_token().unwrap(), Token::Identifier("abc".to_string()));
        assert_eq!(t.cursor(), 0);
    }
    assert_eq!(t.next_token().unwrap(), Token::Identifier("abc".to_string()));
    assert_eq!(t.cursor(), 5);
    assert_eq!(t.peek_token().unwrap(), Token::Plus);
    assert_eq!(t.next_token().unwrap(), Token::Plus);
}

#[test]
fn end_of_input_repeats() {
    let mut t = Tokenizer::new("1 .".to_string());
    assert_eq!(t.next_token().unwrap(), Token::Number(1));
    for _ in 0..3 {
        assert_eq!(t.next_token().unwrap(), Token::EOF);
        assert_eq!(t.peek_token().unwrap(), Token::EOF);
        assert_eq!(t.cursor(), 2);
    }
}

#[test]
fn keywords_need_the_whole_word() {
    let mut t = Tokenizer::new("variable computations var.".to_string());
    assert_eq!(t.next_token().unwrap(), Token::Identifier("variable".to_string()));
    assert_eq!(t.next_token().unwrap(), Token::Identifier("computations".to_string()));
    assert_eq!(t.next_token().unwrap(), Token::Variable);
}

#[test]
fn sentinel_past_the_end() {
    let mut t = Tokenizer::new("ab".to_string());
    assert_eq!(t.peek_char(), 'a');
    assert_eq!(t.next_token().unwrap(), Token::Identifier("ab".to_string()));
    assert_eq!(t.peek_char(), '\0');
    assert_eq!(t.next_token(), Err(LexError::UnexpectedEnd { pos: 2 }));
}

#[test]
fn whitespace_is_skipped() {
    let mut t = Tokenizer::new(" \t\n 7".to_string());
    assert_eq!(t.token_start(), 4);
    t.consume_whitespace();
    assert_eq!(t.cursor(), 4);
    assert_eq!(t.next_token().unwrap(), Token::Number(7));
}

#[test]
fn number_digits_in_order() {
    let mut t = Tokenizer::new("1203 007.".to_string());
    assert_eq!(t.next_token().unwrap(), Token::Number(1203));
    assert_eq!(t.next_token().unwrap(), Token::Number(7));
}
