use plcourse::lexer::LexError;
use plcourse::lexer::Lexer;
use plcourse::token::Token;
use plcourse::token::TokenType;

#[test]
fn tokenize_digit() {
    let mut lexer = Lexer::new(&"2");
    assert_eq!(lexer.next_token(), Some(Token { _type: TokenType::Number, value: "2".to_string() }));
}

#[test]
fn tokenize_assign() {
    let mut lexer = Lexer::new(&":=");
    assert_eq!(lexer.next_token(), Some(Token { _type: TokenType::Assign, value: ":=".to_string() }));
}

#[test]
fn tokenize_begin() {
    let mut lexer = Lexer::new(&"BEGIN");
    assert_eq!(lexer.next_token(), Some(Token { _type: TokenType::Begin, value: "BEGIN".to_string() }));
}

#[test]
fn tokenize_end() {
    let mut lexer = Lexer::new(&"END.");
    assert_eq!(lexer.next_token(), Some(Token { _type: TokenType::End, value: "END.".to_string() }));
}

#[test]
fn tokenize_id() {
    let mut lexer = Lexer::new(&"x");
    assert_eq!(lexer.next_token(), Some(Token { _type: TokenType::ID, value: "x".to_string() }));
}

#[test]
fn tokenize_number() {
    let mut lexer = Lexer::new(&"123");
    assert_eq!(lexer.next_token(), Some(Token { _type: TokenType::Number, value: "123".to_string() }));
}

#[test]
fn tokenize_lparen() {
    let mut lexer = Lexer::new(&"(");
    assert_eq!(lexer.next_token(), Some(Token { _type: TokenType::LParen, value: "(".to_string() }));
}

#[test]
fn tokenize_rparen() {
    let mut lexer = Lexer::new(&")");
    assert_eq!(lexer.next_token(), Some(Token { _type: TokenType::RParen, value: ")".to_string() }));
}

#[test]
fn tokenize_operators() {
    let code = &"*/+-";
    let mut lexer = Lexer::new(code);
    for ch in code.chars() {
        assert_eq!(lexer.next_token(), Some(Token { _type: TokenType::Operator, value: ch.to_string() }));
    }
}

#[test]
fn ignore_spaces() {
    let code = &"  1  ";
    let mut lexer = Lexer::new(code);
    while let Some(token) = lexer.next_token() {
        assert_eq!(token, Token { _type: TokenType::Number, value: "1".to_string() })
    }
}

#[test]
fn unexpected_char_in_assign() {
    let mut lexer = Lexer::new(&"::");
    assert_eq!(lexer.try_next_token(), Err(LexError::UnexpectedChar { expected: '=', found: ':', pos: 1 }));
}

#[test]
fn unknown_char() {
    let mut lexer = Lexer::new(&"@");
    assert_eq!(lexer.try_next_token(), Err(LexError::UnknownChar { ch: '@', pos: 0 }));
}

#[test]
fn keyword_ends_with_the_input() {
    let mut lexer = Lexer::new(&"BEG");
    assert_eq!(lexer.next_token(), Some(Token { _type: TokenType::Begin, value: "BEG".to_string() }));
    assert_eq!(lexer.next_token(), None);
}

#[test]
fn nine_and_z_end_a_run() {
    let mut lexer = Lexer::new(&"19 yz");
    assert_eq!(lexer.next_token(), Some(Token { _type: TokenType::Number, value: "1".to_string() }));
    assert_eq!(lexer.next_token(), Some(Token { _type: TokenType::Number, value: "9".to_string() }));
    assert_eq!(lexer.next_token(), Some(Token { _type: TokenType::ID, value: "y".to_string() }));
    assert_eq!(lexer.next_token(), Some(Token { _type: TokenType::ID, value: "z".to_string() }));
    assert_eq!(lexer.next_token(), None);
}

#[test]
fn space_inside_keyword_stands_for_a_letter() {
    let mut lexer = Lexer::new(&": =");
    assert_eq!(lexer.next_token(), Some(Token { _type: TokenType::Assign, value: ":".to_string() }));
    assert_eq!(lexer.try_next_token(), Err(LexError::UnknownChar { ch: '=', pos: 2 }));
}

#[test]
fn end_of_input_gives_none_again() {
    let mut lexer = Lexer::new(&"; ");
    assert_eq!(lexer.next_token(), Some(Token { _type: TokenType::SEMI, value: ";".to_string() }));
    assert_eq!(lexer.next_token(), None);
    assert_eq!(lexer.next_token(), None);
}

#[test]
fn only_spaces_give_none() {
    let mut lexer = Lexer::new(&"    ");
    assert_eq!(lexer.next_token(), None);
    assert_eq!(lexer.next_token(), None);
}

#[test]
fn unknown_char_is_reported_at_first_non_space() {
    let mut lexer = Lexer::new(&"   .x");
    assert_eq!(lexer.try_next_token(), Err(LexError::UnknownChar { ch: '.', pos: 3 }));
    let mut lexer = Lexer::new(&"\tx");
    assert_eq!(lexer.try_next_token(), Err(LexError::UnknownChar { ch: '\t', pos: 0 }));
}

#[test]
fn token_texts_join_to_input_without_spaces() {
    let code = "BEGIN x := 2 * (y - 1); EN .";
    let mut lexer = Lexer::new(&code);
    let mut joined = String::new();
    let mut kinds = Vec::new();
    while let Some(token) = lexer.next_token() {
        assert!(!token.value.is_empty());
        joined.push_str(&token.value);
        kinds.push(token._type);
    }
    assert_eq!(joined, code.replace(' ', ""));
    assert_eq!(
        kinds,
        vec![
            TokenType::Begin,
            TokenType::ID,
            TokenType::Assign,
            TokenType::Number,
            TokenType::Operator,
            TokenType::LParen,
            TokenType::ID,
            TokenType::Operator,
            TokenType::Number,
            TokenType::RParen,
            TokenType::SEMI,
            TokenType::End,
        ]
    );
}
