use lisp_lexer::lexer::Token;
use lisp_lexer::lexer::Tokenizer;
use lisp_lexer::lexer::tokenizer;

#[test]
fn test_operators() {
    let operators = vec!['+', '-', '*', '/'];

    for operator in operators {
        let expected_tokens = vec![
            Token::LeftParenthesis,
            Token::BinaryOp(operator.to_string()),
            Token::Integer(1),
            Token::Integer(2),
            Token::RightParenthesis,
        ];

        let lisp_program = format!("({} 1 2)", operator);
        let tokens = tokenizer(lisp_program.as_str()).unwrap_or_default();

        assert_eq!(expected_tokens, tokens);
    }
}

#[test]
fn test_area_of_circle() {
    let lisp_program = "(
            (define r 10)
            (define pi 3.14)
            (* pi (* r r))
        )";

    let tokens = tokenizer(lisp_program).unwrap_or_default();

    assert_eq!(
        tokens,
        vec![
            Token::LeftParenthesis,
            Token::LeftParenthesis,
            Token::Keyword(String::from("define")),
            Token::Symbol(String::from("r")),
            Token::Integer(10),
            Token::RightParenthesis,
            Token::LeftParenthesis,
            Token::Keyword(String::from("define")),
            Token::Symbol(String::from("pi")),
            Token::Float(String::from("3.14")),
            Token::RightParenthesis,
            Token::LeftParenthesis,
            Token::BinaryOp("*".to_string()),
            Token::Symbol(String::from("pi")),
            Token::LeftParenthesis,
            Token::BinaryOp("*".to_string()),
            Token::Symbol(String::from("r")),
            Token::Symbol(String::from("r")),
            Token::RightParenthesis,
            Token::RightParenthesis,
            Token::RightParenthesis,
        ]
    );

    // The float token's text parses to the numeric value the program wrote.
    match &tokens[9] {
        Token::Float(text) => assert_eq!(text.parse::<f64>().unwrap(), 3.14),
        other => panic!("expected a float token, found {:?}", other),
    }
}

#[test]
fn test_empty_input() {
    assert_eq!(tokenizer("").unwrap(), vec![]);
}

#[test]
fn test_string_literal() {
    assert_eq!(
        tokenizer("\"hello world\"").unwrap(),
        vec![Token::String(String::from("hello world"))]
    );
}

#[test]
fn test_whitespace_insensitive() {
    let plain = tokenizer("(+ 1 2)").unwrap();
    let padded = tokenizer("  (\t+\n\n 1 \u{a0} 2\r\n )  ").unwrap();
    assert_eq!(plain, padded);
    assert_eq!(plain.len(), 5);
}

#[test]
fn test_paren_counts() {
    let input = "((a) (b c) ())";
    let tokens = tokenizer(input).unwrap();
    let left_tokens = tokens
        .iter()
        .filter(|t| matches!(t, Token::LeftParenthesis))
        .count();
    let right_tokens = tokens
        .iter()
        .filter(|t| matches!(t, Token::RightParenthesis))
        .count();
    let left_chars = input.chars().filter(|c| *c == '(').count();
    let right_chars = input.chars().filter(|c| *c == ')').count();
    assert_eq!(left_tokens, left_chars);
    assert_eq!(right_tokens, right_chars);
    assert_eq!(left_tokens, 4);
    assert_eq!(right_tokens, 4);
}

#[test]
fn test_maximal_munch() {
    // The digit scan only triggers when the first character is numeric, so
    // the whole run becomes one symbol.
    assert_eq!(
        tokenizer("abc123").unwrap(),
        vec![Token::Symbol(String::from("abc123"))]
    );
    // A symbol read does not stop at an operator character either.
    assert_eq!(
        tokenizer("abc+def").unwrap(),
        vec![Token::Symbol(String::from("abc+def"))]
    );
}

#[test]
fn test_keyword_if() {
    assert_eq!(
        tokenizer("(if x 1)").unwrap(),
        vec![
            Token::LeftParenthesis,
            Token::Keyword(String::from("if")),
            Token::Symbol(String::from("x")),
            Token::Integer(1),
            Token::RightParenthesis,
        ]
    );
}

#[test]
fn test_operator_led_symbol() {
    // A longer text led by an operator character is one BinaryOp token.
    assert_eq!(
        tokenizer("+foo").unwrap(),
        vec![Token::BinaryOp(String::from("+foo"))]
    );
}

#[test]
fn test_float_token_text() {
    assert_eq!(
        tokenizer("3.14").unwrap(),
        vec![Token::Float(String::from("3.14"))]
    );
    // A malformed float literal still tokenizes; its text is kept as read.
    assert_eq!(
        tokenizer("1.2.3").unwrap(),
        vec![Token::Float(String::from("1.2.3"))]
    );
}

#[test]
fn test_unterminated_string() {
    assert_eq!(
        tokenizer("\"abc").unwrap(),
        vec![Token::String(String::from("abc"))]
    );
}

#[test]
fn test_unrecognized_character_halts() {
    // An unrecognized character ends the scan as if the input were
    // exhausted; what follows is dropped.
    assert_eq!(
        tokenizer("foo # bar").unwrap(),
        vec![Token::Symbol(String::from("foo"))]
    );
}

#[test]
fn test_integer_bounds() {
    assert_eq!(
        tokenizer("9223372036854775807").unwrap(),
        vec![Token::Integer(i64::MAX)]
    );
    let err = tokenizer("9223372036854775808").unwrap_err();
    assert_eq!(err.message().as_str(), "integer literal out of range");
    assert!(tokenizer("(+ 1 99999999999999999999)").is_err());
}

#[test]
fn test_next_token_exhaustion_is_idempotent() {
    let mut t = Tokenizer::new("(a)");
    assert_eq!(t.next_token(), Some(Token::LeftParenthesis));
    assert_eq!(t.next_token(), Some(Token::Symbol(String::from("a"))));
    assert_eq!(t.next_token(), Some(Token::RightParenthesis));
    assert_eq!(t.next_token(), None);
    assert_eq!(t.next_token(), None);
}

#[test]
fn test_subroutine_reads() {
    let mut t = Tokenizer::new("abc def");
    assert_eq!(t.read_symbol(), String::from("abc"));
    t.eat_whitespace();
    assert_eq!(t.read_symbol(), String::from("def"));
    assert_eq!(t.read_symbol(), String::from(""));

    let mut n = Tokenizer::new("12.5)");
    assert_eq!(n.read_number(), String::from("12.5"));
    assert_eq!(n.next_token(), Some(Token::RightParenthesis));

    let mut s = Tokenizer::new("\"ab c\"d");
    assert_eq!(s.read_string(), String::from("ab c"));
    assert_eq!(s.next_token(), Some(Token::Symbol(String::from("d"))));

    let mut a = Tokenizer::new("xy");
    assert_eq!(a.advance(), Some('y'));
    assert_eq!(a.advance(), None);
    assert_eq!(a.advance(), None);
}
