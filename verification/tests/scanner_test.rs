use lox::lexer::{scan_comment, tokenize, Lexer, Token};

fn s(text: &str) -> String {
    text.to_string()
}

#[test]
fn test_numbers_keep_their_spelling() {
    let tokens = tokenize("42 1.25 7.");
    assert_eq!(
        tokens,
        vec![Token::Number(s("42")), Token::Number(s("1.25")), Token::Number(s("7."))]
    );
    let values: Vec<f64> = tokens
        .iter()
        .map(|t| match t {
            Token::Number(n) => n.parse::<f64>().unwrap(),
            _ => panic!("expected a number"),
        })
        .collect();
    assert_eq!(values, vec![42.0, 1.25, 7.0]);
}

#[test]
fn test_dot_followed_by_non_digit_is_error() {
    assert_eq!(tokenize("7.x"), vec![Token::Error, Token::Identifier(s("x"))]);
}

#[test]
fn test_dot_followed_by_space_is_error() {
    assert_eq!(tokenize("7. "), vec![Token::Error]);
}

#[test]
fn test_string_literal_excludes_quotes() {
    assert_eq!(tokenize("\"hi there\""), vec![Token::String(s("hi there"))]);
}

#[test]
fn test_unterminated_string_is_error() {
    assert_eq!(tokenize("\"abc"), vec![Token::Error]);
}

#[test]
fn test_one_and_two_character_operators() {
    assert_eq!(
        tokenize("! != = == < <= > >= / * + - ; , ( ) { }"),
        vec![
            Token::Bang,
            Token::BangEqual,
            Token::Equal,
            Token::EqualEqual,
            Token::Less,
            Token::LessEqual,
            Token::Greater,
            Token::GreaterEqual,
            Token::Slash,
            Token::Star,
            Token::Plus,
            Token::Minus,
            Token::Semicolon,
            Token::Comma,
            Token::LParens,
            Token::RParens,
            Token::LBrace,
            Token::RBrace,
        ]
    );
}

#[test]
fn test_all_keywords() {
    assert_eq!(
        tokenize("and class else false for fun if nil or print return super this true var while"),
        vec![
            Token::And,
            Token::Class,
            Token::Else,
            Token::False,
            Token::For,
            Token::Fun,
            Token::If,
            Token::Nil,
            Token::Or,
            Token::Print,
            Token::Return,
            Token::Super,
            Token::This,
            Token::True,
            Token::Var,
            Token::While,
        ]
    );
}

#[test]
fn test_identifiers_with_digits_and_underscores() {
    assert_eq!(
        tokenize("_x myVar123 classy"),
        vec![
            Token::Identifier(s("_x")),
            Token::Identifier(s("myVar123")),
            Token::Identifier(s("classy")),
        ]
    );
}

#[test]
fn test_unknown_character_is_error() {
    assert_eq!(tokenize("@ x"), vec![Token::Error, Token::Identifier(s("x"))]);
}

#[test]
fn test_comment_runs_to_end_of_line() {
    assert_eq!(
        tokenize("1 // two three\n4"),
        vec![Token::Number(s("1")), Token::Number(s("4"))]
    );
    assert_eq!(tokenize("// only a comment"), vec![]);
}

#[test]
fn test_leading_whitespace_law_on_values() {
    assert_eq!(tokenize(" \t\r\n var x"), tokenize("var x"));
}

#[test]
fn test_comment_law_on_values() {
    assert_eq!(tokenize("// note\nprint 1;"), tokenize("print 1;"));
}

#[test]
fn test_lexer_next_ends_with_none() {
    let mut lexer = Lexer::new("x  ");
    assert_eq!(lexer.next(), Some(Token::Identifier(s("x"))));
    assert_eq!(lexer.next(), None);
    assert_eq!(lexer.next(), None);
}

#[test]
fn test_lexer_tokens_after_next() {
    let mut lexer = Lexer::new("var x = 42;");
    assert_eq!(lexer.next(), Some(Token::Var));
    assert_eq!(
        lexer.tokens(),
        vec![Token::Identifier(s("x")), Token::Equal, Token::Number(s("42")), Token::Semicolon]
    );
}

#[test]
fn test_scan_comment_resumes_after_newline() {
    let chars: Vec<char> = "//ab\ncd".chars().collect();
    assert_eq!(scan_comment(&chars, 1), 5);
    let chars: Vec<char> = "//ab".chars().collect();
    assert_eq!(scan_comment(&chars, 1), 4);
}

#[test]
fn test_scan_is_local_on_values() {
    let mut lexer = Lexer::new("var x = 1 + 2");
    assert_eq!(lexer.next(), Some(Token::Var));
    assert_eq!(lexer.next(), Some(Token::Identifier(s("x"))));
    assert_eq!(lexer.tokens(), tokenize(" = 1 + 2"));
}

#[test]
fn test_true_false_and_a_number() {
    let tokens = tokenize("true false 42");
    assert!(matches!(tokens[0], Token::True));
    assert!(matches!(tokens[1], Token::False));
    assert!(matches!(tokens[2], Token::Number(ref n) if n.parse::<f64>() == Ok(42.0)));
}

#[test]
fn test_next_hands_out_one_token_at_a_time() {
    let mut lexer = Lexer::new("var x = 42;");
    assert!(matches!(lexer.next(), Some(Token::Var)));
    assert!(matches!(lexer.next(), Some(Token::Identifier(ref s)) if s == "x"));
    assert!(matches!(lexer.next(), Some(Token::Equal)));
}

#[test]
fn test_whitespace_separates_one_token_texts() {
    for (a, b) in [("var", "x"), ("42", "1.5"), ("\"s\"", "print"), ("=", "="), ("/", "/"), ("!", "= 1")] {
        for w in [" ", "\t", "\n", " \r\n "] {
            let mut expected = tokenize(a);
            expected.extend(tokenize(b));
            assert_eq!(tokenize(&format!("{a}{w}{b}")), expected);
        }
        assert_eq!(tokenize(a).len(), 1);
    }
    assert_eq!(tokenize(" \t\n\r"), vec![]);
}
