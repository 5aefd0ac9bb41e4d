use mongor::LexItem;
use mongor::Lexer;
use mongor::Value;

#[test]
fn test_read_number() {
    let test_cases = [
        ("123", 123.0),
        ("42.5", 42.5),
        ("0.123", 0.123),
        ("123rest", 123.0), // Should read only the number
        (".123", 0.123),
        ("-.123", -0.123),
        ("-5.123", -5.123),
    ];

    for (input, expected) in test_cases {
        let mut lexer = Lexer::new(input);
        println!("Lexer input: {}", input);
        let text = lexer.read_number();
        assert_eq!(text.parse::<f64>().unwrap_or(0.0), expected);
    }
}

#[test]
fn test_tokenize_empty() {
    let mut lexer = Lexer::new("");
    assert_eq!(lexer.tokenize().unwrap(), Vec::<LexItem>::new());
}

#[test]
fn test_tokenize_punctuation() {
    let mut lexer = Lexer::new(".,()");
    assert_eq!(
        lexer.tokenize().unwrap(),
        vec![
            LexItem::SpecialChar('.'),
            LexItem::SpecialChar(','),
            LexItem::SpecialChar('('),
            LexItem::SpecialChar(')'),
        ]
    );
}

#[test]
fn test_tokenize_values() {
    let test_cases = [
        (
            "eq.2.05",
            vec![
                LexItem::ComparisonOperator("eq".to_string()),
                LexItem::SpecialChar('.'),
                LexItem::Symbol(Value::Num("2.05".to_string())),
            ],
        ),
        (
            "\"a.b.c\".2.05,\"bac25.34\".eq.\"hello\"",
            vec![
                LexItem::Symbol(Value::Str("a.b.c".to_string())),
                LexItem::SpecialChar('.'),
                LexItem::Symbol(Value::Num("2.05".to_string())),
                LexItem::SpecialChar(','),
                LexItem::Symbol(Value::Str("bac25.34".to_string())),
                LexItem::SpecialChar('.'),
                LexItem::ComparisonOperator("eq".to_string()),
                LexItem::SpecialChar('.'),
                LexItem::Symbol(Value::Str("hello".to_string())),
            ],
        ),
        (
            "(field1.eq.\"test\",field2.lt.24.5,field3.gte.-2,field4.eq.hello)",
            vec![
                LexItem::SpecialChar('('),
                LexItem::Symbol(Value::Str("field1".to_string())),
                LexItem::SpecialChar('.'),
                LexItem::ComparisonOperator("eq".to_string()),
                LexItem::SpecialChar('.'),
                LexItem::Symbol(Value::Str("test".to_string())),
                LexItem::SpecialChar(','),
                LexItem::Symbol(Value::Str("field2".to_string())),
                LexItem::SpecialChar('.'),
                LexItem::ComparisonOperator("lt".to_string()),
                LexItem::SpecialChar('.'),
                LexItem::Symbol(Value::Num("24.5".to_string())),
                LexItem::SpecialChar(','),
                LexItem::Symbol(Value::Str("field3".to_string())),
                LexItem::SpecialChar('.'),
                LexItem::ComparisonOperator("gte".to_string()),
                LexItem::SpecialChar('.'),
                LexItem::Symbol(Value::Num("-2".to_string())),
                LexItem::SpecialChar(','),
                LexItem::Symbol(Value::Str("field4".to_string())),
                LexItem::SpecialChar('.'),
                LexItem::ComparisonOperator("eq".to_string()),
                LexItem::SpecialChar('.'),
                LexItem::Symbol(Value::Str("hello".to_string())),
                LexItem::SpecialChar(')'),
            ],
        ),
    ];
    for (input, expected) in test_cases {
        let mut lexer = Lexer::new(input);
        assert_eq!(lexer.tokenize().unwrap(), expected);
    }
}

#[test]
fn test_tokenize_equals_sign() {
    let mut lexer = Lexer::new("and=(");
    assert_eq!(
        lexer.tokenize().unwrap(),
        vec![
            LexItem::ArrayOp("and".to_string()),
            LexItem::SpecialChar('='),
            LexItem::SpecialChar('('),
        ]
    );
}

#[test]
fn test_tokenize_unterminated_quote() {
    // An unterminated quote consumes to end-of-input and still yields the
    // string read so far.
    let mut lexer = Lexer::new("\"abc");
    assert_eq!(
        lexer.tokenize().unwrap(),
        vec![LexItem::Symbol(Value::Str("abc".to_string()))]
    );
}

#[test]
fn test_tokenize_rejects_illegal_character() {
    // A character that starts no token is the one lexer-level rejection.
    let mut lexer = Lexer::new("foo bar");
    let err = lexer.tokenize().unwrap_err();
    assert_eq!(err.position, 3);
    assert_eq!(err.character, ' ');
}

#[test]
fn test_read_number_defaults_to_zero() {
    // Captured numeric text that is no number stands for 0.0 at the
    // boundary, and nothing panics on the way there.
    for input in ["-", ".", "-."] {
        let mut lexer = Lexer::new(input);
        let text = lexer.read_number();
        assert_eq!(text, input.to_string());
        assert_eq!(text.parse::<f64>().unwrap_or(0.0), 0.0);
    }
}

#[test]
fn test_peek_and_next_char() {
    let mut lexer = Lexer::new("ab");
    assert_eq!(lexer.peek(), Some('a'));
    assert_eq!(lexer.next_char(), Some('a'));
    assert_eq!(lexer.next_char(), Some('b'));
    assert_eq!(lexer.next_char(), None);
    assert_eq!(lexer.peek(), None);
}

#[test]
fn test_read_symbol_and_read_string() {
    let mut lexer = Lexer::new("hello1.rest");
    assert_eq!(lexer.read_symbol(), "hello1".to_string());
    let mut lexer = Lexer::new("\"a.b\"x");
    assert_eq!(lexer.read_string(), "a.b".to_string());
}
