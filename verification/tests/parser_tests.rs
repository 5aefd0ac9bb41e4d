use mongor::CompareOp;
use mongor::FilterNode;
use mongor::LexItem;
use mongor::Lexer;
use mongor::LogicOp;
use mongor::Parser;
use mongor::Value;

fn num(text: &str) -> Value {
    Value::Num(text.to_string())
}

fn string(text: &str) -> Value {
    Value::Str(text.to_string())
}

fn compare(field: &str, op: CompareOp, value: Value) -> FilterNode {
    FilterNode::Compare { field: field.to_string(), op, value }
}

#[test]
fn test_simple_top_level_expr() {
    let input_key = "test";

    let test_cases = [
        ("eq.2.05", compare("test", CompareOp::Eq, num("2.05"))),
        ("lt.test", compare("test", CompareOp::Lt, string("test"))),
    ];
    for (input, expected) in test_cases {
        let mut lexer = Lexer::new(input);
        let mut parser = Parser::new(lexer.tokenize().unwrap());
        assert_eq!(parser.parse(input_key).expect("Not good"), expected);
    }
}

#[test]
fn test_arr_top_level_expr() {
    let test_cases = [
        (
            "(field1.eq.\"test\",field2.lt.24.5,field3.gte.-2,field4.eq.hello)",
            FilterNode::Logical {
                op: LogicOp::Or,
                operands: vec![
                    compare("field1", CompareOp::Eq, string("test")),
                    compare("field2", CompareOp::Lt, num("24.5")),
                    compare("field3", CompareOp::Gte, num("-2")),
                    compare("field4", CompareOp::Eq, string("hello")),
                ],
            },
        ),
        (
            "(field1.eq.\"test\",or=(field2.lt.24,field3.gte.-2,field4.eq.hello))",
            FilterNode::Logical {
                op: LogicOp::Or,
                operands: vec![
                    compare("field1", CompareOp::Eq, string("test")),
                    FilterNode::Logical {
                        op: LogicOp::Or,
                        operands: vec![
                            compare("field2", CompareOp::Lt, num("24")),
                            compare("field3", CompareOp::Gte, num("-2")),
                            compare("field4", CompareOp::Eq, string("hello")),
                        ],
                    },
                ],
            },
        ),
    ];

    for (input, expected) in test_cases {
        let mut lexer = Lexer::new(input);
        let mut parser = Parser::new(lexer.tokenize().unwrap());
        assert_eq!(parser.parse("or").unwrap(), expected);
    }
}

#[test]
fn test_top_level_bare_value() {
    let mut parser = Parser::new(Lexer::new("john").tokenize().unwrap());
    assert_eq!(
        parser.parse("name").unwrap(),
        FilterNode::Equals { field: "name".to_string(), value: string("john") }
    );
    let mut parser = Parser::new(Lexer::new("30").tokenize().unwrap());
    assert_eq!(
        parser.parse("age").unwrap(),
        FilterNode::Equals { field: "age".to_string(), value: num("30") }
    );
}

#[test]
fn test_operator_to_bson_key() {
    let table = [("eq", "$eq"), ("lt", "$lt"), ("gt", "$gt"), ("lte", "$lte"), ("gte", "$gte")];
    for (name, key) in table {
        assert_eq!(Parser::operator_to_bson_key(&name.to_string()).unwrap(), key.to_string());
    }
    // The mapping fails closed on a name outside the fixed table.
    let err = Parser::operator_to_bson_key(&"like".to_string()).unwrap_err();
    assert_eq!(err.name, "like".to_string());
}

#[test]
fn test_logic_bson_keys() {
    assert_eq!(LogicOp::And.bson_key(), "$and".to_string());
    assert_eq!(LogicOp::Or.bson_key(), "$or".to_string());
    assert_eq!(LogicOp::of_name(&"and".to_string()), Some(LogicOp::And));
    assert_eq!(LogicOp::of_name(&"or".to_string()), Some(LogicOp::Or));
    assert_eq!(LogicOp::of_name(&"nor".to_string()), None);
}

#[test]
fn test_parser_fails_closed_on_unknown_operator_token() {
    // A hand-built comparison token outside the fixed table is rejected,
    // never mapped.
    let tokens = vec![
        LexItem::ComparisonOperator("like".to_string()),
        LexItem::SpecialChar('.'),
        LexItem::Symbol(string("x")),
    ];
    let mut parser = Parser::new(tokens);
    assert!(parser.parse("field").is_err());
}

#[test]
fn test_trailing_tokens_rejected() {
    let mut parser = Parser::new(Lexer::new("30x").tokenize().unwrap());
    let err = parser.parse("age").unwrap_err();
    // The error reports the cursor and the unconsumed tail.
    assert_eq!(err.position, 1);
    assert_eq!(err.remaining, vec![LexItem::Symbol(string("x"))]);
}

#[test]
fn test_trailing_comma_rejected() {
    let mut parser = Parser::new(Lexer::new("(a.1,)").tokenize().unwrap());
    assert!(parser.parse("or").is_err());
}

#[test]
fn test_filter_node_equality() {
    let a = FilterNode::Equals { field: "x".to_string(), value: num("1") };
    let b = FilterNode::Equals { field: "x".to_string(), value: num("1") };
    let c = FilterNode::Equals { field: "x".to_string(), value: string("1") };
    assert_eq!(a, b);
    assert_ne!(a, c);
    assert_ne!(
        FilterNode::Logical { op: LogicOp::And, operands: vec![a] },
        FilterNode::Logical { op: LogicOp::Or, operands: vec![b] }
    );
}
