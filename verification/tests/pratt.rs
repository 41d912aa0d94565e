use tiaf::pratt::{eval, lex, lex_parse, ASTNode, Environment, ExpressionError, Parser, Token,
    Value};

#[test]
fn test_eval_str_eq() {
    let ast = lex_parse("\"hello\" == \"hello\"".to_string()).unwrap();
    let environment = Environment::new();
    assert_eq!(eval(&ast, &environment).unwrap(), Value::Bool(true));
}

#[test]
fn test_eval_str_eq_not() {
    let ast = lex_parse("\"hello\" == \"work\"".to_string()).unwrap();
    let environment = Environment::new();
    assert_eq!(eval(&ast, &environment).unwrap(), Value::Bool(false));
}

#[test]
fn test_eval_str_ne() {
    let ast = lex_parse("\"hello\" != \"world\"".to_string()).unwrap();
    let environment = Environment::new();
    assert_eq!(eval(&ast, &environment).unwrap(), Value::Bool(true));
}

#[test]
fn test_eval_parens() {
    let ast = lex_parse("(1 + 2) * 3 == ((9))".to_string()).unwrap();
    let environment = Environment::new();
    assert_eq!(eval(&ast, &environment).unwrap(), Value::Bool(true));
}

#[test]
fn test_lex() {
    assert_eq!(
        lex("1 + 2 * 3").unwrap(),
        vec![
            Token::Num(1),
            Token::Plus,
            Token::Num(2),
            Token::Multiply,
            Token::Num(3),
        ]
    );

    assert_eq!(
        lex("\"hello\" == \"world\"").unwrap(),
        vec![
            Token::Str("hello".to_string()),
            Token::Equals,
            Token::Str("world".to_string()),
        ]
    );

    assert_eq!(
        lex("(1 - 2)").unwrap(),
        vec![
            Token::ParenOpen,
            Token::Num(1),
            Token::Minus,
            Token::Num(2),
            Token::ParenClose,
        ]
    );
}

#[test]
fn test_parse_math() {
    let mut parser = Parser {
        tokens: vec![
            Token::Num(1),
            Token::Plus,
            Token::Num(2),
            Token::Multiply,
            Token::Num(3),
        ],
        pos: 0,
    };

    let ast = parser.parse(0).unwrap();
    assert_eq!(
        eval(&ast, &Environment::new()).unwrap(),
        Value::Num(7) // due to operator precedence, this is 1 + (2 * 3) = 7
    );
}

#[test]
fn test_parse_minus() {
    let mut parser = Parser {
        tokens: lex("110 - 100").unwrap(),
        pos: 0,
    };

    let ast = parser.parse(0).unwrap();
    assert_eq!(eval(&ast, &Environment::new()).unwrap(), Value::Num(10));
}

#[test]
fn test_parse_string_eq() {
    let mut parser = Parser {
        tokens: vec![
            Token::Str("hello".to_string()),
            Token::Equals,
            Token::Str("world".to_string()),
        ],
        pos: 0,
    };
    let ast = parser.parse(0).unwrap();
    assert_eq!(
        eval(&ast, &Environment::new()).unwrap(),
        Value::Bool(false) // "hello" != "world"
    );
}

#[test]
fn test_parse_string_neq() {
    let mut parser = Parser {
        tokens: vec![
            Token::ParenOpen,
            Token::Num(1),
            Token::Minus,
            Token::Num(2),
            Token::ParenClose,
        ],
        pos: 0,
    };
    let ast = parser.parse(0).unwrap();
    assert_eq!(
        eval(&ast, &Environment::new()).unwrap(),
        Value::Num(-1) // (1 - 2) = -1
    );
}

#[test]
fn test_eval_with_environment() {
    let mut environment = Environment::new();
    environment.insert("x".to_string(), Value::Num(5));
    environment.insert("y".to_string(), Value::Num(10));

    // Test evaluation of variables in the environment
    let ast_x = ASTNode::Var("x".to_string());
    assert_eq!(eval(&ast_x, &environment).unwrap(), Value::Num(5));

    let ast_y = ASTNode::Var("y".to_string());
    assert_eq!(eval(&ast_y, &environment).unwrap(), Value::Num(10));

    // Test arithmetic operations with variables in the environment
    let ast_add = ASTNode::Add(
        Box::new(ASTNode::Var("x".to_string())),
        Box::new(ASTNode::Var("y".to_string())),
    );
    assert_eq!(eval(&ast_add, &environment).unwrap(), Value::Num(15));

    let ast_sub = ASTNode::Sub(Box::new(ast_y), Box::new(ast_x));
    assert_eq!(eval(&ast_sub, &environment).unwrap(), Value::Num(5));
}

#[test]
fn test_eval_mixed_types_unsupported() {
    // comparing a number with a string is an unsupported operation
    let ast = lex_parse("1 == \"1\"".to_string()).unwrap();
    let environment = Environment::new();
    assert_eq!(
        eval(&ast, &environment),
        Err(ExpressionError::UnsupportedOperation)
    );
}

#[test]
fn test_eval_unbound_variable() {
    let ast = lex_parse("x == 1".to_string()).unwrap();
    let environment = Environment::new();
    assert_eq!(
        eval(&ast, &environment),
        Err(ExpressionError::UnboundVariable("x".to_string()))
    );
}

#[test]
fn test_lex_lone_equals_is_error() {
    assert_eq!(
        lex("1 = 2"),
        Err(ExpressionError::UnexpectedToken(Token::Var("=".to_string())))
    );
}

#[test]
fn test_lex_unknown_character_is_error() {
    assert_eq!(
        lex("1 % 2"),
        Err(ExpressionError::UnexpectedToken(Token::Var("%".to_string())))
    );
}

#[test]
fn test_lex_oversized_literal_is_error() {
    // one past the largest 32-bit literal
    assert_eq!(
        lex("2147483648"),
        Err(ExpressionError::UnexpectedToken(Token::Var(
            "2147483648".to_string()
        )))
    );
    // the largest literal itself still lexes
    assert_eq!(lex("2147483647").unwrap(), vec![Token::Num(2147483647)]);
}

#[test]
fn test_lex_boolean_literals() {
    assert_eq!(
        lex("true != false").unwrap(),
        vec![Token::Bool(true), Token::NotEquals, Token::Bool(false)]
    );
    let ast = lex_parse("!true == false".to_string()).unwrap();
    assert_eq!(eval(&ast, &Environment::new()).unwrap(), Value::Bool(true));
}

#[test]
fn test_parse_unbalanced_paren_is_error() {
    assert!(matches!(
        lex_parse("(1 + 2".to_string()),
        Err(ExpressionError::DidntGetRightParen)
    ));
}

#[test]
fn test_parse_empty_is_error() {
    assert!(matches!(
        lex_parse("".to_string()),
        Err(ExpressionError::RanOutOfTokens)
    ));
}

#[test]
fn test_error_messages_carry_context() {
    let e = ExpressionError::UnboundVariable("x".to_string());
    assert_eq!(e.message(), "Unbound variable: x");
}
