use avo::node::Node;
use avo::rpntreebuilder::{get_priority, RpnTreeBuilder};
use avo::token::Token;

#[test]
fn test_proirity() {
    assert_eq!(get_priority(&String::from("and")), 7);
}

#[test]
fn test_simple_math_expressions() {
    let source = vec!(
        Token::Identifier { name: "a".to_string(), pos: 0 },
        Token::Operator { payload: "+".to_string(), pos: 0 },
        Token::Identifier { name: "b".to_string(), pos: 0 },
        Token::Operator { payload: "-".to_string(), pos: 0 },
        Token::Identifier { name: "c".to_string(), pos: 0 },
        Token::Operator { payload: "*".to_string(), pos: 0 },
        Token::Identifier { name: "d".to_string(), pos: 0 },
    );
    let expected: Vec<Node> = vec!(
        Token::Identifier { name: "a".to_string(), pos: 0 },
        Token::Identifier { name: "b".to_string(), pos: 0 },
        Token::Operator { payload: "+".to_string(), pos: 0 },
        Token::Identifier { name: "c".to_string(), pos: 0 },
        Token::Identifier { name: "d".to_string(), pos: 0 },
        Token::Operator { payload: "*".to_string(), pos: 0 },
        Token::Operator { payload: "-".to_string(), pos: 0 },
    ).iter().map(|token| Node::from(token.clone())).collect();

    let mut builder = RpnTreeBuilder::new();
    for token in source {
        builder.push_token(token).unwrap();
    };
    builder.notify_met_separator(0).unwrap();
    assert_eq!(expected, *builder.output());
}

fn op(s: &str, pos: usize) -> Token {
    Token::Operator { payload: s.to_string(), pos }
}

fn id(s: &str, pos: usize) -> Token {
    Token::Identifier { name: s.to_string(), pos }
}

#[test]
fn priorities_follow_the_table() {
    let table = [
        (".", 15), ("u-", 13), ("not", 13), ("^", 12), ("*", 11), ("/", 11), ("+", 10), ("-", 10),
        ("<", 9), ("<=", 9), (">", 9), (">=", 9), ("is", 9), ("==", 8), ("!=", 8), ("and", 7),
        ("or", 6), ("xor", 6), ("if", 2), ("match", 2), ("=", 1), ("+=", 1), ("-=", 1), ("*=", 1),
        ("/=", 1), ("(", 0), (",", 0), ("while", 0),
    ];
    for (op, p) in table {
        assert_eq!(get_priority(&String::from(op)), p, "{}", op);
    }
}

#[test]
fn missing_close_parenthesis_fails_at_end() {
    let mut builder = RpnTreeBuilder::new();
    for t in [op("(", 0), id("a", 2), op("+", 4), id("b", 6)] {
        builder.push_token(t).unwrap();
    }
    let e = builder.notify_met_separator(7).unwrap_err();
    assert_eq!(e.pos, 0);
    assert_eq!(e.message, "The expression contains an extra or inconsistent parenthesis");
}

#[test]
fn stray_close_parenthesis_fails_at_it() {
    let mut builder = RpnTreeBuilder::new();
    for t in [id("a", 0), op("+", 2), id("b", 4)] {
        builder.push_token(t).unwrap();
    }
    let e = builder.push_token(op(")", 6)).unwrap_err();
    assert_eq!(e.pos, 6);
    assert_eq!(e.message, "This closing parenthesis has no matching opening parenthesis");
}

#[test]
fn newline_is_refused() {
    let mut builder = RpnTreeBuilder::new();
    let e = builder.push_token(Token::NewLine { pos: 3 }).unwrap_err();
    assert_eq!(e.pos, 3);
    assert!(builder.output().is_empty());
}

#[test]
fn parentheses_and_functions() {
    // f(a + b) * c  =>  a b + f c *
    let mut builder = RpnTreeBuilder::new();
    for t in [
        Token::Function { name: "f".to_string(), pos: 0 },
        op("(", 1), id("a", 2), op("+", 4), id("b", 6), op(")", 7), op("*", 9), id("c", 11),
    ] {
        builder.push_token(t).unwrap();
    }
    builder.notify_met_separator(12).unwrap();
    let expected: Vec<Node> = vec!(
        id("a", 2), id("b", 6), op("+", 4), Token::Function { name: "f".to_string(), pos: 0 },
        id("c", 11), op("*", 9),
    ).into_iter().map(Node::from).collect();
    assert_eq!(expected, *builder.output());
}

#[test]
fn equal_priorities_are_left_associative() {
    // a = b = c : both `=` have priority 1, so the first one leaves the stack first
    let mut builder = RpnTreeBuilder::new();
    for t in [id("a", 0), op("=", 1), id("b", 2), op("=", 3), id("c", 4)] {
        builder.push_token(t).unwrap();
    }
    builder.notify_met_separator(5).unwrap();
    let expected: Vec<Node> = vec!(id("a", 0), id("b", 2), op("=", 1), id("c", 4), op("=", 3))
        .into_iter().map(Node::from).collect();
    assert_eq!(expected, *builder.output());
}
