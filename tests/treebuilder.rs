use avo::node::Node;
use avo::token::Token;
use avo::tokenreader::TokenReader;
use avo::treebuilder::TreeBuilder;

fn op(s: &str, pos: usize) -> Node {
    Node::from(Token::Operator { payload: s.to_string(), pos })
}

fn id(s: &str, pos: usize) -> Node {
    Node::from(Token::Identifier { name: s.to_string(), pos })
}

#[test]
fn each_line_is_one_expression() {
    let source = String::from("a + b * c\n\nx = f(y)\n");
    let tokens = TokenReader::new().parse(&source).unwrap();
    let lines = TreeBuilder::new().build_tree(&tokens).unwrap();
    assert_eq!(
        lines,
        vec!(
            vec!(id("a", 0), id("b", 4), id("c", 8), op("*", 6), op("+", 2)),
            vec!(
                id("x", 11),
                id("y", 17),
                Node::from(Token::Function { name: "f".to_string(), pos: 15 }),
                op("=", 13),
            ),
        )
    );
}

#[test]
fn unbalanced_line_fails() {
    let source = String::from("a\n( a + b");
    let tokens = TokenReader::new().parse(&source).unwrap();
    let e = TreeBuilder::new().build_tree(&tokens).unwrap_err();
    assert_eq!(e.pos, 2);
    assert_eq!(e.message, "The expression contains an extra or inconsistent parenthesis");
}

#[test]
fn no_tokens_no_expressions() {
    let lines = TreeBuilder::new().build_tree(&vec!(Token::NewLine { pos: 0 })).unwrap();
    assert!(lines.is_empty());
}
