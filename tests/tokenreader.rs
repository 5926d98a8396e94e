use avo::token::Token;
use avo::tokenreader::TokenReader;

/// A token with its float written out, so that expected values read as numbers.
#[derive(Debug, PartialEq)]
enum Tok {
    Operator { payload: String, pos: usize },
    Identifier { name: String, pos: usize },
    Function { name: String, pos: usize },
    IntConstant { value: i32, pos: usize },
    FloatConstant { value: f32, pos: usize },
    StringConstant { value: String, pos: usize },
    NewLine { pos: usize },
}

fn plain(t: Token) -> Tok {
    match t {
        Token::Operator { payload, pos } => Tok::Operator { payload, pos },
        Token::Identifier { name, pos } => Tok::Identifier { name, pos },
        Token::Function { name, pos } => Tok::Function { name, pos },
        Token::IntConstant { value, pos } => Tok::IntConstant { value, pos },
        Token::FloatConstant { digits, scale, pos } => Tok::FloatConstant {
            value: format!("{}e-{}", digits, scale).parse::<f32>().unwrap(),
            pos,
        },
        Token::StringConstant { value, pos } => Tok::StringConstant { value, pos },
        Token::NewLine { pos } => Tok::NewLine { pos },
    }
}

fn read(source: &str) -> Vec<Tok> {
    let source = String::from(source);
    TokenReader::new().parse(&source).unwrap().into_iter().map(plain).collect()
}

fn read_error(source: &str) -> (usize, String) {
    let source = String::from(source);
    match TokenReader::new().parse(&source) {
        Ok(tokens) => panic!("expected an error, got {:?}", tokens),
        Err(e) => (e.pos, e.message),
    }
}

#[test]
fn test_string_literals() {
    let source = String::from("\"hello world\"\n\"\\\"quoted hello world\\\"\"");
    let expected = vec!(
        Tok::StringConstant { value: String::from("hello world"), pos: 0 },
        Tok::NewLine { pos: 13 },
        Tok::StringConstant { value: String::from("\\\"quoted hello world\\\""), pos: 14 },
    );
    let actual = read(&source);
    assert_eq!(expected, actual)
}

#[test]
fn test_integer_literals() {
    let source = String::from("1+22*333/44^5-678");
    let expected = vec!(
        Tok::IntConstant { value: 1, pos: 0 },
        Tok::Operator { payload: String::from("+"), pos: 1 },
        Tok::IntConstant { value: 22, pos: 2 },
        Tok::Operator { payload: String::from("*"), pos: 4 },
        Tok::IntConstant { value: 333, pos: 5 },
        Tok::Operator { payload: String::from("/"), pos: 8 },
        Tok::IntConstant { value: 44, pos: 9 },
        Tok::Operator { payload: String::from("^"), pos: 11 },
        Tok::IntConstant { value: 5, pos: 12 },
        Tok::Operator { payload: String::from("-"), pos: 13 },
        Tok::IntConstant { value: 678, pos: 14 },
    );
    let actual = read(&source);
    assert_eq!(expected, actual)
}

#[test]
fn test_float_literals() {
    let source = String::from("1.0+22*3./4.44^0.5-67.8");
    let expected = vec!(
        Tok::FloatConstant { value: 1.0, pos: 0 },
        Tok::Operator { payload: String::from("+"), pos: 3 },
        Tok::IntConstant { value: 22, pos: 4 },
        Tok::Operator { payload: String::from("*"), pos: 6 },
        Tok::FloatConstant { value: 3.0, pos: 7 },
        Tok::Operator { payload: String::from("/"), pos: 9},
        Tok::FloatConstant { value: 4.44, pos: 10 },
        Tok::Operator { payload: String::from("^"), pos: 14 },
        Tok::FloatConstant { value: 0.5, pos: 15 },
        Tok::Operator { payload: String::from("-"), pos: 18 },
        Tok::FloatConstant { value: 67.8, pos: 19 },
    );
    let actual = read(&source);
    assert_eq!(expected, actual)
}

#[test]
fn test_formatted_float_literals() {
    let source = String::from("146%\n0%\n100%\n5.%\n4.2%");
    let expected = vec!(
        Tok::FloatConstant { value: 1.46, pos: 0 },
        Tok::NewLine { pos: 4 },
        Tok::FloatConstant { value: 0.0, pos: 5 },
        Tok::NewLine { pos: 7 },
        Tok::FloatConstant { value: 1.0, pos: 8 },
        Tok::NewLine { pos: 12 },
        Tok::FloatConstant { value: 0.05, pos: 13 },
        Tok::NewLine { pos: 16 },
        Tok::FloatConstant { value: 0.042, pos: 17 },
    );
    let actual = read(&source);
    assert_eq!(expected, actual)
}

#[test]
fn test_identifiers() {
    let source = String::from("a foo bar2 x_yz123 functionName variableName");
    let expected = vec!(
        Tok::Identifier { name: String::from("a"), pos: 0 },
        Tok::Identifier { name: String::from("foo"), pos: 2 },
        Tok::Identifier { name: String::from("bar2"), pos: 6 },
        Tok::Identifier { name: String::from("x_yz123"), pos: 11 },
        Tok::Identifier { name: String::from("functionName"), pos: 19 },
        Tok::Identifier { name: String::from("variableName"), pos: 32 },
    );
    let actual = read(&source);
    assert_eq!(expected, actual)
}

#[test]
fn test_arithmetical_operators() {
    let source = String::from("a+b-c*d/e^f+=(-=)(*=/=)a=b");
    let expected = vec!(
        Tok::Identifier { name: String::from("a"), pos: 0 },
        Tok::Operator { payload: String::from("+"), pos: 1 },
        Tok::Identifier { name: String::from("b"), pos: 2 },
        Tok::Operator { payload: String::from("-"), pos: 3 },
        Tok::Identifier { name: String::from("c"), pos: 4 },
        Tok::Operator { payload: String::from("*"), pos: 5 },
        Tok::Identifier { name: String::from("d"), pos: 6 },
        Tok::Operator { payload: String::from("/"), pos: 7 },
        Tok::Identifier { name: String::from("e"), pos: 8 },
        Tok::Operator { payload: String::from("^"), pos: 9 },
        Tok::Identifier { name: String::from("f"), pos: 10 },
        Tok::Operator { payload: String::from("+="), pos: 11 },
        Tok::Operator { payload: String::from("("), pos: 13 },
        Tok::Operator { payload: String::from("-="), pos: 14 },
        Tok::Operator { payload: String::from(")"), pos: 16 },
        Tok::Operator { payload: String::from("("), pos: 17 },
        Tok::Operator { payload: String::from("*="), pos: 18 },
        Tok::Operator { payload: String::from("/="), pos: 20 },
        Tok::Operator { payload: String::from(")"), pos: 22 },
        Tok::Identifier { name: String::from("a"), pos: 23 },
        Tok::Operator { payload: String::from("="), pos: 24 },
        Tok::Identifier { name: String::from("b"), pos: 25 },
    );
    let actual = read(&source);
    assert_eq!(expected, actual)
}

#[test]
fn integer_literal_round_trip() {
    assert_eq!(read("0"), vec!(Tok::IntConstant { value: 0, pos: 0 }));
    assert_eq!(read("007"), vec!(Tok::IntConstant { value: 7, pos: 0 }));
    assert_eq!(read("2147483647"), vec!(Tok::IntConstant { value: 2147483647, pos: 0 }));
}

#[test]
fn integer_literal_too_large() {
    let (pos, message) = read_error("1 + 2147483648");
    assert_eq!(pos, 4);
    assert_eq!(message, "Integer number does not fit in 32 bits");
}

#[test]
fn float_literal_exact_decimal() {
    let source = String::from("12.50");
    let tokens = TokenReader::new().parse(&source).unwrap();
    assert_eq!(tokens, vec!(Token::FloatConstant { digits: String::from("1250"), scale: 2, pos: 0 }));
    let source = String::from("7%");
    let tokens = TokenReader::new().parse(&source).unwrap();
    assert_eq!(tokens, vec!(Token::FloatConstant { digits: String::from("7"), scale: 2, pos: 0 }));
}

#[test]
fn long_float_literals_lex() {
    let long_decimal = format!("2.{}", "0".repeat(20));
    assert_eq!(read(&long_decimal), vec!(Tok::FloatConstant { value: 2.0, pos: 0 }));
    let long_percent = format!("2{}%", "0".repeat(19));
    assert_eq!(read(&long_percent), vec!(Tok::FloatConstant { value: 2e17, pos: 0 }));
    let source = String::from("x 1.00000000000000000000");
    let tokens = TokenReader::new().parse(&source).unwrap();
    assert_eq!(
        tokens[1],
        Token::FloatConstant { digits: format!("1{}", "0".repeat(20)), scale: 20, pos: 2 }
    );
}

#[test]
fn digits_after_percent_fail() {
    assert_eq!(
        read_error("1 + 5%3"),
        (4, String::from("A percent number record must end with the percent symbol"))
    );
    assert_eq!(read_error("4.2%17 x").0, 0);
}

#[test]
fn percent_used_twice() {
    let (pos, message) = read_error("5%%");
    assert_eq!(pos, 2);
    assert_eq!(message, "You cannot use the percent symbol twice on the same number");
    let (pos, _) = read_error("1.5%% + 2");
    assert_eq!(pos, 4);
}

#[test]
fn letter_inside_number() {
    assert_eq!(read_error("12a").1, "Invalid character in integer number record: 'a'");
    assert_eq!(read_error("1.2e").0, 3);
    assert_eq!(read_error("1.2e").1, "Invalid character in floating point number record: 'e'");
}

#[test]
fn leading_underscore_and_unexpected_symbol() {
    assert_eq!(read_error("a _b"), (2, String::from("Identifier names must not start with an underscore")));
    assert_eq!(read_error("a # b"), (2, String::from("Unexpected symbol '#'")));
}

#[test]
fn unterminated_string() {
    assert_eq!(read_error("x = \"abc"), (4, String::from("String constant is not terminated")));
}

#[test]
fn keywords_become_operators() {
    assert_eq!(
        read("if(x) else while for in match mut iffy"),
        vec!(
            Tok::Operator { payload: String::from("if"), pos: 0 },
            Tok::Operator { payload: String::from("("), pos: 2 },
            Tok::Identifier { name: String::from("x"), pos: 3 },
            Tok::Operator { payload: String::from(")"), pos: 4 },
            Tok::Operator { payload: String::from("else"), pos: 6 },
            Tok::Operator { payload: String::from("while"), pos: 11 },
            Tok::Operator { payload: String::from("for"), pos: 17 },
            Tok::Operator { payload: String::from("in"), pos: 21 },
            Tok::Operator { payload: String::from("match"), pos: 24 },
            Tok::Operator { payload: String::from("mut"), pos: 30 },
            Tok::Identifier { name: String::from("iffy"), pos: 34 },
        )
    );
}

#[test]
fn call_sites_become_functions() {
    assert_eq!(
        read("f(x) g{ h (y)"),
        vec!(
            Tok::Function { name: String::from("f"), pos: 0 },
            Tok::Operator { payload: String::from("("), pos: 1 },
            Tok::Identifier { name: String::from("x"), pos: 2 },
            Tok::Operator { payload: String::from(")"), pos: 3 },
            Tok::Function { name: String::from("g"), pos: 5 },
            Tok::Operator { payload: String::from("{"), pos: 6 },
            Tok::Identifier { name: String::from("h"), pos: 8 },
            Tok::Operator { payload: String::from("("), pos: 10 },
            Tok::Identifier { name: String::from("y"), pos: 11 },
            Tok::Operator { payload: String::from(")"), pos: 12 },
        )
    );
}

#[test]
fn comments_yield_no_tokens() {
    assert_eq!(
        read("a // $ _x \"\nb /* # \n %% */ c"),
        vec!(
            Tok::Identifier { name: String::from("a"), pos: 0 },
            Tok::NewLine { pos: 11 },
            Tok::Identifier { name: String::from("b"), pos: 12 },
            Tok::Identifier { name: String::from("c"), pos: 27 },
        )
    );
    assert_eq!(read("/* a */"), vec!());
    assert_eq!(read("// only a comment"), vec!());
}

#[test]
fn quoted_string_keeps_escapes() {
    assert_eq!(
        read("\"\\\"quoted\\\"\""),
        vec!(Tok::StringConstant { value: String::from("\\\"quoted\\\""), pos: 0 })
    );
}

#[test]
fn multi_character_operators() {
    let ops: Vec<String> = read("a == b != c <= d >= e -> f").into_iter().filter_map(|t| match t {
        Tok::Operator { payload, .. } => Some(payload),
        _ => None,
    }).collect();
    assert_eq!(ops, vec!("==", "!=", "<=", ">=", "->"));
}

#[test]
fn newlines_coalesce() {
    assert_eq!(
        read("a\n\n\nb"),
        vec!(
            Tok::Identifier { name: String::from("a"), pos: 0 },
            Tok::NewLine { pos: 1 },
            Tok::Identifier { name: String::from("b"), pos: 4 },
        )
    );
}

#[test]
fn positions_are_byte_offsets() {
    assert_eq!(
        read("\"é\" x"),
        vec!(
            Tok::StringConstant { value: String::from("é"), pos: 0 },
            Tok::Identifier { name: String::from("x"), pos: 5 },
        )
    );
}

#[test]
fn empty_source_has_no_tokens() {
    assert_eq!(read(""), vec!());
    assert_eq!(read("  \t "), vec!());
}

#[test]
fn letters_beyond_ascii_make_identifiers() {
    assert_eq!(
        read("héllo(x"),
        vec!(
            Tok::Function { name: String::from("héllo"), pos: 0 },
            Tok::Operator { payload: String::from("("), pos: 6 },
            Tok::Identifier { name: String::from("x"), pos: 7 },
        )
    );
}

#[test]
fn positions_increase_and_point_at_lexemes() {
    let source = "x1 = foo(2.5, \"s\") /* c */ + 7% // end\ny";
    let tokens = TokenReader::new().parse(&String::from(source)).unwrap();
    let positions: Vec<usize> = tokens.iter().map(|t| match t {
        Token::Operator { pos, .. } | Token::Identifier { pos, .. } | Token::Function { pos, .. }
        | Token::IntConstant { pos, .. } | Token::FloatConstant { pos, .. }
        | Token::StringConstant { pos, .. } | Token::NewLine { pos } => *pos,
    }).collect();
    assert_eq!(positions, vec!(0, 3, 5, 8, 9, 12, 14, 17, 27, 29, 38, 39));
    assert!(positions.windows(2).all(|w| w[0] < w[1]));
    for t in &tokens {
        match t {
            Token::Operator { payload, pos } => assert!(source[*pos..].starts_with(payload.as_str())),
            Token::Identifier { name, pos } | Token::Function { name, pos } => {
                assert!(source[*pos..].starts_with(name.as_str()))
            }
            _ => {}
        }
    }
}

#[test]
fn comments_at_line_start_yield_no_tokens() {
    assert_eq!(read("a\n// @ _x #"), read("a\n"));
    assert_eq!(read("a\n/* \" @\n_ */"), read("a\n"));
    assert_eq!(read("a /*x*/"), read("a "));
    assert_eq!(read("/* _ */"), vec!());
}

#[test]
fn decimal_percent_literals() {
    assert_eq!(read("4.25%"), vec!(Tok::FloatConstant { value: 0.0425, pos: 0 }));
    assert_eq!(read_error("4.25%% + 1").0, 5);
}
