use avo::logger::{blue, error_location, green, red, yellow};

#[test]
fn colours_wrap_the_text() {
    assert_eq!(red(String::from("error")), "\u{001b}[31m\u{001b}[1merror\u{001b}[0m");
    assert_eq!(yellow(String::from("w")), "\u{001b}[33m\u{001b}[1mw\u{001b}[0m");
    assert_eq!(green(String::from("")), "\u{001b}[32m\u{001b}[1m\u{001b}[0m");
    assert_eq!(blue(String::from("b")), "\u{001b}[34m\u{001b}[1mb\u{001b}[0m");
}

#[test]
fn locates_offsets_by_line_and_column() {
    let source = String::from("a = 1\nb = _c\n");
    let at = error_location(&source, 10).unwrap();
    assert_eq!((at.line_index, at.column, at.text.as_str()), (1, 4, "b = _c"));
    let at = error_location(&source, 0).unwrap();
    assert_eq!((at.line_index, at.column, at.text.as_str()), (0, 0, "a = 1"));
    let at = error_location(&source, 5).unwrap();
    assert_eq!((at.line_index, at.column), (0, 5));
    let at = error_location(&source, 13).unwrap();
    assert_eq!((at.line_index, at.column, at.text.as_str()), (2, 0, ""));
    assert!(error_location(&source, 14).is_none());
}

#[test]
fn columns_count_bytes() {
    let source = String::from("é = #");
    let at = error_location(&source, 5).unwrap();
    assert_eq!((at.line_index, at.column), (0, 5));
}
