//! Tokens produced by the lexer, their mathematical view, and the syntax error type.
use vstd::prelude::*;

verus! {

/// One lexeme of the source, classified, with the byte offset at which it begins.
#[derive(Debug, Clone, PartialEq)]
pub enum Token {
    /// An operator, a punctuation mark or a keyword.
    Operator { payload: String, pos: usize },
    /// A name not immediately followed by a call bracket.
    Identifier { name: String, pos: usize },
    /// A name immediately followed by `(` or `{`.
    Function { name: String, pos: usize },
    IntConstant { value: i32, pos: usize },
    /// A decimal literal worth `digits / 10^scale`, `digits` being all the
    /// decimal digits of the literal read as one number; a `%` suffix adds 2
    /// to the scale.
    FloatConstant { digits: String, scale: usize, pos: usize },
    /// The text between the quotes, escape sequences kept as written.
    StringConstant { value: String, pos: usize },
    /// One run of consecutive newline characters.
    NewLine { pos: usize },
}

/// What a token means: its kind with payloads as sequences and numbers.
pub enum TokenView {
    Operator { payload: Seq<char>, pos: nat },
    Identifier { name: Seq<char>, pos: nat },
    Function { name: Seq<char>, pos: nat },
    IntConstant { value: int, pos: nat },
    FloatConstant { digits: Seq<char>, scale: nat, pos: nat },
    StringConstant { value: Seq<char>, pos: nat },
    NewLine { pos: nat },
}

impl TokenView {
    pub open spec fn pos(self) -> nat {
        match self {
            TokenView::Operator { pos, .. } => pos,
            TokenView::Identifier { pos, .. } => pos,
            TokenView::Function { pos, .. } => pos,
            TokenView::IntConstant { pos, .. } => pos,
            TokenView::FloatConstant { pos, .. } => pos,
            TokenView::StringConstant { pos, .. } => pos,
            TokenView::NewLine { pos } => pos,
        }
    }
}

impl View for Token {
    type V = TokenView;

    open spec fn view(&self) -> TokenView {
        match self {
            Token::Operator { payload, pos } => TokenView::Operator { payload: payload@, pos: *pos as nat },
            Token::Identifier { name, pos } => TokenView::Identifier { name: name@, pos: *pos as nat },
            Token::Function { name, pos } => TokenView::Function { name: name@, pos: *pos as nat },
            Token::IntConstant { value, pos } => TokenView::IntConstant { value: *value as int, pos: *pos as nat },
            Token::FloatConstant { digits, scale, pos } => TokenView::FloatConstant {
                digits: digits@,
                scale: *scale as nat,
                pos: *pos as nat,
            },
            Token::StringConstant { value, pos } => TokenView::StringConstant { value: value@, pos: *pos as nat },
            Token::NewLine { pos } => TokenView::NewLine { pos: *pos as nat },
        }
    }
}

impl Token {
    /// The byte offset at which the token begins.
    pub fn pos(&self) -> (r: usize)
        ensures
            r as nat == self@.pos(),
    {
        match self {
            Token::Operator { pos, .. } => *pos,
            Token::Identifier { pos, .. } => *pos,
            Token::Function { pos, .. } => *pos,
            Token::IntConstant { pos, .. } => *pos,
            Token::FloatConstant { pos, .. } => *pos,
            Token::StringConstant { pos, .. } => *pos,
            Token::NewLine { pos } => *pos,
        }
    }
}

/// The views of a sequence of tokens.
pub open spec fn views_of(ts: Seq<Token>) -> Seq<TokenView> {
    ts.map_values(|t: Token| t@)
}

/// A syntax error: the byte offset it was found at and a description.
#[derive(Debug)]
pub struct SyntaxError {
    pub pos: usize,
    pub message: String,
}

} // verus!
