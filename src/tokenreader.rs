//! The lexer: a single left-to-right pass of a character state machine.
//!
//! `scan` and `lex` define the machine over sequences of characters; the
//! executable `TokenReader::parse` is proved to compute `lex` exactly.
use vstd::prelude::*;
use vstd::utf8::*;
use crate::chars::{
    chars_of, digit_chars, digits_of, digits_u64, push_char, is_alphabetic, is_alphanumeric, is_decimal_digit, is_whitespace,
    lemma_byte_at_end, lemma_byte_at_mono, lemma_byte_at_next, spells, string_of, utf8_width,
    alphabetic_of, alphanumeric_of, byte_at, digits_value, is_digit, is_white_space,
};
use crate::token::{views_of, SyntaxError, Token, TokenView};

verus! {

/// What the machine is in the middle of reading.
#[derive(Clone, Copy)]
pub enum Mode {
    Nothing,
    IntNumber,
    /// `fraction` counts the digits read after the decimal point.
    FloatNumber { percent: bool, fraction: usize },
    /// `closed`: the closing quote has been read; `escaped`: the previous
    /// character was an unconsumed backslash.
    StringConstant { closed: bool, escaped: bool },
    Identifier,
    Operator,
    Newline,
    LineComment,
    /// `star`: the previous comment character was `*`.
    BlockComment { star: bool },
}

/// The machine's state: its mode and the index of the character where the
/// current lexeme began.
#[derive(Clone, Copy)]
pub struct Scan {
    pub mode: Mode,
    pub start: usize,
}

#[derive(Clone, Copy)]
pub enum LexErrorKind {
    UnexpectedSymbol { symbol: char },
    LeadingUnderscore,
    InvalidIntChar { symbol: char },
    InvalidFloatChar { symbol: char },
    PercentTwice,
    IntTooLarge,
    /// Digits follow the `%` of a percent literal.
    PercentNotLast,
    UnterminatedString,
}

/// A lexing failure: its kind and byte offset.
pub struct LexError {
    pub kind: LexErrorKind,
    pub pos: nat,
}

/// `text` followed by the offending character in single quotes.
pub open spec fn with_symbol(text: Seq<char>, symbol: char) -> Seq<char> {
    text + seq!['\'', symbol, '\'']
}

/// The message that a syntax error of each kind carries.
pub open spec fn message_text(kind: LexErrorKind) -> Seq<char> {
    match kind {
        LexErrorKind::UnexpectedSymbol { symbol } => with_symbol("Unexpected symbol "@, symbol),
        LexErrorKind::LeadingUnderscore => "Identifier names must not start with an underscore"@,
        LexErrorKind::InvalidIntChar { symbol } => with_symbol(
            "Invalid character in integer number record: "@,
            symbol,
        ),
        LexErrorKind::InvalidFloatChar { symbol } => with_symbol(
            "Invalid character in floating point number record: "@,
            symbol,
        ),
        LexErrorKind::PercentTwice => "You cannot use the percent symbol twice on the same number"@,
        LexErrorKind::IntTooLarge => "Integer number does not fit in 32 bits"@,
        LexErrorKind::PercentNotLast => "A percent number record must end with the percent symbol"@,
        LexErrorKind::UnterminatedString => "String constant is not terminated"@,
    }
}

fn text_with_symbol(text: &str, symbol: char) -> (r: String)
    ensures
        r@ == with_symbol(text@, symbol),
{
    let mut r = String::from_str(text);
    push_char(&mut r, '\'');
    push_char(&mut r, symbol);
    push_char(&mut r, '\'');
    assert(r@ =~= with_symbol(text@, symbol));
    r
}

pub fn message_for(kind: LexErrorKind) -> (r: String)
    ensures
        r@ == message_text(kind),
{
    match kind {
        LexErrorKind::UnexpectedSymbol { symbol } => text_with_symbol("Unexpected symbol ", symbol),
        LexErrorKind::LeadingUnderscore => String::from_str(
            "Identifier names must not start with an underscore",
        ),
        LexErrorKind::InvalidIntChar { symbol } => text_with_symbol(
            "Invalid character in integer number record: ",
            symbol,
        ),
        LexErrorKind::InvalidFloatChar { symbol } => text_with_symbol(
            "Invalid character in floating point number record: ",
            symbol,
        ),
        LexErrorKind::PercentTwice => String::from_str(
            "You cannot use the percent symbol twice on the same number",
        ),
        LexErrorKind::IntTooLarge => String::from_str("Integer number does not fit in 32 bits"),
        LexErrorKind::PercentNotLast => String::from_str(
            "A percent number record must end with the percent symbol",
        ),
        LexErrorKind::UnterminatedString => String::from_str("String constant is not terminated"),
    }
}

/// Characters that begin an operator lexeme.
pub open spec fn is_operator_char(c: char) -> bool {
    ||| c == '=' || c == '+' || c == '-' || c == '*' || c == '/' || c == '^'
    ||| c == '\\' || c == '(' || c == ')' || c == '.' || c == ',' || c == '<'
    ||| c == '>' || c == ':' || c == '!' || c == '{' || c == '}'
}

/// Characters after which a `=` extends an operator (`+=`, `==`, `>=`, ...).
pub open spec fn extends_with_equals(c: char) -> bool {
    c == '+' || c == '-' || c == '*' || c == '/' || c == '=' || c == '!' || c == '<' || c == '>'
}

/// Brackets that make the name before them a call site.
pub open spec fn is_call_bracket(c: char) -> bool {
    c == '(' || c == '{'
}

/// Characters that continue an identifier.
pub open spec fn continues_identifier(c: char) -> bool {
    alphanumeric_of(c) || c == '_'
}

/// The keywords, which the lexer emits as operators.
pub open spec fn is_keyword(w: Seq<char>) -> bool {
    ||| w == seq!['i', 'f']
    ||| w == seq!['e', 'l', 's', 'e']
    ||| w == seq!['w', 'h', 'i', 'l', 'e']
    ||| w == seq!['f', 'o', 'r']
    ||| w == seq!['i', 'n']
    ||| w == seq!['m', 'a', 't', 'c', 'h']
    ||| w == seq!['m', 'u', 't']
}

pub open spec fn initial_scan() -> Scan {
    Scan { mode: Mode::Nothing, start: 0 }
}

/// The token that the finished lexeme `lexeme`, read in `mode` and beginning
/// at byte `pos`, yields; `next` is the character after it, if any.
pub open spec fn lexeme_token(mode: Mode, lexeme: Seq<char>, pos: nat, next: Option<char>) -> Result<
    Option<TokenView>,
    LexError,
> {
    match mode {
        Mode::IntNumber => if digits_value(lexeme) <= i32::MAX {
            Ok(Some(TokenView::IntConstant { value: digits_value(lexeme) as int, pos }))
        } else {
            Err(LexError { kind: LexErrorKind::IntTooLarge, pos })
        },
        Mode::FloatNumber { percent, fraction } => if percent && lexeme.last() != '%' {
            Err(LexError { kind: LexErrorKind::PercentNotLast, pos })
        } else {
            Ok(
                Some(
                    TokenView::FloatConstant {
                        digits: digit_chars(lexeme),
                        scale: fraction as nat + if percent {
                            2nat
                        } else {
                            0nat
                        },
                        pos,
                    },
                ),
            )
        },
        Mode::StringConstant { .. } => Ok(
            Some(TokenView::StringConstant { value: lexeme.subrange(1, lexeme.len() - 1), pos }),
        ),
        Mode::Identifier => if is_keyword(lexeme) {
            Ok(Some(TokenView::Operator { payload: lexeme, pos }))
        } else if next matches Some(c) && is_call_bracket(c) {
            Ok(Some(TokenView::Function { name: lexeme, pos }))
        } else {
            Ok(Some(TokenView::Identifier { name: lexeme, pos }))
        },
        Mode::Operator => Ok(Some(TokenView::Operator { payload: lexeme, pos })),
        Mode::Newline => Ok(Some(TokenView::NewLine { pos })),
        _ => Ok(None),
    }
}

/// The state that character `c`, at index `i` and byte `pos`, starts when
/// read with no lexeme pending.
pub open spec fn dispatch(c: char, i: int, pos: nat) -> Result<Scan, LexError> {
    let at = |mode: Mode| Scan { mode, start: i as usize };
    if is_digit(c) {
        Ok(at(Mode::IntNumber))
    } else if alphabetic_of(c) {
        Ok(at(Mode::Identifier))
    } else if c == '\n' {
        Ok(at(Mode::Newline))
    } else if is_white_space(c) {
        Ok(at(Mode::Nothing))
    } else if is_operator_char(c) {
        Ok(at(Mode::Operator))
    } else if c == '"' {
        Ok(at(Mode::StringConstant { closed: false, escaped: false }))
    } else if c == '_' {
        Err(LexError { kind: LexErrorKind::LeadingUnderscore, pos })
    } else {
        Err(LexError { kind: LexErrorKind::UnexpectedSymbol { symbol: c }, pos })
    }
}

/// Character `i` of `s` ends the pending lexeme and is read afresh.
pub open spec fn close_and_dispatch(s: Seq<char>, i: int, st: Scan) -> Result<
    (Scan, Option<TokenView>),
    LexError,
> {
    match lexeme_token(
        st.mode,
        s.subrange(st.start as int, i),
        byte_at(s, st.start as int),
        Some(s[i]),
    ) {
        Err(e) => Err(e),
        Ok(t) => match dispatch(s[i], i, byte_at(s, i)) {
            Err(e) => Err(e),
            Ok(next) => Ok((next, t)),
        },
    }
}

/// One step of the machine: read character `i` of `s` in state `st`; the
/// result is the next state and the token completed, if any.
pub open spec fn step(s: Seq<char>, i: int, st: Scan) -> Result<(Scan, Option<TokenView>), LexError> {
    let c = s[i];
    let stay = |mode: Mode| Ok((Scan { mode, start: st.start }, None::<TokenView>));
    let fail = |kind: LexErrorKind| Err(LexError { kind, pos: byte_at(s, i) });
    match st.mode {
        Mode::Nothing => close_and_dispatch(s, i, st),
        Mode::IntNumber => if is_digit(c) {
            stay(Mode::IntNumber)
        } else if alphabetic_of(c) {
            fail(LexErrorKind::InvalidIntChar { symbol: c })
        } else if c == '%' {
            stay(Mode::FloatNumber { percent: true, fraction: 0 })
        } else if c == '.' {
            stay(Mode::FloatNumber { percent: false, fraction: 0 })
        } else {
            close_and_dispatch(s, i, st)
        },
        Mode::FloatNumber { percent, fraction } => if is_digit(c) {
            stay(
                Mode::FloatNumber {
                    percent,
                    fraction: if percent {
                        fraction
                    } else {
                        (fraction + 1) as usize
                    },
                },
            )
        } else if alphabetic_of(c) {
            fail(LexErrorKind::InvalidFloatChar { symbol: c })
        } else if c == '%' {
            if percent {
                fail(LexErrorKind::PercentTwice)
            } else {
                stay(Mode::FloatNumber { percent: true, fraction })
            }
        } else {
            close_and_dispatch(s, i, st)
        },
        Mode::StringConstant { closed, escaped } => if closed {
            close_and_dispatch(s, i, st)
        } else if escaped {
            stay(Mode::StringConstant { closed: false, escaped: false })
        } else if c == '"' {
            stay(Mode::StringConstant { closed: true, escaped: false })
        } else if c == '\\' {
            stay(Mode::StringConstant { closed: false, escaped: true })
        } else {
            stay(st.mode)
        },
        Mode::Identifier => if continues_identifier(c) {
            stay(Mode::Identifier)
        } else {
            close_and_dispatch(s, i, st)
        },
        Mode::Operator => {
            let prev = s[i - 1];
            if (c == '=' && extends_with_equals(prev)) || (prev == '-' && c == '>') {
                stay(Mode::Operator)
            } else if prev == '/' && c == '/' {
                stay(Mode::LineComment)
            } else if prev == '/' && c == '*' {
                stay(Mode::BlockComment { star: false })
            } else {
                close_and_dispatch(s, i, st)
            }
        },
        Mode::Newline => if c == '\n' {
            stay(Mode::Newline)
        } else {
            close_and_dispatch(s, i, st)
        },
        Mode::LineComment => if c == '\n' {
            close_and_dispatch(s, i, st)
        } else {
            stay(Mode::LineComment)
        },
        Mode::BlockComment { star } => if star && c == '/' {
            Ok((Scan { mode: Mode::Nothing, start: (i + 1) as usize }, None::<TokenView>))
        } else {
            stay(Mode::BlockComment { star: c == '*' })
        },
    }
}

pub open spec fn opt_seq(t: Option<TokenView>) -> Seq<TokenView> {
    match t {
        Some(t) => seq![t],
        None => Seq::empty(),
    }
}

/// The machine after reading all of `p`: its state and the tokens completed
/// so far, or the first error.
pub open spec fn scan(p: Seq<char>) -> Result<(Scan, Seq<TokenView>), LexError>
    decreases p.len(),
{
    if p.len() == 0 {
        Ok((initial_scan(), Seq::empty()))
    } else {
        match scan(p.drop_last()) {
            Err(e) => Err(e),
            Ok((st, ts)) => match step(p, p.len() - 1, st) {
                Err(e) => Err(e),
                Ok((next, t)) => Ok((next, ts + opt_seq(t))),
            },
        }
    }
}

/// The end of the input closes the pending lexeme.
pub open spec fn finish(s: Seq<char>, st: Scan) -> Result<Option<TokenView>, LexError> {
    match st.mode {
        Mode::StringConstant { closed, .. } if !closed => Err(
            LexError { kind: LexErrorKind::UnterminatedString, pos: byte_at(s, st.start as int) },
        ),
        _ => lexeme_token(
            st.mode,
            s.subrange(st.start as int, s.len() as int),
            byte_at(s, st.start as int),
            None,
        ),
    }
}

/// The tokens of the source text `s`, or the first error in it.
pub open spec fn lex(s: Seq<char>) -> Result<Seq<TokenView>, LexError> {
    match scan(s) {
        Err(e) => Err(e),
        Ok((st, ts)) => match finish(s, st) {
            Err(e) => Err(e),
            Ok(t) => Ok(ts + opt_seq(t)),
        },
    }
}

/// Facts that every state reached after reading `n` characters satisfies.
pub open spec fn scan_wf(st: Scan, n: int) -> bool {
    &&& st.start <= n
    &&& (n == 0 ==> st.mode is Nothing)
    &&& (n > 0 && !(st.mode is Nothing) ==> st.start < n)
    &&& (st.mode matches Mode::StringConstant { closed, .. } && closed ==> st.start + 2 <= n)
    &&& (st.mode matches Mode::FloatNumber { fraction, .. } ==> fraction + 2 <= n - st.start)
}

/// A step keeps the state well formed; the next lexeme starts where the
/// pending one did, at the character read, or just after it.
pub proof fn lemma_step_wf(s: Seq<char>, i: int, st: Scan)
    requires
        0 <= i < s.len(),
        i < usize::MAX,
        scan_wf(st, i),
    ensures
        step(s, i, st) matches Ok((next, _)) ==> scan_wf(next, i + 1) && (next.start == st.start
            || next.start == i || next.start == i + 1),
{
}

/// Every state the machine reaches is well formed.
pub proof fn lemma_scan_wf(p: Seq<char>)
    requires
        p.len() <= usize::MAX,
    ensures
        scan(p) matches Ok((st, _)) ==> scan_wf(st, p.len() as int),
    decreases p.len(),
{
    if p.len() > 0 {
        lemma_scan_wf(p.drop_last());
        if let Ok((st, _)) = scan(p.drop_last()) {
            lemma_step_wf(p, p.len() - 1, st);
        }
    }
}

/// Once the machine fails, reading more keeps the same error.
pub proof fn lemma_scan_err_extends(p: Seq<char>, k: int)
    requires
        0 <= k <= p.len(),
        scan(p.take(k)) is Err,
    ensures
        scan(p) == scan(p.take(k)),
    decreases p.len(),
{
    if p.len() == k {
        assert(p.take(k) =~= p);
    } else {
        assert(p.drop_last().take(k) =~= p.take(k));
        lemma_scan_err_extends(p.drop_last(), k);
    }
}

/// A step reads nothing after the character it consumes.
pub proof fn lemma_step_prefix(s: Seq<char>, t: Seq<char>, i: int, st: Scan)
    requires
        0 <= i < s.len(),
        i < t.len(),
        s.take(i + 1) == t.take(i + 1),
        scan_wf(st, i),
    ensures
        step(s, i, st) == step(t, i, st),
{
    assert(s[i] == s.take(i + 1)[i]);
    assert(t[i] == t.take(i + 1)[i]);
    if i > 0 {
        assert(s[i - 1] == s.take(i + 1)[i - 1]);
        assert(t[i - 1] == t.take(i + 1)[i - 1]);
    }
    assert(s.subrange(st.start as int, i) =~= s.take(i + 1).subrange(st.start as int, i));
    assert(t.subrange(st.start as int, i) =~= t.take(i + 1).subrange(st.start as int, i));
    assert(s.take(i) =~= s.take(i + 1).take(i));
    assert(t.take(i) =~= t.take(i + 1).take(i));
    assert(s.take(st.start as int) =~= s.take(i + 1).take(st.start as int));
    assert(t.take(st.start as int) =~= t.take(i + 1).take(st.start as int));
    assert(byte_at(s, i) == byte_at(t, i));
    assert(byte_at(s, st.start as int) == byte_at(t, st.start as int));
    assert(s.subrange(st.start as int, i) == t.subrange(st.start as int, i));
}

pub open spec fn error_agrees(e: SyntaxError, le: LexError) -> bool {
    e.pos as nat == le.pos && e.message@ == message_text(le.kind)
}

pub open spec fn opt_view(t: Option<Token>) -> Option<TokenView> {
    match t {
        Some(t) => Some(t@),
        None => None,
    }
}

pub open spec fn token_agrees(
    r: Result<Option<Token>, SyntaxError>,
    m: Result<Option<TokenView>, LexError>,
) -> bool {
    match (r, m) {
        (Ok(t), Ok(u)) => opt_view(t) == u,
        (Err(e), Err(le)) => error_agrees(e, le),
        _ => false,
    }
}

pub open spec fn step_agrees(
    r: Result<(Scan, Option<Token>), SyntaxError>,
    m: Result<(Scan, Option<TokenView>), LexError>,
) -> bool {
    match (r, m) {
        (Ok((st, t)), Ok((st2, u))) => st == st2 && opt_view(t) == u,
        (Err(e), Err(le)) => error_agrees(e, le),
        _ => false,
    }
}

pub open spec fn lex_agrees(r: Result<Vec<Token>, SyntaxError>, m: Result<Seq<TokenView>, LexError>) -> bool {
    match (r, m) {
        (Ok(ts), Ok(us)) => views_of(ts@) == us,
        (Err(e), Err(le)) => error_agrees(e, le),
        _ => false,
    }
}

fn syntax_error(kind: LexErrorKind, pos: usize) -> (e: SyntaxError)
    ensures
        error_agrees(e, LexError { kind, pos: pos as nat }),
{
    SyntaxError { pos, message: message_for(kind) }
}

fn is_keyword_at(chars: &Vec<char>, start: usize, end: usize) -> (r: bool)
    requires
        start <= end <= chars@.len(),
    ensures
        r == is_keyword(chars@.subrange(start as int, end as int)),
{
    spells(chars, start, end, &['i', 'f']) || spells(chars, start, end, &['e', 'l', 's', 'e'])
        || spells(chars, start, end, &['w', 'h', 'i', 'l', 'e']) || spells(
        chars,
        start,
        end,
        &['f', 'o', 'r'],
    ) || spells(chars, start, end, &['i', 'n']) || spells(chars, start, end, &['m', 'a', 't', 'c', 'h'])
        || spells(chars, start, end, &['m', 'u', 't'])
}

pub open spec fn scan_agrees(r: Result<Scan, SyntaxError>, m: Result<Scan, LexError>) -> bool {
    match (r, m) {
        (Ok(st), Ok(st2)) => st == st2,
        (Err(e), Err(le)) => error_agrees(e, le),
        _ => false,
    }
}

fn is_operator_start(c: char) -> (r: bool)
    ensures
        r == is_operator_char(c),
{
    c == '=' || c == '+' || c == '-' || c == '*' || c == '/' || c == '^' || c == '\\' || c == '('
        || c == ')' || c == '.' || c == ',' || c == '<' || c == '>' || c == ':' || c == '!' || c
        == '{' || c == '}'
}

fn read_lexeme(
    chars: &Vec<char>,
    mode: Mode,
    start: usize,
    end: usize,
    pos: usize,
    next: Option<char>,
) -> (r: Result<Option<Token>, SyntaxError>)
    requires
        start <= end <= chars@.len(),
        mode is StringConstant ==> start + 2 <= end,
        mode matches Mode::FloatNumber { fraction, .. } ==> fraction + 2 <= end - start,
    ensures
        token_agrees(
            r,
            lexeme_token(mode, chars@.subrange(start as int, end as int), pos as nat, next),
        ),
{
    let ghost lexeme = chars@.subrange(start as int, end as int);
    match mode {
        Mode::IntNumber => match digits_u64(chars, start, end) {
            Some(v) => {
                if v <= i32::MAX as u64 {
                    Ok(Some(Token::IntConstant { value: v as i32, pos }))
                } else {
                    Err(syntax_error(LexErrorKind::IntTooLarge, pos))
                }
            },
            None => Err(syntax_error(LexErrorKind::IntTooLarge, pos)),
        },
        Mode::FloatNumber { percent, fraction } => {
            assert(lexeme.last() == chars@[end - 1]);
            if percent && chars[end - 1] != '%' {
                return Err(syntax_error(LexErrorKind::PercentNotLast, pos));
            }
            let scale = if percent {
                fraction + 2
            } else {
                fraction
            };
            Ok(Some(Token::FloatConstant { digits: digits_of(chars, start, end), scale, pos }))
        },
        Mode::StringConstant { .. } => {
            let value = string_of(chars, start + 1, end - 1);
            assert(lexeme.subrange(1, lexeme.len() - 1) =~= chars@.subrange(
                start + 1,
                end - 1,
            ));
            Ok(Some(Token::StringConstant { value, pos }))
        },
        Mode::Identifier => {
            let name = string_of(chars, start, end);
            if is_keyword_at(chars, start, end) {
                Ok(Some(Token::Operator { payload: name, pos }))
            } else {
                match next {
                    Some(c) => {
                        if c == '(' || c == '{' {
                            Ok(Some(Token::Function { name, pos }))
                        } else {
                            Ok(Some(Token::Identifier { name, pos }))
                        }
                    },
                    None => Ok(Some(Token::Identifier { name, pos })),
                }
            }
        },
        Mode::Operator => Ok(Some(Token::Operator { payload: string_of(chars, start, end), pos })),
        Mode::Newline => Ok(Some(Token::NewLine { pos })),
        _ => Ok(None),
    }
}

fn dispatch_char(c: char, i: usize, pos: usize) -> (r: Result<Scan, SyntaxError>)
    ensures
        scan_agrees(r, dispatch(c, i as int, pos as nat)),
{
    if is_decimal_digit(c) {
        Ok(Scan { mode: Mode::IntNumber, start: i })
    } else if is_alphabetic(c) {
        Ok(Scan { mode: Mode::Identifier, start: i })
    } else if c == '\n' {
        Ok(Scan { mode: Mode::Newline, start: i })
    } else if is_whitespace(c) {
        Ok(Scan { mode: Mode::Nothing, start: i })
    } else if is_operator_start(c) {
        Ok(Scan { mode: Mode::Operator, start: i })
    } else if c == '"' {
        Ok(Scan { mode: Mode::StringConstant { closed: false, escaped: false }, start: i })
    } else if c == '_' {
        Err(syntax_error(LexErrorKind::LeadingUnderscore, pos))
    } else {
        Err(syntax_error(LexErrorKind::UnexpectedSymbol { symbol: c }, pos))
    }
}

fn close_and_dispatch_char(
    chars: &Vec<char>,
    i: usize,
    st: Scan,
    here: usize,
    start_byte: usize,
) -> (r: Result<(Scan, Option<Token>), SyntaxError>)
    requires
        i < chars@.len(),
        scan_wf(st, i as int),
        st.mode matches Mode::StringConstant { closed, .. } ==> closed,
        here == byte_at(chars@, i as int),
        start_byte == byte_at(chars@, st.start as int),
    ensures
        step_agrees(r, close_and_dispatch(chars@, i as int, st)),
{
    let c = chars[i];
    match read_lexeme(chars, st.mode, st.start, i, start_byte, Some(c)) {
        Err(e) => Err(e),
        Ok(t) => match dispatch_char(c, i, here) {
            Err(e) => Err(e),
            Ok(next) => Ok((next, t)),
        },
    }
}

fn step_char(chars: &Vec<char>, i: usize, st: Scan, here: usize, start_byte: usize) -> (r: Result<
    (Scan, Option<Token>),
    SyntaxError,
>)
    requires
        i < chars@.len(),
        i < usize::MAX,
        scan_wf(st, i as int),
        here == byte_at(chars@, i as int),
        start_byte == byte_at(chars@, st.start as int),
    ensures
        step_agrees(r, step(chars@, i as int, st)),
{
    let c = chars[i];
    let start = st.start;
    match st.mode {
        Mode::Nothing => close_and_dispatch_char(chars, i, st, here, start_byte),
        Mode::IntNumber => {
            if is_decimal_digit(c) {
                Ok((st, None))
            } else if is_alphabetic(c) {
                Err(syntax_error(LexErrorKind::InvalidIntChar { symbol: c }, here))
            } else if c == '%' {
                Ok((Scan { mode: Mode::FloatNumber { percent: true, fraction: 0 }, start }, None))
            } else if c == '.' {
                Ok((Scan { mode: Mode::FloatNumber { percent: false, fraction: 0 }, start }, None))
            } else {
                close_and_dispatch_char(chars, i, st, here, start_byte)
            }
        },
        Mode::FloatNumber { percent, fraction } => {
            if is_decimal_digit(c) {
                let fraction = if percent {
                    fraction
                } else {
                    fraction + 1
                };
                Ok((Scan { mode: Mode::FloatNumber { percent, fraction }, start }, None))
            } else if is_alphabetic(c) {
                Err(syntax_error(LexErrorKind::InvalidFloatChar { symbol: c }, here))
            } else if c == '%' {
                if percent {
                    Err(syntax_error(LexErrorKind::PercentTwice, here))
                } else {
                    Ok((Scan { mode: Mode::FloatNumber { percent: true, fraction }, start }, None))
                }
            } else {
                close_and_dispatch_char(chars, i, st, here, start_byte)
            }
        },
        Mode::StringConstant { closed, escaped } => {
            if closed {
                close_and_dispatch_char(chars, i, st, here, start_byte)
            } else if escaped {
                Ok((Scan { mode: Mode::StringConstant { closed: false, escaped: false }, start }, None))
            } else if c == '"' {
                Ok((Scan { mode: Mode::StringConstant { closed: true, escaped: false }, start }, None))
            } else if c == '\\' {
                Ok((Scan { mode: Mode::StringConstant { closed: false, escaped: true }, start }, None))
            } else {
                Ok((st, None))
            }
        },
        Mode::Identifier => {
            if is_alphanumeric(c) || c == '_' {
                Ok((st, None))
            } else {
                close_and_dispatch_char(chars, i, st, here, start_byte)
            }
        },
        Mode::Operator => {
            let prev = chars[i - 1];
            let extends = prev == '+' || prev == '-' || prev == '*' || prev == '/' || prev == '='
                || prev == '!' || prev == '<' || prev == '>';
            if (c == '=' && extends) || (prev == '-' && c == '>') {
                Ok((st, None))
            } else if prev == '/' && c == '/' {
                Ok((Scan { mode: Mode::LineComment, start }, None))
            } else if prev == '/' && c == '*' {
                Ok((Scan { mode: Mode::BlockComment { star: false }, start }, None))
            } else {
                close_and_dispatch_char(chars, i, st, here, start_byte)
            }
        },
        Mode::Newline => {
            if c == '\n' {
                Ok((st, None))
            } else {
                close_and_dispatch_char(chars, i, st, here, start_byte)
            }
        },
        Mode::LineComment => {
            if c == '\n' {
                close_and_dispatch_char(chars, i, st, here, start_byte)
            } else {
                Ok((st, None))
            }
        },
        Mode::BlockComment { star } => {
            if star && c == '/' {
                Ok((Scan { mode: Mode::Nothing, start: i + 1 }, None))
            } else {
                Ok((Scan { mode: Mode::BlockComment { star: c == '*' }, start }, None))
            }
        },
    }
}

fn finish_chars(chars: &Vec<char>, st: Scan, start_byte: usize) -> (r: Result<Option<Token>, SyntaxError>)
    requires
        scan_wf(st, chars@.len() as int),
        start_byte == byte_at(chars@, st.start as int),
    ensures
        token_agrees(r, finish(chars@, st)),
{
    match st.mode {
        Mode::StringConstant { closed, .. } => {
            if !closed {
                return Err(syntax_error(LexErrorKind::UnterminatedString, start_byte));
            }
        },
        _ => {},
    }
    read_lexeme(chars, st.mode, st.start, chars.len(), start_byte, None)
}

/// Turns source text into tokens.
pub struct TokenReader {}

impl TokenReader {
    /// A reader; it keeps no state between calls to `parse`.
    pub fn new() -> TokenReader {
        TokenReader {  }
    }

    /// The tokens of `source`, in order, or the first syntax error in it.
    pub fn parse(&self, source: &String) -> (r: Result<Vec<Token>, SyntaxError>)
        ensures
            lex_agrees(r, lex(source@)),
    {
        let text = source.as_str();
        let total = text.as_bytes().len();
        let chars = chars_of(text);
        proof {
            lemma_byte_at_end(chars@);
        }
        let mut st = Scan { mode: Mode::Nothing, start: 0 };
        let mut tokens: Vec<Token> = Vec::new();
        let mut i: usize = 0;
        let mut here: usize = 0;
        let mut start_byte: usize = 0;
        assert(chars@.take(0) =~= Seq::<char>::empty());
        assert(views_of(tokens@) =~= Seq::<TokenView>::empty());
        while i < chars.len()
            invariant
                chars@ == source@,
                i <= chars@.len(),
                total == encode_utf8(chars@).len(),
                byte_at(chars@, chars@.len() as int) == total,
                scan(chars@.take(i as int)) == Ok::<_, LexError>((st, views_of(tokens@))),
                scan_wf(st, i as int),
                here == byte_at(chars@, i as int),
                start_byte == byte_at(chars@, st.start as int),
            decreases chars@.len() - i,
        {
            let ghost p = chars@.take(i + 1);
            proof {
                assert(p.drop_last() =~= chars@.take(i as int));
                assert(p.take(i + 1) =~= chars@.take(i + 1));
                lemma_step_prefix(p, chars@, i as int, st);
                lemma_step_wf(chars@, i as int, st);
                lemma_byte_at_next(chars@, i as int);
                lemma_byte_at_mono(chars@, i + 1, chars@.len() as int);
            }
            match step_char(&chars, i, st, here, start_byte) {
                Err(e) => {
                    proof {
                        lemma_scan_err_extends(chars@, i + 1);
                        assert(chars@.take(chars@.len() as int) =~= chars@);
                    }
                    return Err(e);
                },
                Ok((next, t)) => {
                    let ghost before = tokens@;
                    let ghost tv = opt_view(t);
                    match t {
                        Some(t) => {
                            tokens.push(t);
                        },
                        None => {},
                    }
                    assert(views_of(tokens@) =~= views_of(before) + opt_seq(tv));
                    if next.start == i {
                        start_byte = here;
                    } else if next.start == i + 1 {
                        start_byte = here + utf8_width(chars[i]);
                    }
                    st = next;
                },
            }
            here = here + utf8_width(chars[i]);
            i = i + 1;
        }
        assert(chars@.take(i as int) =~= chars@);
        match finish_chars(&chars, st, start_byte) {
            Err(e) => Err(e),
            Ok(t) => {
                let ghost before = tokens@;
                let ghost tv = opt_view(t);
                match t {
                    Some(t) => {
                        tokens.push(t);
                    },
                    None => {},
                }
                assert(views_of(tokens@) =~= views_of(before) + opt_seq(tv));
                Ok(tokens)
            },
        }
    }
}

} // verus!
