//! Terminal colouring of diagnostic text, and locating an error offset in
//! its source.
use vstd::prelude::*;
use crate::chars::{
    byte_at, chars_of, lemma_byte_at_end, lemma_byte_at_mono, lemma_byte_at_next, string_of,
    utf8_width,
};

verus! {

/// `string` wrapped in the ANSI sequences for bold red.
pub fn red(string: String) -> (r: String)
    ensures
        r@ == "\u{001b}[31m\u{001b}[1m"@ + string@ + "\u{001b}[0m"@,
{
    let mut r = String::from_str("\u{001b}[31m\u{001b}[1m");
    r.append(string.as_str());
    r.append("\u{001b}[0m");
    r
}

/// `string` wrapped in the ANSI sequences for bold yellow.
pub fn yellow(string: String) -> (r: String)
    ensures
        r@ == "\u{001b}[33m\u{001b}[1m"@ + string@ + "\u{001b}[0m"@,
{
    let mut r = String::from_str("\u{001b}[33m\u{001b}[1m");
    r.append(string.as_str());
    r.append("\u{001b}[0m");
    r
}

/// `string` wrapped in the ANSI sequences for bold green.
pub fn green(string: String) -> (r: String)
    ensures
        r@ == "\u{001b}[32m\u{001b}[1m"@ + string@ + "\u{001b}[0m"@,
{
    let mut r = String::from_str("\u{001b}[32m\u{001b}[1m");
    r.append(string.as_str());
    r.append("\u{001b}[0m");
    r
}

/// `string` wrapped in the ANSI sequences for bold blue.
pub fn blue(string: String) -> (r: String)
    ensures
        r@ == "\u{001b}[34m\u{001b}[1m"@ + string@ + "\u{001b}[0m"@,
{
    let mut r = String::from_str("\u{001b}[34m\u{001b}[1m");
    r.append(string.as_str());
    r.append("\u{001b}[0m");
    r
}

/// Index of the first `\n` at or after `i` in `s`, or the length of `s`.
pub open spec fn line_end(s: Seq<char>, i: int) -> int
    decreases s.len() - i,
{
    if i >= s.len() || s[i] == '\n' {
        i
    } else {
        line_end(s, i + 1)
    }
}

/// Locates byte `offset` among the lines of `s` from the line that begins
/// at character `i`, whose 0-based index is `line`: the line's index, the
/// column in bytes and the line's text. An offset just past a line's last character belongs
/// to that line.
pub open spec fn locate_from(s: Seq<char>, offset: nat, i: int, line: nat) -> Option<(nat, nat, Seq<char>)>
    decreases s.len() - i,
{
    let e = line_end(s, i);
    if e < i {
        None
    } else if offset <= byte_at(s, e) {
        Some((line, (offset - byte_at(s, i)) as nat, s.subrange(i, e)))
    } else if e < s.len() {
        locate_from(s, offset, e + 1, line + 1)
    } else {
        None
    }
}

/// The 0-based index, the byte column and the text of the line of `s` that
/// holds byte `offset`, if any line does.
pub open spec fn locate(s: Seq<char>, offset: nat) -> Option<(nat, nat, Seq<char>)> {
    locate_from(s, offset, 0, 0)
}

/// Where a byte offset falls in a source text.
pub struct ErrorLocation {
    /// Number of lines before the one holding the offset.
    pub line_index: usize,
    pub column: usize,
    pub text: String,
}

proof fn lemma_line_end_bounds(s: Seq<char>, i: int)
    requires
        0 <= i <= s.len(),
    ensures
        i <= line_end(s, i) <= s.len(),
        line_end(s, i) < s.len() ==> s[line_end(s, i)] == '\n',
    decreases s.len() - i,
{
    if i < s.len() && s[i] != '\n' {
        lemma_line_end_bounds(s, i + 1);
    }
}

/// The line, column and text at which byte `offset` of `source` stands.
pub fn error_location(source: &String, offset: usize) -> (r: Option<ErrorLocation>)
    ensures
        match r {
            Some(l) => locate(source@, offset as nat) == Some((l.line_index as nat, l.column as nat, l.text@)),
            None => locate(source@, offset as nat) is None,
        },
{
    let text = source.as_str();
    let total = text.as_bytes().len();
    let chars = chars_of(text);
    let ghost s = chars@;
    proof {
        lemma_byte_at_end(s);
        assert(s.take(0) =~= Seq::<char>::empty());
    }
    let mut i: usize = 0;
    let mut line: usize = 0;
    let mut start_byte: usize = 0;
    loop
        invariant
            s == chars@,
            s == source@,
            total == byte_at(s, s.len() as int),
            i <= s.len(),
            line <= i,
            start_byte == byte_at(s, i as int),
            start_byte <= offset,
            locate_from(s, offset as nat, i as int, line as nat) == locate(s, offset as nat),
        decreases s.len() - i,
    {
        let mut e: usize = i;
        let mut end_byte: usize = start_byte;
        proof {
            lemma_line_end_bounds(s, i as int);
        }
        while e < chars.len() && chars[e] != '\n'
            invariant
                s == chars@,
                i <= e <= s.len(),
                line_end(s, i as int) == line_end(s, e as int),
                end_byte == byte_at(s, e as int),
                total == byte_at(s, s.len() as int),
            decreases s.len() - e,
        {
            proof {
                lemma_byte_at_next(s, e as int);
                lemma_byte_at_mono(s, e + 1, s.len() as int);
            }
            end_byte = end_byte + utf8_width(chars[e]);
            e = e + 1;
        }
        proof {
            lemma_byte_at_mono(s, i as int, e as int);
        }
        if offset <= end_byte {
            return Some(
                ErrorLocation { line_index: line, column: offset - start_byte, text: string_of(&chars, i, e) },
            );
        }
        if e == chars.len() {
            return None;
        }
        proof {
            lemma_byte_at_next(s, e as int);
            lemma_byte_at_mono(s, e + 1, s.len() as int);
        }
        i = e + 1;
        start_byte = end_byte + 1;
        line = line + 1;
    }
}

} // verus!
