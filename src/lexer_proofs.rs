//! Properties of the lexer, proved over `lex`.
use vstd::prelude::*;
use vstd::utf8::*;
use vstd::arithmetic::power::pow;
use crate::chars::{
    alphabetic_of, byte_at, digit_chars, digits_value, is_digit, is_white_space, lemma_byte_at_end, lemma_byte_at_mono, lemma_byte_at_next,
    lemma_byte_at_prefix,
};
use crate::token::TokenView;
use crate::tokenreader::{
    close_and_dispatch, continues_identifier, dispatch, finish, is_call_bracket, is_keyword, lemma_scan_err_extends, lemma_scan_wf, lemma_step_wf, lex, lexeme_token, scan, scan_wf,
    step, LexError, LexErrorKind, Mode, Scan,
};

verus! {

/// Whether `t` is a name token spelling a keyword.
pub open spec fn names_keyword(t: TokenView) -> bool {
    ||| t matches TokenView::Identifier { name, .. } && is_keyword(name)
    ||| t matches TokenView::Function { name, .. } && is_keyword(name)
}

pub open spec fn strictly_increasing(ts: Seq<TokenView>) -> bool {
    forall|a: int, b: int| 0 <= a < b < ts.len() ==> ts[a].pos() < ts[b].pos()
}

proof fn lemma_lexeme_token_shape(mode: Mode, lexeme: Seq<char>, pos: nat, next: Option<char>)
    ensures
        lexeme_token(mode, lexeme, pos, next) matches Ok(Some(t)) ==> t.pos() == pos
            && !names_keyword(t),
        (mode is Nothing || mode is LineComment || mode is BlockComment) ==> lexeme_token(
            mode,
            lexeme,
            pos,
            next,
        ) == Ok::<_, crate::tokenreader::LexError>(None::<TokenView>),
{
}

/// A token completed by a step begins where the pending lexeme began, and
/// the next lexeme starts at the character just read.
proof fn lemma_step_emits(s: Seq<char>, i: int, st: Scan)
    requires
        0 <= i < s.len(),
        i < usize::MAX,
        scan_wf(st, i),
    ensures
        step(s, i, st) matches Ok((next, Some(t))) ==> next.start == i && st.start < i && t.pos()
            == byte_at(s, st.start as int) && !names_keyword(t),
{
    lemma_lexeme_token_shape(
        st.mode,
        s.subrange(st.start as int, i),
        byte_at(s, st.start as int),
        Some(s[i]),
    );
}

proof fn lemma_scan_order(p: Seq<char>)
    requires
        p.len() <= usize::MAX,
    ensures
        scan(p) matches Ok((st, ts)) ==> {
            &&& strictly_increasing(ts)
            &&& forall|k: int| 0 <= k < ts.len() ==> ts[k].pos() < byte_at(p, st.start as int)
            &&& forall|k: int| 0 <= k < ts.len() ==> !names_keyword(#[trigger] ts[k])
        },
    decreases p.len(),
{
    if p.len() > 0 {
        let q = p.drop_last();
        let i = p.len() - 1;
        lemma_scan_order(q);
        lemma_scan_wf(q);
        if let Ok((st, ts)) = scan(q) {
            assert(q.take(st.start as int) =~= p.take(st.start as int));
            lemma_byte_at_prefix(q, p, st.start as int);
            lemma_step_wf(p, i, st);
            lemma_step_emits(p, i, st);
            if let Ok((next, t)) = step(p, i, st) {
                lemma_byte_at_mono(p, st.start as int, next.start as int);
                match t {
                    Some(t) => {
                        let ts2 = ts + seq![t];
                        assert(scan(p) == Ok::<_, crate::tokenreader::LexError>((next, ts2)));
                        assert forall|k: int| 0 <= k < ts2.len() implies ts2[k].pos() < byte_at(
                            p,
                            next.start as int,
                        ) && !names_keyword(#[trigger] ts2[k]) by {
                            if k < ts.len() {
                                assert(ts2[k] == ts[k]);
                            }
                        }
                        assert forall|a: int, b: int| 0 <= a < b < ts2.len() implies ts2[a].pos()
                            < ts2[b].pos() by {
                            assert(ts2[a] == ts[a]);
                            if b < ts.len() {
                                assert(ts2[b] == ts[b]);
                            }
                        }
                    },
                    None => {
                        assert(ts + seq![] =~= ts);
                    },
                }
            }
        }
    }
}

/// Token positions strictly increase, and each lies inside the source's
/// UTF-8 encoding.
pub proof fn lemma_positions_increase(s: Seq<char>)
    requires
        s.len() <= usize::MAX,
    ensures
        lex(s) matches Ok(ts) ==> strictly_increasing(ts) && forall|k: int|
            0 <= k < ts.len() ==> ts[k].pos() < encode_utf8(s).len(),
{
    lemma_whole_scan(s);
}

/// No name token spells a keyword: keywords always come out as operators.
pub proof fn lemma_keywords_never_names(s: Seq<char>)
    requires
        s.len() <= usize::MAX,
    ensures
        lex(s) matches Ok(ts) ==> forall|k: int| 0 <= k < ts.len() ==> !names_keyword(#[trigger] ts[k]),
{
    lemma_whole_scan(s);
}

proof fn lemma_whole_scan(s: Seq<char>)
    requires
        s.len() <= usize::MAX,
    ensures
        lex(s) matches Ok(ts) ==> {
            &&& strictly_increasing(ts)
            &&& forall|k: int| 0 <= k < ts.len() ==> ts[k].pos() < encode_utf8(s).len()
            &&& forall|k: int| 0 <= k < ts.len() ==> !names_keyword(#[trigger] ts[k])
        },
{
    lemma_scan_order(s);
    lemma_scan_wf(s);
    lemma_byte_at_end(s);
    if let Ok((st, ts)) = scan(s) {
        lemma_byte_at_mono(s, st.start as int, s.len() as int);
        let m = st.mode;
        lemma_lexeme_token_shape(
            m,
            s.subrange(st.start as int, s.len() as int),
            byte_at(s, st.start as int),
            None,
        );
        if let Ok(ts2) = lex(s) {
            if ts2.len() > ts.len() {
                let t = ts2[ts.len() as int];
                assert(st.start < s.len());
                lemma_byte_at_mono(s, st.start as int + 1, s.len() as int);
                assert forall|k: int| 0 <= k < ts2.len() implies ts2[k].pos() < encode_utf8(s).len()
                    && !names_keyword(#[trigger] ts2[k]) by {
                    if k < ts.len() {
                        assert(ts2[k] == ts[k]);
                    }
                }
                assert forall|a: int, b: int| 0 <= a < b < ts2.len() implies ts2[a].pos()
                    < ts2[b].pos() by {
                    assert(ts2[a] == ts[a]);
                    if b < ts.len() {
                        assert(ts2[b] == ts[b]);
                    }
                }
            } else {
                assert(ts2 =~= ts);
            }
        }
    }
}

pub open spec fn all_digits(d: Seq<char>) -> bool {
    forall|j: int| 0 <= j < d.len() ==> is_digit(#[trigger] d[j])
}

/// Over ASCII text, byte offsets are character indices.
proof fn lemma_byte_at_ascii(s: Seq<char>, i: int)
    requires
        0 <= i <= s.len(),
        forall|j: int| 0 <= j < i ==> (#[trigger] s[j] as u32) < 128,
    ensures
        byte_at(s, i) == i,
    decreases i,
{
    if i == 0 {
        assert(s.take(0) =~= Seq::<char>::empty());
    } else {
        lemma_byte_at_ascii(s, i - 1);
        lemma_byte_at_next(s, i - 1);
    }
}

/// A digit run read from the start leaves the machine in `IntNumber` with
/// nothing emitted.
proof fn lemma_scan_digits(s: Seq<char>, n: int)
    requires
        1 <= n <= s.len() <= usize::MAX,
        forall|j: int| 0 <= j < n ==> is_digit(#[trigger] s[j]),
    ensures
        scan(s.take(n)) == Ok::<_, LexError>((Scan { mode: Mode::IntNumber, start: 0 }, Seq::<TokenView>::empty())),
    decreases n,
{
    let p = s.take(n);
    assert(p.drop_last() =~= s.take(n - 1));
    assert(p[n - 1] == s[n - 1]);
    if n == 1 {
        assert(s.take(0) =~= Seq::<char>::empty());
        assert(Seq::<TokenView>::empty() + Seq::<TokenView>::empty() =~= Seq::<TokenView>::empty());
    } else {
        lemma_scan_digits(s, n - 1);
        assert(Seq::<TokenView>::empty() + Seq::<TokenView>::empty() =~= Seq::<TokenView>::empty());
    }
}

/// Digits after a decimal point keep the machine in `FloatNumber`, counting them.
proof fn lemma_scan_fraction(s: Seq<char>, m: int, n: int)
    requires
        1 <= m < n <= s.len() <= usize::MAX,
        forall|j: int| 0 <= j < m ==> is_digit(#[trigger] s[j]),
        s[m] == '.',
        forall|j: int| m < j < n ==> is_digit(#[trigger] s[j]),
    ensures
        scan(s.take(n)) == Ok::<_, LexError>(
            (
                Scan { mode: Mode::FloatNumber { percent: false, fraction: (n - m - 1) as usize }, start: 0 },
                Seq::<TokenView>::empty(),
            ),
        ),
    decreases n,
{
    let p = s.take(n);
    assert(p.drop_last() =~= s.take(n - 1));
    assert(p[n - 1] == s[n - 1]);
    assert(Seq::<TokenView>::empty() + Seq::<TokenView>::empty() =~= Seq::<TokenView>::empty());
    if n == m + 1 {
        lemma_scan_digits(s, m);
    } else {
        lemma_scan_fraction(s, m, n - 1);
    }
}

proof fn lemma_digits_concat(a: Seq<char>, b: Seq<char>)
    requires
        all_digits(b),
    ensures
        digits_value(a + b) == digits_value(a) * pow(10, b.len() as nat) + digits_value(b),
    decreases b.len(),
{
    if b.len() == 0 {
        assert(a + b =~= a);
        assert(pow(10, 0) == 1) by {
            vstd::arithmetic::power::lemma_pow0(10);
        }
    } else {
        let b1 = b.drop_last();
        assert((a + b).drop_last() =~= a + b1);
        assert((a + b).last() == b.last());
        lemma_digits_concat(a, b1);
        vstd::arithmetic::power::lemma_pow_positive(10, b1.len());
        assert(pow(10, b.len() as nat) == 10 * pow(10, b1.len() as nat)) by {
            vstd::arithmetic::power::lemma_pow_adds(10, 1, b1.len());
            vstd::arithmetic::power::lemma_pow1(10);
        }
        let x = digits_value(a);
        let y = digits_value(b1);
        let q = pow(10, b1.len() as nat);
        assert((x * q + y) * 10 + digit_of_last(b) == x * (10 * q) + (y * 10 + digit_of_last(b)))
            by (nonlinear_arith);
    }
}

spec fn digit_of_last(b: Seq<char>) -> nat {
    crate::chars::digit_of(b.last())
}

/// A run of digits lexes to one integer constant worth the number it writes,
/// or, when that number exceeds `i32::MAX`, fails as too large.
pub proof fn lemma_integer_round_trip(d: Seq<char>)
    requires
        0 < d.len() <= usize::MAX,
        all_digits(d),
    ensures
        digits_value(d) <= i32::MAX ==> lex(d) == Ok::<_, LexError>(
            seq![TokenView::IntConstant { value: digits_value(d) as int, pos: 0 }],
        ),
        digits_value(d) > i32::MAX ==> lex(d) == Err::<Seq<TokenView>, _>(
            LexError { kind: LexErrorKind::IntTooLarge, pos: 0 },
        ),
{
    lemma_scan_digits(d, d.len() as int);
    assert(d.take(d.len() as int) =~= d);
    assert(d.subrange(0, d.len() as int) =~= d);
    assert(d.take(0) =~= Seq::<char>::empty());
    assert(Seq::<TokenView>::empty() + seq![TokenView::IntConstant { value: digits_value(d) as int, pos: 0 }]
        =~= seq![TokenView::IntConstant { value: digits_value(d) as int, pos: 0 }]);
}

proof fn lemma_digit_chars_all(x: Seq<char>)
    requires
        all_digits(x),
    ensures
        digit_chars(x) == x,
    decreases x.len(),
{
    if x.len() > 0 {
        assert(x.last() == x[x.len() - 1]);
        lemma_digit_chars_all(x.drop_last());
        assert(x.drop_last().push(x.last()) =~= x);
    }
}

proof fn lemma_digit_chars_skip_mark(a: Seq<char>, mark: char, b: Seq<char>)
    requires
        !is_digit(mark),
    ensures
        digit_chars(a + seq![mark] + b) == digit_chars(a + b),
    decreases b.len(),
{
    if b.len() == 0 {
        assert((a + seq![mark] + b).drop_last() =~= a);
        assert(a + b =~= a);
    } else {
        assert((a + seq![mark] + b).drop_last() =~= a + seq![mark] + b.drop_last());
        assert((a + b).drop_last() =~= a + b.drop_last());
        lemma_digit_chars_skip_mark(a, mark, b.drop_last());
    }
}

/// The digits of `d1.d2` read as one number: `d1 * 10^|d2| + d2`.
pub proof fn lemma_decimal_digits_value(d1: Seq<char>, d2: Seq<char>)
    requires
        all_digits(d2),
    ensures
        digits_value(d1 + d2) == digits_value(d1) * pow(10, d2.len()) + digits_value(d2),
{
    lemma_digits_concat(d1, d2);
}

/// `d1.d2` lexes to one float constant worth `d1 d2 / 10^|d2|`, the digits
/// of both parts read as one number.
pub proof fn lemma_decimal_round_trip(d1: Seq<char>, d2: Seq<char>)
    requires
        0 < d1.len(),
        d1.len() + 1 + d2.len() <= usize::MAX,
        all_digits(d1),
        all_digits(d2),
    ensures
        lex(d1 + seq!['.'] + d2) == Ok::<_, LexError>(
            seq![TokenView::FloatConstant { digits: d1 + d2, scale: d2.len(), pos: 0 }],
        ),
{
    let s = d1 + seq!['.'] + d2;
    let m = d1.len() as int;
    assert forall|j: int| 0 <= j < m implies is_digit(#[trigger] s[j]) by {
        assert(s[j] == d1[j]);
    }
    assert forall|j: int| m < j < s.len() implies is_digit(#[trigger] s[j]) by {
        assert(s[j] == d2[j - m - 1]);
    }
    assert(s[m] == '.');
    lemma_scan_fraction(s, m, s.len() as int);
    assert(s.take(s.len() as int) =~= s);
    assert(s.subrange(0, s.len() as int) =~= s);
    assert(s.take(0) =~= Seq::<char>::empty());
    lemma_digit_chars_skip_mark(d1, '.', d2);
    assert forall|j: int| 0 <= j < (d1 + d2).len() implies is_digit(#[trigger] (d1 + d2)[j]) by {
        if j < m {
            assert((d1 + d2)[j] == d1[j]);
        } else {
            assert((d1 + d2)[j] == d2[j - m]);
        }
    }
    lemma_digit_chars_all(d1 + d2);
    let t = TokenView::FloatConstant { digits: d1 + d2, scale: d2.len(), pos: 0 };
    assert(Seq::<TokenView>::empty() + seq![t] =~= seq![t]);
}

/// `d1.d2%` lexes to one float constant worth `d1.d2 / 100`.
pub proof fn lemma_decimal_percent_round_trip(d1: Seq<char>, d2: Seq<char>)
    requires
        0 < d1.len(),
        d1.len() + 2 + d2.len() <= usize::MAX,
        all_digits(d1),
        all_digits(d2),
    ensures
        lex(d1 + seq!['.'] + d2 + seq!['%']) == Ok::<_, LexError>(
            seq![TokenView::FloatConstant { digits: d1 + d2, scale: d2.len() + 2, pos: 0 }],
        ),
{
    let s = d1 + seq!['.'] + d2 + seq!['%'];
    let m = d1.len() as int;
    let n = s.len() - 1;
    assert forall|j: int| 0 <= j < m implies is_digit(#[trigger] s[j]) by {
        assert(s[j] == d1[j]);
    }
    assert forall|j: int| m < j < n implies is_digit(#[trigger] s[j]) by {
        assert(s[j] == d2[j - m - 1]);
    }
    assert(s[m] == '.');
    assert(s[n] == '%');
    lemma_scan_fraction(s, m, n);
    let p = s.take(n + 1);
    assert(p =~= s);
    assert(p.drop_last() =~= s.take(n));
    assert(s.subrange(0, s.len() as int) =~= s);
    assert(s.take(0) =~= Seq::<char>::empty());
    lemma_digit_chars_skip_mark(d1 + seq!['.'] + d2, '%', Seq::empty());
    assert(d1 + seq!['.'] + d2 + seq!['%'] + Seq::<char>::empty() =~= s);
    assert(d1 + seq!['.'] + d2 + Seq::<char>::empty() =~= d1 + seq!['.'] + d2);
    lemma_digit_chars_skip_mark(d1, '.', d2);
    assert forall|j: int| 0 <= j < (d1 + d2).len() implies is_digit(#[trigger] (d1 + d2)[j]) by {
        if j < m {
            assert((d1 + d2)[j] == d1[j]);
        } else {
            assert((d1 + d2)[j] == d2[j - m]);
        }
    }
    lemma_digit_chars_all(d1 + d2);
    assert(Seq::<TokenView>::empty() + Seq::<TokenView>::empty() =~= Seq::<TokenView>::empty());
    let t = TokenView::FloatConstant { digits: d1 + d2, scale: d2.len() + 2, pos: 0 };
    assert(Seq::<TokenView>::empty() + seq![t] =~= seq![t]);
}

/// `d%` lexes to one float constant worth `d / 100`.
pub proof fn lemma_percent_round_trip(d: Seq<char>)
    requires
        0 < d.len() < usize::MAX,
        all_digits(d),
    ensures
        lex(d + seq!['%']) == Ok::<_, LexError>(
            seq![TokenView::FloatConstant { digits: d, scale: 2, pos: 0 }],
        ),
{
    let s = d + seq!['%'];
    let m = d.len() as int;
    assert forall|j: int| 0 <= j < m implies is_digit(#[trigger] s[j]) by {
        assert(s[j] == d[j]);
    }
    lemma_scan_digits(s, m);
    let p = s.take(m + 1);
    assert(p.drop_last() =~= s.take(m));
    assert(p =~= s);
    assert(s.subrange(0, s.len() as int) =~= s);
    assert(s.take(0) =~= Seq::<char>::empty());
    lemma_digit_chars_skip_mark(d, '%', Seq::empty());
    assert(d + seq!['%'] + Seq::<char>::empty() =~= s);
    assert(d + Seq::<char>::empty() =~= d);
    lemma_digit_chars_all(d);
    assert(Seq::<TokenView>::empty() + Seq::<TokenView>::empty() =~= Seq::<TokenView>::empty());
    let t = TokenView::FloatConstant { digits: d, scale: 2, pos: 0 };
    assert(Seq::<TokenView>::empty() + seq![t] =~= seq![t]);
}

/// Digits after `%` stay in the literal, which then fails, at its start, as
/// a percent literal that does not end with `%`.
pub proof fn lemma_digits_after_percent_fail(d: Seq<char>, e: Seq<char>)
    requires
        0 < d.len(),
        0 < e.len(),
        d.len() + 1 + e.len() <= usize::MAX,
        all_digits(d),
        all_digits(e),
    ensures
        lex(d + seq!['%'] + e) == Err::<Seq<TokenView>, _>(
            LexError { kind: LexErrorKind::PercentNotLast, pos: 0 },
        ),
{
    let s = d + seq!['%'] + e;
    let m = d.len() as int;
    assert forall|j: int| 0 <= j < m implies is_digit(#[trigger] s[j]) by {
        assert(s[j] == d[j]);
    }
    assert forall|j: int| m < j < s.len() implies is_digit(#[trigger] s[j]) by {
        assert(s[j] == e[j - m - 1]);
    }
    assert(s[m] == '%');
    lemma_scan_percent_digits(s, m, s.len() as int);
    assert(s.take(s.len() as int) =~= s);
    assert(s.subrange(0, s.len() as int) =~= s);
    assert(s.last() == e.last());
    assert(s.take(0) =~= Seq::<char>::empty());
}

/// Digits read after the `%` of a percent literal keep the machine in the
/// literal.
proof fn lemma_scan_percent_digits(s: Seq<char>, m: int, n: int)
    requires
        1 <= m < n <= s.len() <= usize::MAX,
        forall|j: int| 0 <= j < m ==> is_digit(#[trigger] s[j]),
        s[m] == '%',
        forall|j: int| m < j < n ==> is_digit(#[trigger] s[j]),
    ensures
        scan(s.take(n)) == Ok::<_, LexError>(
            (
                Scan { mode: Mode::FloatNumber { percent: true, fraction: 0 }, start: 0 },
                Seq::<TokenView>::empty(),
            ),
        ),
    decreases n,
{
    let p = s.take(n);
    assert(p.drop_last() =~= s.take(n - 1));
    assert(p[n - 1] == s[n - 1]);
    assert(Seq::<TokenView>::empty() + Seq::<TokenView>::empty() =~= Seq::<TokenView>::empty());
    if n == m + 1 {
        lemma_scan_digits(s, m);
    } else {
        lemma_scan_percent_digits(s, m, n - 1);
    }
}

/// A number followed by `%%` always fails, at the second `%`, whatever follows.
pub proof fn lemma_percent_twice_fails(d: Seq<char>, rest: Seq<char>)
    requires
        0 < d.len(),
        d.len() + 2 + rest.len() <= usize::MAX,
        all_digits(d),
    ensures
        lex(d + seq!['%', '%'] + rest) == Err::<Seq<TokenView>, _>(
            LexError { kind: LexErrorKind::PercentTwice, pos: d.len() + 1 },
        ),
{
    let s = d + seq!['%', '%'] + rest;
    let m = d.len() as int;
    assert forall|j: int| 0 <= j < m implies is_digit(#[trigger] s[j]) by {
        assert(s[j] == d[j]);
    }
    assert(s[m] == '%');
    assert(s[m + 1] == '%');
    lemma_scan_digits(s, m);
    let first = s.take(m + 1);
    assert(first.drop_last() =~= s.take(m));
    assert(first[m] == '%');
    assert(Seq::<TokenView>::empty() + Seq::<TokenView>::empty() =~= Seq::<TokenView>::empty());
    let st1 = Scan { mode: Mode::FloatNumber { percent: true, fraction: 0 }, start: 0 };
    assert(scan(first) == Ok::<_, LexError>((st1, Seq::<TokenView>::empty())));
    let second = s.take(m + 2);
    assert(second.drop_last() =~= first);
    assert(second[m + 1] == '%');
    assert forall|j: int| 0 <= j < m + 1 implies (#[trigger] second[j] as u32) < 128 by {
        if j < m {
            assert(second[j] == d[j]);
        }
    }
    lemma_byte_at_ascii(second, m + 1);
    assert(scan(second) == Err::<(Scan, Seq<TokenView>), _>(
        LexError { kind: LexErrorKind::PercentTwice, pos: d.len() + 1 },
    ));
    lemma_scan_err_extends(s, m + 2);
    assert(s.take(m + 2) == second);
}

/// A decimal number followed by `%%` always fails, at the second `%`,
/// whatever follows.
pub proof fn lemma_decimal_percent_twice_fails(d1: Seq<char>, d2: Seq<char>, rest: Seq<char>)
    requires
        0 < d1.len(),
        d1.len() + d2.len() + 3 + rest.len() <= usize::MAX,
        all_digits(d1),
        all_digits(d2),
    ensures
        lex(d1 + seq!['.'] + d2 + seq!['%', '%'] + rest) == Err::<Seq<TokenView>, _>(
            LexError { kind: LexErrorKind::PercentTwice, pos: d1.len() + d2.len() + 2 },
        ),
{
    let s = d1 + seq!['.'] + d2 + seq!['%', '%'] + rest;
    let m = d1.len() as int;
    let n = m + 1 + d2.len();
    assert forall|j: int| 0 <= j < m implies is_digit(#[trigger] s[j]) by {
        assert(s[j] == d1[j]);
    }
    assert forall|j: int| m < j < n implies is_digit(#[trigger] s[j]) by {
        assert(s[j] == d2[j - m - 1]);
    }
    assert(s[m] == '.');
    assert(s[n] == '%');
    assert(s[n + 1] == '%');
    lemma_scan_fraction(s, m, n);
    let first = s.take(n + 1);
    assert(first.drop_last() =~= s.take(n));
    assert(first[n] == '%');
    assert(Seq::<TokenView>::empty() + Seq::<TokenView>::empty() =~= Seq::<TokenView>::empty());
    let st1 = Scan {
        mode: Mode::FloatNumber { percent: true, fraction: d2.len() as usize },
        start: 0,
    };
    assert(scan(first) == Ok::<_, LexError>((st1, Seq::<TokenView>::empty())));
    let second = s.take(n + 2);
    assert(second.drop_last() =~= first);
    assert(second[n + 1] == '%');
    assert forall|j: int| 0 <= j < n + 1 implies (#[trigger] second[j] as u32) < 128 by {
        if j < m {
            assert(second[j] == d1[j]);
        } else if m < j < n {
            assert(second[j] == d2[j - m - 1]);
        }
    }
    lemma_byte_at_ascii(second, n + 1);
    assert(scan(second) == Err::<(Scan, Seq<TokenView>), _>(
        LexError { kind: LexErrorKind::PercentTwice, pos: d1.len() + d2.len() + 2 },
    ));
    lemma_scan_err_extends(s, n + 2);
    assert(s.take(n + 2) == second);
}

/// Whether `w` is spelled like an identifier: a letter, then letters,
/// digits or underscores.
pub open spec fn is_identifier_spelling(w: Seq<char>) -> bool {
    &&& w.len() > 0
    &&& alphabetic_of(w[0])
    &&& forall|j: int| 1 <= j < w.len() ==> continues_identifier(#[trigger] w[j])
}

/// The token that the name `w` yields when followed by `next`.
pub open spec fn name_token(w: Seq<char>, next: Option<char>) -> TokenView {
    if is_keyword(w) {
        TokenView::Operator { payload: w, pos: 0 }
    } else if next matches Some(c) && is_call_bracket(c) {
        TokenView::Function { name: w, pos: 0 }
    } else {
        TokenView::Identifier { name: w, pos: 0 }
    }
}

proof fn lemma_scan_name(s: Seq<char>, n: int)
    requires
        1 <= n <= s.len() <= usize::MAX,
        alphabetic_of(s[0]),
        forall|j: int| 1 <= j < n ==> continues_identifier(#[trigger] s[j]),
    ensures
        scan(s.take(n)) == Ok::<_, LexError>((Scan { mode: Mode::Identifier, start: 0 }, Seq::<TokenView>::empty())),
    decreases n,
{
    let p = s.take(n);
    assert(p.drop_last() =~= s.take(n - 1));
    assert(p[n - 1] == s[n - 1]);
    assert(Seq::<TokenView>::empty() + Seq::<TokenView>::empty() =~= Seq::<TokenView>::empty());
    if n == 1 {
        assert(s.take(0) =~= Seq::<char>::empty());
    } else {
        lemma_scan_name(s, n - 1);
    }
}

/// Tokens completed after reading a prefix stay the first tokens of the
/// whole scan.
proof fn lemma_scan_tokens_kept(p: Seq<char>, k: int)
    requires
        0 <= k <= p.len(),
        scan(p.take(k)) is Ok,
        scan(p) is Ok,
    ensures
        scan(p.take(k))->Ok_0.1.len() <= scan(p)->Ok_0.1.len(),
        scan(p)->Ok_0.1.take(scan(p.take(k))->Ok_0.1.len() as int) == scan(p.take(k))->Ok_0.1,
    decreases p.len(),
{
    let ts = scan(p)->Ok_0.1;
    if p.len() == k {
        assert(p.take(k) =~= p);
        assert(ts.take(ts.len() as int) =~= ts);
    } else {
        let q = p.drop_last();
        assert(q.take(k) =~= p.take(k));
        let qts = scan(q)->Ok_0.1;
        lemma_scan_tokens_kept(q, k);
        let n1 = scan(p.take(k))->Ok_0.1.len() as int;
        assert(ts.take(n1) =~= qts.take(n1));
    }
}

/// A name followed by a character that does not continue it yields, first,
/// an operator when it spells a keyword, else a `Function` when that
/// character is `(` or `{`, else an `Identifier`, whatever follows.
pub proof fn lemma_name_followed(w: Seq<char>, c: char, rest: Seq<char>)
    requires
        is_identifier_spelling(w),
        !continues_identifier(c),
        w.len() + 1 + rest.len() <= usize::MAX,
    ensures
        lex(w + seq![c] + rest) matches Ok(ts) ==> ts.len() > 0 && ts[0] == name_token(w, Some(c)),
{
    let s = w + seq![c] + rest;
    let m = w.len() as int;
    assert(s[0] == w[0]);
    assert forall|j: int| 1 <= j < m implies continues_identifier(#[trigger] s[j]) by {
        assert(s[j] == w[j]);
    }
    lemma_scan_name(s, m);
    let p = s.take(m + 1);
    assert(p.drop_last() =~= s.take(m));
    assert(p[m] == c);
    assert(p.subrange(0, m) =~= w);
    assert(p.take(0) =~= Seq::<char>::empty());
    if let Ok(ts) = lex(s) {
        if let Ok((st, sts)) = scan(s) {
            if let Ok((_, pts)) = scan(p) {
                assert(pts =~= seq![name_token(w, Some(c))]);
                lemma_scan_tokens_kept(s, m + 1);
                assert(s.take(m + 1) == p);
                assert(sts.take(1)[0] == sts[0]);
                assert(ts[0] == sts[0]);
            } else {
                lemma_scan_err_extends(s, m + 1);
                assert(s.take(m + 1) == p);
            }
        }
    }
}

/// A name at the end of the input yields an operator when it spells a
/// keyword, else an `Identifier`.
pub proof fn lemma_name_at_end(w: Seq<char>)
    requires
        is_identifier_spelling(w),
        w.len() <= usize::MAX,
    ensures
        lex(w) == Ok::<_, LexError>(seq![name_token(w, None)]),
{
    lemma_scan_name(w, w.len() as int);
    assert(w.take(w.len() as int) =~= w);
    assert(w.subrange(0, w.len() as int) =~= w);
    assert(w.take(0) =~= Seq::<char>::empty());
    assert(Seq::<TokenView>::empty() + seq![name_token(w, None)] =~= seq![name_token(w, None)]);
}

/// Whether reading `a` succeeds and leaves the machine outside any comment.
pub open spec fn ends_outside_comment(a: Seq<char>) -> bool {
    scan(a) matches Ok((st, _)) && !(st.mode is LineComment) && !(st.mode is BlockComment)
}

/// Whether `x` holds no `*/`.
pub open spec fn no_comment_end(x: Seq<char>) -> bool {
    forall|j: int| 0 <= j < x.len() - 1 ==> !(x[j] == '*' && #[trigger] x[j + 1] == '/')
}

/// Reading a space after `a`, which ends outside any comment, completes
/// what `a` left pending and leaves the machine with nothing pending.
proof fn lemma_space_after(a: Seq<char>, s: Seq<char>)
    requires
        ends_outside_comment(a),
        lex(a) is Ok,
        a.len() < s.len() <= usize::MAX,
        s.take(a.len() as int) == a,
        s[a.len() as int] == ' ',
    ensures
        scan(s.take(a.len() + 1 as int)) == Ok::<_, LexError>(
            (Scan { mode: Mode::Nothing, start: a.len() as usize }, lex(a)->Ok_0),
        ),
{
    let n = a.len() as int;
    let p = s.take(n + 1);
    assert(p.drop_last() =~= a);
    assert(p[n] == ' ');
    lemma_scan_wf(a);
    let (st, ts) = scan(a)->Ok_0;
    assert(p.subrange(st.start as int, n) =~= a.subrange(st.start as int, n));
    assert(p.take(st.start as int) =~= a.take(st.start as int));
    assert(byte_at(p, st.start as int) == byte_at(a, st.start as int));
    if n > 0 {
        assert(p[n - 1] == a[n - 1]);
    }
    assert(finish(a, st) is Ok);
}

proof fn lemma_scan_line_body(s: Seq<char>, k: int, n: int, b: usize, ts: Seq<TokenView>)
    requires
        0 <= k <= n <= s.len() <= usize::MAX,
        scan(s.take(k)) == Ok::<_, LexError>((Scan { mode: Mode::LineComment, start: b }, ts)),
        forall|j: int| k <= j < n ==> #[trigger] s[j] != '\n',
    ensures
        scan(s.take(n)) == Ok::<_, LexError>((Scan { mode: Mode::LineComment, start: b }, ts)),
    decreases n,
{
    if n > k {
        lemma_scan_line_body(s, k, n - 1, b, ts);
        let p = s.take(n);
        assert(p.drop_last() =~= s.take(n - 1));
        assert(p[n - 1] == s[n - 1]);
        assert(ts + Seq::<TokenView>::empty() =~= ts);
    }
}

proof fn lemma_scan_block_body(s: Seq<char>, k: int, n: int, b: usize, ts: Seq<TokenView>)
    requires
        0 <= k <= n <= s.len() <= usize::MAX,
        scan(s.take(k)) == Ok::<_, LexError>(
            (Scan { mode: Mode::BlockComment { star: false }, start: b }, ts),
        ),
        forall|j: int| k <= j < n - 1 ==> !(s[j] == '*' && #[trigger] s[j + 1] == '/'),
    ensures
        scan(s.take(n)) == Ok::<_, LexError>(
            (Scan { mode: Mode::BlockComment { star: n > k && s[n - 1] == '*' }, start: b }, ts),
        ),
    decreases n,
{
    if n > k {
        lemma_scan_block_body(s, k, n - 1, b, ts);
        let p = s.take(n);
        assert(p.drop_last() =~= s.take(n - 1));
        assert(p[n - 1] == s[n - 1]);
        if n - 1 > k {
            assert(p[n - 2] == s[n - 2]);
            let j = n - 2;
            assert(!(s[j] == '*' && s[j + 1] == '/'));
        }
        assert(ts + Seq::<TokenView>::empty() =~= ts);
    }
}

/// Reading ` /` after `a` leaves an operator lexeme `/` pending, with the
/// tokens of `a` completed.
proof fn lemma_slash_after(a: Seq<char>, s: Seq<char>)
    requires
        ends_outside_comment(a),
        lex(a) is Ok,
        a.len() + 1 < s.len() <= usize::MAX,
        s.take(a.len() as int) == a,
        s[a.len() as int] == ' ',
        s[a.len() + 1 as int] == '/',
    ensures
        scan(s.take(a.len() + 2 as int)) == Ok::<_, LexError>(
            (Scan { mode: Mode::Operator, start: (a.len() + 1) as usize }, lex(a)->Ok_0),
        ),
{
    let n = a.len() as int;
    lemma_space_after(a, s);
    let p = s.take(n + 2);
    assert(p.drop_last() =~= s.take(n + 1));
    assert(p[n + 1] == '/');
    assert(lex(a)->Ok_0 + Seq::<TokenView>::empty() =~= lex(a)->Ok_0);
}

/// A line comment after code adds no token, whatever characters it holds.
pub proof fn lemma_line_comment_adds_nothing(a: Seq<char>, x: Seq<char>)
    requires
        ends_outside_comment(a),
        lex(a) is Ok,
        forall|j: int| 0 <= j < x.len() ==> x[j] != '\n',
        a.len() + 3 + x.len() <= usize::MAX,
    ensures
        lex(a + seq![' ', '/', '/'] + x) == lex(a),
{
    let s = a + seq![' ', '/', '/'] + x;
    let n = a.len() as int;
    assert(s.take(n) =~= a);
    assert(s[n] == ' ' && s[n + 1] == '/' && s[n + 2] == '/');
    lemma_slash_after(a, s);
    let p = s.take(n + 3);
    assert(p.drop_last() =~= s.take(n + 2));
    assert(p[n + 2] == '/' && p[n + 1] == '/');
    let ts = lex(a)->Ok_0;
    assert(ts + Seq::<TokenView>::empty() =~= ts);
    let b = (n + 1) as usize;
    assert(scan(p) == Ok::<_, LexError>((Scan { mode: Mode::LineComment, start: b }, ts)));
    assert forall|j: int| n + 3 <= j < s.len() implies #[trigger] s[j] != '\n' by {
        assert(s[j] == x[j - n - 3]);
    }
    lemma_scan_line_body(s, n + 3, s.len() as int, b, ts);
    assert(s.take(s.len() as int) =~= s);
}

/// A block comment after code adds no token, whatever characters it holds
/// short of `*/`.
pub proof fn lemma_block_comment_adds_nothing(a: Seq<char>, x: Seq<char>)
    requires
        ends_outside_comment(a),
        lex(a) is Ok,
        no_comment_end(x),
        a.len() + 5 + x.len() <= usize::MAX,
    ensures
        lex(a + seq![' ', '/', '*'] + x + seq!['*', '/']) == lex(a),
{
    let s = a + seq![' ', '/', '*'] + x + seq!['*', '/'];
    let n = a.len() as int;
    let len = s.len() as int;
    assert(s.take(n) =~= a);
    assert(s[n] == ' ' && s[n + 1] == '/' && s[n + 2] == '*');
    lemma_slash_after(a, s);
    let p = s.take(n + 3);
    assert(p.drop_last() =~= s.take(n + 2));
    assert(p[n + 2] == '*' && p[n + 1] == '/');
    let ts = lex(a)->Ok_0;
    assert(ts + Seq::<TokenView>::empty() =~= ts);
    let b = (n + 1) as usize;
    assert(scan(p) == Ok::<_, LexError>((Scan { mode: Mode::BlockComment { star: false }, start: b }, ts)));
    assert(s[len - 2] == '*' && s[len - 1] == '/');
    assert forall|j: int| n + 3 <= j < len - 2 implies !(s[j] == '*' && #[trigger] s[j + 1] == '/') by {
        let jj = j - n - 3;
        assert(s[j] == x[jj]);
        if j + 1 < len - 2 {
            assert(s[j + 1] == x[jj + 1]);
            assert(!(x[jj] == '*' && x[jj + 1] == '/'));
        } else {
            assert(s[j + 1] == '*');
        }
    }
    lemma_scan_block_body(s, n + 3, len - 1, b, ts);
    let q = s.take(len);
    assert(q =~= s);
    assert(q.drop_last() =~= s.take(len - 1));
    assert(q[len - 1] == '/');
}

/// Reading the characters of `b` inside a string: `None` once an unescaped
/// quote has closed it, else whether the last character is an escaping
/// backslash.
pub open spec fn escape_state(b: Seq<char>) -> Option<bool>
    decreases b.len(),
{
    if b.len() == 0 {
        Some(false)
    } else {
        match escape_state(b.drop_last()) {
            None => None,
            Some(escaped) => if escaped {
                Some(false)
            } else if b.last() == '"' {
                None
            } else if b.last() == '\\' {
                Some(true)
            } else {
                Some(false)
            },
        }
    }
}

/// Whether `b` can stand between two quotes as one string: each quote in it
/// is escaped and it does not end in an escaping backslash.
pub open spec fn is_string_body(b: Seq<char>) -> bool {
    escape_state(b) == Some(false)
}

proof fn lemma_scan_string_body(s: Seq<char>, b: Seq<char>, k: int)
    requires
        s.len() <= usize::MAX,
        0 <= k <= b.len(),
        1 + b.len() <= s.len(),
        s[0] == '"',
        forall|j: int| 0 <= j < b.len() ==> s[j + 1] == #[trigger] b[j],
        escape_state(b.take(k)) is Some,
    ensures
        scan(s.take(k + 1)) == Ok::<_, LexError>(
            (
                Scan {
                    mode: Mode::StringConstant { closed: false, escaped: escape_state(b.take(k))->Some_0 },
                    start: 0,
                },
                Seq::<TokenView>::empty(),
            ),
        ),
    decreases k,
{
    let p = s.take(k + 1);
    assert(p.drop_last() =~= s.take(k));
    assert(Seq::<TokenView>::empty() + Seq::<TokenView>::empty() =~= Seq::<TokenView>::empty());
    if k == 0 {
        assert(s.take(0) =~= Seq::<char>::empty());
        assert(b.take(0) =~= Seq::<char>::empty());
        assert(p[0] == '"');
    } else {
        assert(b.take(k).drop_last() =~= b.take(k - 1));
        assert(b.take(k).last() == b[k - 1]);
        lemma_scan_string_body(s, b, k - 1);
        assert(p[k] == b[k - 1]);
    }
}

/// A quoted string body lexes to one string constant holding the body as
/// written, escapes kept and quotes stripped.
pub proof fn lemma_string_keeps_escapes(b: Seq<char>)
    requires
        is_string_body(b),
        b.len() + 2 <= usize::MAX,
    ensures
        lex(seq!['"'] + b + seq!['"']) == Ok::<_, LexError>(
            seq![TokenView::StringConstant { value: b, pos: 0 }],
        ),
{
    let s = seq!['"'] + b + seq!['"'];
    let n = b.len() as int;
    assert forall|j: int| 0 <= j < b.len() implies s[j + 1] == #[trigger] b[j] by {}
    assert(b.take(n) =~= b);
    lemma_scan_string_body(s, b, n);
    let p = s.take(n + 2);
    assert(p =~= s);
    assert(p.drop_last() =~= s.take(n + 1));
    assert(p[n + 1] == '"');
    assert(s.subrange(0, s.len() as int).subrange(1, s.len() - 1) =~= b);
    assert(s.take(0) =~= Seq::<char>::empty());
    let t = TokenView::StringConstant { value: b, pos: 0 };
    assert(Seq::<TokenView>::empty() + Seq::<TokenView>::empty() =~= Seq::<TokenView>::empty());
    assert(Seq::<TokenView>::empty() + seq![t] =~= seq![t]);
}

/// A stretch `start..end` of characters that the lexer read as one lexeme:
/// a token when `token` holds it, else a comment.
pub struct Segment {
    pub start: int,
    pub end: int,
    pub token: Option<TokenView>,
}

/// The segment that a step from `st` to `next` at character `i` completes.
pub open spec fn closed_segment(i: int, st: Scan, next: Scan, t: Option<TokenView>) -> Option<Segment> {
    if st.mode is BlockComment && next.mode is Nothing {
        Some(Segment { start: st.start as int, end: i + 1, token: None })
    } else if !(st.mode is Nothing) && next.start == i {
        Some(Segment { start: st.start as int, end: i, token: t })
    } else {
        None
    }
}

pub open spec fn opt_segment(g: Option<Segment>) -> Seq<Segment> {
    match g {
        Some(g) => seq![g],
        None => Seq::empty(),
    }
}

/// The segments completed while reading `p`.
pub open spec fn segments(p: Seq<char>) -> Seq<Segment>
    decreases p.len(),
{
    if p.len() == 0 {
        Seq::empty()
    } else {
        match scan(p.drop_last()) {
            Ok((st, _)) => match step(p, p.len() - 1, st) {
                Ok((next, t)) => segments(p.drop_last()) + opt_segment(
                    closed_segment(p.len() - 1, st, next, t),
                ),
                Err(_) => Seq::empty(),
            },
            Err(_) => Seq::empty(),
        }
    }
}

/// All segments of `s`, the one pending at the end included.
pub open spec fn all_segments(s: Seq<char>) -> Seq<Segment> {
    match scan(s) {
        Ok((st, _)) => if st.mode is Nothing {
            segments(s)
        } else {
            segments(s) + seq![
                Segment {
                    start: st.start as int,
                    end: s.len() as int,
                    token: match finish(s, st) {
                        Ok(t) => t,
                        Err(_) => None,
                    },
                },
            ]
        },
        Err(_) => Seq::empty(),
    }
}

/// The tokens of the token segments, in order.
pub open spec fn tokens_of(segs: Seq<Segment>) -> Seq<TokenView>
    decreases segs.len(),
{
    if segs.len() == 0 {
        Seq::empty()
    } else {
        tokens_of(segs.drop_last()) + crate::tokenreader::opt_seq(segs.last().token)
    }
}

/// Segments that are non-empty, inside `0..bound`, in order and disjoint,
/// with each token positioned at its segment's first byte of `s`.
pub open spec fn segments_ordered(s: Seq<char>, segs: Seq<Segment>, bound: int) -> bool {
    &&& forall|k: int| 0 <= k < segs.len() ==> 0 <= #[trigger] segs[k].start < segs[k].end <= bound
    &&& forall|k: int, l: int| 0 <= k < l < segs.len() ==> #[trigger] segs[k].end <= #[trigger] segs[l].start
    &&& forall|k: int| 0 <= k < segs.len() ==> (#[trigger] segs[k].token matches Some(t) ==> t.pos()
        == byte_at(s, segs[k].start))
}

/// Every character of `s` before `bound` is white space or lies in a segment.
pub open spec fn covered(s: Seq<char>, segs: Seq<Segment>, bound: int) -> bool {
    forall|j: int| 0 <= j < bound ==> is_white_space(#[trigger] s[j]) || exists|k: int|
        0 <= k < segs.len() && (#[trigger] segs[k]).start <= j < segs[k].end
}

proof fn lemma_dispatch_nothing(c: char, i: int, pos: nat)
    requires
        0 <= i <= usize::MAX,
    ensures
        dispatch(c, i, pos) matches Ok(next) ==> next.start == i && (next.mode is Nothing ==> is_white_space(c)),
{
}

/// What one step does to the pending lexeme.
proof fn lemma_step_cases(s: Seq<char>, i: int, st: Scan)
    requires
        0 <= i < s.len(),
        i < usize::MAX,
        scan_wf(st, i),
    ensures
        step(s, i, st) matches Ok((next, t)) ==> {
            &&& st.mode is Nothing ==> next.start == i && t is None && (next.mode is Nothing ==> is_white_space(s[i]))
            &&& !(st.mode is Nothing) && next.start == i ==> (next.mode is Nothing ==> is_white_space(s[i]))
                && lexeme_token(st.mode, s.subrange(st.start as int, i), byte_at(s, st.start as int), Some(s[i])) == Ok::<_, LexError>(t)
            &&& !(st.mode is Nothing) && next.start != i ==> t is None && (!(st.mode is BlockComment
                && next.mode is Nothing) ==> !(next.mode is Nothing))
            &&& st.mode is BlockComment && next.mode is Nothing ==> next.start == i + 1 && t is None
        },
{
    lemma_dispatch_nothing(s[i], i, byte_at(s, i));
    lemma_lexeme_token_shape(st.mode, s.subrange(st.start as int, i), byte_at(s, st.start as int), Some(s[i]));
}

proof fn lemma_tokens_of_push(segs: Seq<Segment>, g: Option<Segment>)
    ensures
        tokens_of(segs + opt_segment(g)) == tokens_of(segs) + crate::tokenreader::opt_seq(
            match g {
                Some(g) => g.token,
                None => None,
            },
        ),
{
    match g {
        Some(g) => {
            assert((segs + seq![g]).drop_last() =~= segs);
        },
        None => {
            assert(segs + Seq::<Segment>::empty() =~= segs);
            assert(tokens_of(segs) + Seq::<TokenView>::empty() =~= tokens_of(segs));
        },
    }
}

proof fn lemma_scan_segments(p: Seq<char>)
    requires
        p.len() <= usize::MAX,
    ensures
        scan(p) matches Ok((st, ts)) ==> {
            &&& segments_ordered(p, segments(p), st.start as int)
            &&& covered(p, segments(p), st.start as int)
            &&& st.mode is Nothing ==> forall|j: int| st.start <= j < p.len() ==> is_white_space(#[trigger] p[j])
            &&& ts == tokens_of(segments(p))
        },
    decreases p.len(),
{
    if p.len() > 0 {
        let q = p.drop_last();
        let i = p.len() - 1;
        lemma_scan_segments(q);
        lemma_scan_wf(q);
        if let Ok((st, ts)) = scan(q) {
            lemma_step_cases(p, i, st);
            lemma_step_wf(p, i, st);
            lemma_step_emits(p, i, st);
            assert forall|x: int| 0 <= x <= i implies byte_at(q, x) == byte_at(p, x) by {
                assert(q.take(x) =~= p.take(x));
            }
            assert forall|x: int| 0 <= x < i implies q[x] == p[x] by {}
            if let Ok((next, t)) = step(p, i, st) {
                let segs = segments(q);
                let g = closed_segment(i, st, next, t);
                let segs2 = segs + opt_segment(g);
                assert(segments(p) == segs2);
                lemma_tokens_of_push(segs, g);
                assert(scan(p) == Ok::<_, LexError>((next, ts + crate::tokenreader::opt_seq(t))));
                assert forall|k: int| 0 <= k < segs.len() implies segs2[k] == segs[k] by {}
                // ordering and positions
                assert forall|k: int| 0 <= k < segs2.len() implies 0 <= #[trigger] segs2[k].start
                    < segs2[k].end <= next.start && (segs2[k].token matches Some(u) ==> u.pos()
                    == byte_at(p, segs2[k].start)) by {
                    if k < segs.len() {
                        assert(segs2[k] == segs[k]);
                    }
                }
                assert forall|k: int, l: int| 0 <= k < l < segs2.len() implies #[trigger] segs2[k].end
                    <= #[trigger] segs2[l].start by {
                    assert(segs2[k] == segs[k]);
                    if l < segs.len() {
                        assert(segs2[l] == segs[l]);
                    }
                }
                // coverage
                assert forall|j: int| 0 <= j < next.start implies is_white_space(#[trigger] p[j])
                    || exists|k: int| 0 <= k < segs2.len() && (#[trigger] segs2[k]).start <= j
                    < segs2[k].end by {
                    if j < st.start {
                        assert(q[j] == p[j]);
                        if !is_white_space(q[j]) {
                            let k = choose|k: int| 0 <= k < segs.len() && (#[trigger] segs[k]).start <= j
                                < segs[k].end;
                            assert(segs2[k] == segs[k]);
                        }
                    } else if j < i {
                        assert(q[j] == p[j]);
                        if !(st.mode is Nothing) {
                            assert(segs2[segs.len() as int].start <= j < segs2[segs.len() as int].end);
                        }
                    } else if st.mode is BlockComment && next.mode is Nothing {
                        assert(segs2[segs.len() as int].start <= j < segs2[segs.len() as int].end);
                    }
                }
            }
        }
    }
}

/// Lexing splits the source into segments, one per token and one per
/// comment: non-empty, in order and disjoint, so that every character lies
/// in at most one of them, and every character outside them is white space.
/// The tokens are those of the token segments, in order, each positioned at
/// the first byte of its segment.
pub proof fn lemma_segments_cover_source(s: Seq<char>)
    requires
        s.len() <= usize::MAX,
    ensures
        lex(s) matches Ok(ts) ==> {
            &&& segments_ordered(s, all_segments(s), s.len() as int)
            &&& covered(s, all_segments(s), s.len() as int)
            &&& ts == tokens_of(all_segments(s))
        },
{
    lemma_scan_segments(s);
    lemma_scan_wf(s);
    if let Ok((st, ts)) = scan(s) {
        if let Ok(ts2) = lex(s) {
            let segs = segments(s);
            let segs2 = all_segments(s);
            let t = finish(s, st)->Ok_0;
            lemma_lexeme_token_shape(
                st.mode,
                s.subrange(st.start as int, s.len() as int),
                byte_at(s, st.start as int),
                None,
            );
            if st.mode is Nothing {
                assert(ts2 =~= ts);
            } else {
                let g = Segment { start: st.start as int, end: s.len() as int, token: t };
                assert(segs2 == segs + seq![g]);
                lemma_tokens_of_push(segs, Some(g));
                assert(segs + opt_segment(Some(g)) == segs2);
                assert forall|k: int| 0 <= k < segs.len() implies segs2[k] == segs[k] by {}
                assert forall|k: int| 0 <= k < segs2.len() implies 0 <= #[trigger] segs2[k].start
                    < segs2[k].end <= s.len() && (segs2[k].token matches Some(u) ==> u.pos()
                    == byte_at(s, segs2[k].start)) by {
                    if k < segs.len() {
                        assert(segs2[k] == segs[k]);
                    }
                }
                assert forall|k: int, l: int| 0 <= k < l < segs2.len() implies #[trigger] segs2[k].end
                    <= #[trigger] segs2[l].start by {
                    assert(segs2[k] == segs[k]);
                    if l < segs.len() {
                        assert(segs2[l] == segs[l]);
                    }
                }
                assert forall|j: int| 0 <= j < s.len() implies is_white_space(#[trigger] s[j])
                    || exists|k: int| 0 <= k < segs2.len() && (#[trigger] segs2[k]).start <= j
                    < segs2[k].end by {
                    if j < st.start {
                        if !is_white_space(s[j]) {
                            let k = choose|k: int| 0 <= k < segs.len() && (#[trigger] segs[k]).start <= j
                                < segs[k].end;
                            assert(segs2[k] == segs[k]);
                        }
                    } else {
                        assert(segs2[segs.len() as int].start <= j < segs2[segs.len() as int].end);
                    }
                }
            }
        }
    }
}

/// Whether `a` is empty or ends with a space or a newline.
pub open spec fn ends_at_blank(a: Seq<char>) -> bool {
    a.len() == 0 || a.last() == ' ' || a.last() == '\n'
}

/// Text that ends with a blank outside any string or comment leaves nothing
/// pending but, perhaps, a newline.
proof fn lemma_boundary_mode(a: Seq<char>)
    requires
        a.len() <= usize::MAX,
        ends_at_blank(a),
        ends_outside_comment(a),
        lex(a) is Ok,
    ensures
        scan(a)->Ok_0.0.mode is Nothing || scan(a)->Ok_0.0.mode is Newline,
{
    if a.len() > 0 {
        let q = a.drop_last();
        lemma_scan_wf(q);
        let i = a.len() - 1;
        assert(a[i] == a.last());
        if let Ok((st, _)) = scan(q) {
            lemma_dispatch_nothing(a[i], i, byte_at(a, i));
            if let Ok((next, _)) = step(a, i, st) {
                assert(scan(a)->Ok_0.0 == next);
                if let Mode::StringConstant { closed, .. } = next.mode {
                    assert(!closed);
                }
            }
        }
    }
}

/// Reading `/` after text that ends at a blank completes what that text left
/// pending and starts an operator lexeme.
proof fn lemma_slash_at_boundary(a: Seq<char>, s: Seq<char>)
    requires
        a.len() < s.len() <= usize::MAX,
        ends_at_blank(a),
        ends_outside_comment(a),
        lex(a) is Ok,
        s.take(a.len() as int) == a,
        s[a.len() as int] == '/',
    ensures
        scan(s.take(a.len() + 1 as int)) == Ok::<_, LexError>(
            (Scan { mode: Mode::Operator, start: a.len() as usize }, lex(a)->Ok_0),
        ),
{
    let n = a.len() as int;
    lemma_boundary_mode(a);
    lemma_scan_wf(a);
    let p = s.take(n + 1);
    assert(p.drop_last() =~= a);
    assert(p[n] == '/');
    let (st, ts) = scan(a)->Ok_0;
    assert(p.subrange(st.start as int, n) =~= a.subrange(st.start as int, n));
    assert(p.take(st.start as int) =~= a.take(st.start as int));
    assert(byte_at(p, st.start as int) == byte_at(a, st.start as int));
    assert(finish(a, st) is Ok);
    assert(ts + Seq::<TokenView>::empty() =~= ts);
}

/// A line comment at the start of a line, or after a blank outside any
/// string or comment, adds no token and no error, whatever it holds.
pub proof fn lemma_line_comment_at_blank(a: Seq<char>, x: Seq<char>)
    requires
        ends_at_blank(a),
        ends_outside_comment(a),
        lex(a) is Ok,
        forall|j: int| 0 <= j < x.len() ==> x[j] != '\n',
        a.len() + 2 + x.len() <= usize::MAX,
    ensures
        lex(a + seq!['/', '/'] + x) == lex(a),
{
    let s = a + seq!['/', '/'] + x;
    let n = a.len() as int;
    assert(s.take(n) =~= a);
    assert(s[n] == '/' && s[n + 1] == '/');
    lemma_slash_at_boundary(a, s);
    let p = s.take(n + 2);
    assert(p.drop_last() =~= s.take(n + 1));
    assert(p[n + 1] == '/' && p[n] == '/');
    let ts = lex(a)->Ok_0;
    assert(ts + Seq::<TokenView>::empty() =~= ts);
    let b = n as usize;
    assert(scan(p) == Ok::<_, LexError>((Scan { mode: Mode::LineComment, start: b }, ts)));
    assert forall|j: int| n + 2 <= j < s.len() implies #[trigger] s[j] != '\n' by {
        assert(s[j] == x[j - n - 2]);
    }
    lemma_scan_line_body(s, n + 2, s.len() as int, b, ts);
    assert(s.take(s.len() as int) =~= s);
}

/// A block comment at the start of a line, or after a blank outside any
/// string or comment, adds no token and no error, whatever it holds short
/// of `*/`.
pub proof fn lemma_block_comment_at_blank(a: Seq<char>, x: Seq<char>)
    requires
        ends_at_blank(a),
        ends_outside_comment(a),
        lex(a) is Ok,
        no_comment_end(x),
        a.len() + 4 + x.len() <= usize::MAX,
    ensures
        lex(a + seq!['/', '*'] + x + seq!['*', '/']) == lex(a),
{
    let s = a + seq!['/', '*'] + x + seq!['*', '/'];
    let n = a.len() as int;
    let len = s.len() as int;
    assert(s.take(n) =~= a);
    assert(s[n] == '/' && s[n + 1] == '*');
    lemma_slash_at_boundary(a, s);
    let p = s.take(n + 2);
    assert(p.drop_last() =~= s.take(n + 1));
    assert(p[n + 1] == '*' && p[n] == '/');
    let ts = lex(a)->Ok_0;
    assert(ts + Seq::<TokenView>::empty() =~= ts);
    let b = n as usize;
    assert(scan(p) == Ok::<_, LexError>((Scan { mode: Mode::BlockComment { star: false }, start: b }, ts)));
    assert(s[len - 2] == '*' && s[len - 1] == '/');
    assert forall|j: int| n + 2 <= j < len - 2 implies !(s[j] == '*' && #[trigger] s[j + 1] == '/') by {
        let jj = j - n - 2;
        assert(s[j] == x[jj]);
        if j + 1 < len - 2 {
            assert(s[j + 1] == x[jj + 1]);
            assert(!(x[jj] == '*' && x[jj + 1] == '/'));
        } else {
            assert(s[j + 1] == '*');
        }
    }
    lemma_scan_block_body(s, n + 2, len - 1, b, ts);
    let q = s.take(len);
    assert(q =~= s);
    assert(q.drop_last() =~= s.take(len - 1));
    assert(q[len - 1] == '/');
}

/// The bracket after a call-site name is not taken into the name: it comes
/// out as the next token, an operator at the byte after the name.
pub proof fn lemma_call_bracket_follows(w: Seq<char>, c: char, rest: Seq<char>)
    requires
        is_identifier_spelling(w),
        is_call_bracket(c),
        w.len() + 1 + rest.len() <= usize::MAX,
    ensures
        lex(w + seq![c] + rest) matches Ok(ts) ==> ts.len() > 1 && ts[1] == (TokenView::Operator {
            payload: seq![c],
            pos: encode_utf8(w).len(),
        }),
{
    let s = w + seq![c] + rest;
    let m = w.len() as int;
    assert(s[0] == w[0]);
    assert forall|j: int| 1 <= j < m implies continues_identifier(#[trigger] s[j]) by {
        assert(s[j] == w[j]);
    }
    lemma_scan_name(s, m);
    let p = s.take(m + 1);
    assert(p.drop_last() =~= s.take(m));
    assert(p[m] == c);
    assert(p.subrange(0, m) =~= w);
    assert(p.take(0) =~= Seq::<char>::empty());
    assert(p.take(m) =~= w);
    let op = TokenView::Operator { payload: seq![c], pos: encode_utf8(w).len() };
    if let Ok(ts) = lex(s) {
        if let Ok((_, pts)) = scan(p) {
            assert(pts =~= seq![name_token(w, Some(c))]);
            let opst = Scan { mode: Mode::Operator, start: m as usize };
            assert(scan(p) == Ok::<_, LexError>((opst, pts)));
            assert(s.take(m) =~= w);
            assert(byte_at(s, m) == encode_utf8(w).len());
            if rest.len() == 0 {
                assert(p =~= s);
                assert(s.subrange(m, s.len() as int) =~= seq![c]);
                assert(ts =~= pts + seq![op]);
            } else {
                let p2 = s.take(m + 2);
                assert(p2.drop_last() =~= p);
                assert(p2[m] == c);
                assert(p2.subrange(m, m + 1) =~= seq![c]);
                assert(p2.take(m) =~= w);
                if let Ok((_, qts)) = scan(p2) {
                    assert(qts =~= pts + seq![op]);
                    lemma_scan_tokens_kept(s, m + 2);
                    assert(s.take(m + 2) == p2);
                    if let Ok((st, sts)) = scan(s) {
                        assert(sts.take(2)[1] == sts[1]);
                        assert(ts[1] == sts[1]);
                    }
                } else {
                    lemma_scan_err_extends(s, m + 2);
                    assert(s.take(m + 2) == p2);
                }
            }
        } else {
            lemma_scan_err_extends(s, m + 1);
            assert(s.take(m + 1) == p);
        }
    }
}

} // verus!
