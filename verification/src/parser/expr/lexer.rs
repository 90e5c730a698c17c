//! Tokens of an expression, read by hand: the longest token wins, a word
//! that is also an operator (`and`, `or`, `not`) is the operator, and blanks
//! (spaces and tabs) only separate tokens.

use vstd::prelude::*;

use crate::parser::diagnostic::{kind_message, plain, reported, DiagnosticKind, Diagnostics, Report};
use crate::parser::{Span, Spanned};
use crate::text;

verus! {

broadcast use vstd::seq_lib::group_seq_properties;

/// What no token matched. Reported by [`lex`], which holds the source and can
/// therefore quote the offending text; the variants carry nothing themselves.
#[derive(Debug, Clone, Default, PartialEq, Eq, Structural)]
pub enum LexError {
    #[default]
    UnknownCharacter,
    /// Digits that do not make a number: `1..2`.
    InvalidNumber,
}

/// A token of an expression.
#[derive(Debug, Clone, PartialEq)]
pub enum Token {
    /// Variable name: `$gold`, without its `$`.
    Var(String),
    /// Attr of Dictionnary: `.attr`
    Attr(String),
    /// Function or command, without its `(`.
    Func(String),
    /// Identifier `true`, `false` or a bare word
    Ident(String),
    /// A number with a decimal point, as written: `0.5`, `12.`.
    Float(String),
    Int(i64),
    /// A string literal, its quotes gone and its escapes undone.
    Str(String),
    Eq,
    Ne,
    Lt,
    Le,
    Gt,
    Ge,
    And,
    Or,
    Not,
    Plus,
    Minus,
    Star,
    Slash,
    Assign,
    LParen,
    RParen,
    LBrace,
    RBrace,
    Separator,
    Colon,
    /// A string with no closing quote. Kept as a token so that what it holds
    /// is not read again as operators, and turned into a [`Token::Str`] plus a
    /// diagnostic by [`lex`]. Never handed to the parser.
    UnclosedStr(String),
    /// `$` with no name after it. Reported by [`lex`], never handed to the
    /// parser either.
    BareDollar,
}

/// What a [`Token`] holds, its texts seen as characters.
pub enum TokenView {
    Var(Seq<char>),
    Attr(Seq<char>),
    Func(Seq<char>),
    Ident(Seq<char>),
    Float(Seq<char>),
    Int(int),
    Str(Seq<char>),
    Eq,
    Ne,
    Lt,
    Le,
    Gt,
    Ge,
    And,
    Or,
    Not,
    Plus,
    Minus,
    Star,
    Slash,
    Assign,
    LParen,
    RParen,
    LBrace,
    RBrace,
    Separator,
    Colon,
    UnclosedStr(Seq<char>),
    BareDollar,
}

impl Token {
    /// What the token holds.
    pub open spec fn view(self) -> TokenView {
        match self {
            Token::Var(s) => TokenView::Var(s@),
            Token::Attr(s) => TokenView::Attr(s@),
            Token::Func(s) => TokenView::Func(s@),
            Token::Ident(s) => TokenView::Ident(s@),
            Token::Float(s) => TokenView::Float(s@),
            Token::Int(n) => TokenView::Int(n as int),
            Token::Str(s) => TokenView::Str(s@),
            Token::Eq => TokenView::Eq,
            Token::Ne => TokenView::Ne,
            Token::Lt => TokenView::Lt,
            Token::Le => TokenView::Le,
            Token::Gt => TokenView::Gt,
            Token::Ge => TokenView::Ge,
            Token::And => TokenView::And,
            Token::Or => TokenView::Or,
            Token::Not => TokenView::Not,
            Token::Plus => TokenView::Plus,
            Token::Minus => TokenView::Minus,
            Token::Star => TokenView::Star,
            Token::Slash => TokenView::Slash,
            Token::Assign => TokenView::Assign,
            Token::LParen => TokenView::LParen,
            Token::RParen => TokenView::RParen,
            Token::LBrace => TokenView::LBrace,
            Token::RBrace => TokenView::RBrace,
            Token::Separator => TokenView::Separator,
            Token::Colon => TokenView::Colon,
            Token::UnclosedStr(s) => TokenView::UnclosedStr(s@),
            Token::BareDollar => TokenView::BareDollar,
        }
    }
}

/// Number of characters of `t`, from its start, that `p` accepts.
pub open spec fn run(t: Seq<char>, p: spec_fn(char) -> bool) -> nat
    decreases t.len(),
{
    if t.len() > 0 && p(t[0]) {
        1 + run(t.drop_first(), p)
    } else {
        0
    }
}

/// [`run`] stops on the first character `p` refuses.
pub proof fn lemma_run(t: Seq<char>, p: spec_fn(char) -> bool, k: int)
    requires
        0 <= k <= t.len(),
        forall|i: int| 0 <= i < k ==> p(#[trigger] t[i]),
        k == t.len() || !p(t[k]),
    ensures
        run(t, p) == k,
    decreases k,
{
    if k > 0 {
        assert forall|i: int| 0 <= i < k - 1 implies p(#[trigger] t.drop_first()[i]) by {
            assert(t.drop_first()[i] == t[i + 1]);
        }
        if k < t.len() {
            assert(t.drop_first()[k - 1] == t[k]);
        }
        lemma_run(t.drop_first(), p, k - 1);
    }
}

/// Whether `c` is a digit or a `.`.
pub open spec fn is_num_char(c: char) -> bool {
    text::is_digit(c) || c == '.'
}

/// Number of `.` in `t`.
pub open spec fn dots(t: Seq<char>) -> nat
    decreases t.len(),
{
    if t.len() == 0 {
        0
    } else {
        dots(t.drop_last()) + if t.last() == '.' {
            1nat
        } else {
            0nat
        }
    }
}

/// Value of the decimal digits `t`.
pub open spec fn digits_value(t: Seq<char>) -> int
    decreases t.len(),
{
    if t.len() == 0 {
        0
    } else {
        digits_value(t.drop_last()) * 10 + (t.last() as int - '0' as int)
    }
}

/// Position right after the body of a string literal starting at `j`: what
/// is neither a quote nor a backslash, or a backslash and the character
/// after it, unless that is an end of line.
pub open spec fn str_run(s: Seq<char>, j: int) -> int
    decreases s.len() - j,
{
    if j < 0 || j >= s.len() {
        j
    } else if s[j] == '"' {
        j
    } else if s[j] == '\\' {
        if j + 1 < s.len() && s[j + 1] != '\n' {
            str_run(s, j + 2)
        } else {
            j
        }
    } else {
        str_run(s, j + 1)
    }
}

/// `t` with `\\` and `\"` turned back into the character they stand for; a
/// trailing lone backslash is dropped.
pub open spec fn unescape_spec(t: Seq<char>) -> Seq<char>
    decreases t.len(),
{
    if t.len() == 0 {
        Seq::empty()
    } else if t[0] == '\\' {
        if t.len() >= 2 {
            seq![t[1]] + unescape_spec(t.skip(2))
        } else {
            Seq::empty()
        }
    } else {
        seq![t[0]] + unescape_spec(t.skip(1))
    }
}

/// What starts at `i`: a token and its length in characters, digits that do
/// not make a number, or a character that starts no token.
pub enum Lexeme {
    Tok(TokenView, int),
    BadNumber(int),
    Unknown,
}

/// The word at `i`, and whether a `(` follows it.
pub open spec fn word_at(s: Seq<char>, i: int) -> Lexeme {
    let n = run(s.skip(i), |c: char| text::is_ident_char(c)) as int;
    let w = s.subrange(i, i + n);
    if i + n < s.len() && s[i + n] == '(' {
        Lexeme::Tok(TokenView::Func(w), n + 1)
    } else if w == seq!['a', 'n', 'd'] {
        Lexeme::Tok(TokenView::And, n)
    } else if w == seq!['o', 'r'] {
        Lexeme::Tok(TokenView::Or, n)
    } else if w == seq!['n', 'o', 't'] {
        Lexeme::Tok(TokenView::Not, n)
    } else {
        Lexeme::Tok(TokenView::Ident(w), n)
    }
}

/// The number at `i`: a float when a `.` follows its digits, else an int.
pub open spec fn number_at(s: Seq<char>, i: int) -> Lexeme {
    let d = run(s.skip(i), |c: char| text::is_digit(c)) as int;
    let m = run(s.skip(i), |c: char| is_num_char(c)) as int;
    if m > d {
        if dots(s.subrange(i, i + m)) == 1 {
            Lexeme::Tok(TokenView::Float(s.subrange(i, i + m)), m)
        } else {
            Lexeme::BadNumber(m)
        }
    } else if digits_value(s.subrange(i, i + d)) <= i64::MAX {
        Lexeme::Tok(TokenView::Int(digits_value(s.subrange(i, i + d))), d)
    } else {
        Lexeme::BadNumber(d)
    }
}

/// The string literal at `i`, closed or not.
pub open spec fn string_at(s: Seq<char>, i: int) -> Lexeme {
    let e = str_run(s, i + 1);
    if e < s.len() && s[e] == '"' {
        Lexeme::Tok(TokenView::Str(unescape_spec(s.subrange(i + 1, e))), e + 1 - i)
    } else if e < s.len() {
        Lexeme::Tok(TokenView::UnclosedStr(unescape_spec(s.subrange(i + 1, e + 1))), e + 1 - i)
    } else {
        Lexeme::Tok(TokenView::UnclosedStr(unescape_spec(s.subrange(i + 1, e))), e - i)
    }
}

/// The name after the sigil at `i`, as `make` turns it into a token, or
/// `other` when no name follows.
pub open spec fn sigil_at(s: Seq<char>, i: int, var: bool) -> Lexeme {
    if i + 1 < s.len() && text::is_ident_start(s[i + 1]) {
        let n = run(s.skip(i + 1), |c: char| text::is_ident_char(c)) as int;
        let w = s.subrange(i + 1, i + 1 + n);
        Lexeme::Tok(
            if var {
                TokenView::Var(w)
            } else {
                TokenView::Attr(w)
            },
            n + 1,
        )
    } else if var {
        Lexeme::Tok(TokenView::BareDollar, 1)
    } else {
        Lexeme::Unknown
    }
}

/// An operator of one character, or of two when `second` follows it.
pub open spec fn pair_at(s: Seq<char>, i: int, second: char, long: TokenView, short: TokenView) -> Lexeme {
    if i + 1 < s.len() && s[i + 1] == second {
        Lexeme::Tok(long, 2)
    } else {
        Lexeme::Tok(short, 1)
    }
}

/// What starts at `i`, which is not a blank.
#[verifier::opaque]
pub open spec fn lexeme_at(s: Seq<char>, i: int) -> Lexeme {
    let c = s[i];
    if c == '$' {
        sigil_at(s, i, true)
    } else if c == '.' {
        sigil_at(s, i, false)
    } else if text::is_ident_start(c) {
        word_at(s, i)
    } else if text::is_digit(c) {
        number_at(s, i)
    } else if c == '"' {
        string_at(s, i)
    } else if c == '=' {
        pair_at(s, i, '=', TokenView::Eq, TokenView::Assign)
    } else if c == '!' {
        pair_at(s, i, '=', TokenView::Ne, TokenView::Not)
    } else if c == '<' {
        pair_at(s, i, '=', TokenView::Le, TokenView::Lt)
    } else if c == '>' {
        pair_at(s, i, '=', TokenView::Ge, TokenView::Gt)
    } else if c == '&' && i + 1 < s.len() && s[i + 1] == '&' {
        Lexeme::Tok(TokenView::And, 2)
    } else if c == '|' && i + 1 < s.len() && s[i + 1] == '|' {
        Lexeme::Tok(TokenView::Or, 2)
    } else if c == '+' {
        Lexeme::Tok(TokenView::Plus, 1)
    } else if c == '-' {
        Lexeme::Tok(TokenView::Minus, 1)
    } else if c == '*' {
        Lexeme::Tok(TokenView::Star, 1)
    } else if c == '/' {
        Lexeme::Tok(TokenView::Slash, 1)
    } else if c == '(' {
        Lexeme::Tok(TokenView::LParen, 1)
    } else if c == ')' {
        Lexeme::Tok(TokenView::RParen, 1)
    } else if c == '{' {
        Lexeme::Tok(TokenView::LBrace, 1)
    } else if c == '}' {
        Lexeme::Tok(TokenView::RBrace, 1)
    } else if c == ',' {
        Lexeme::Tok(TokenView::Separator, 1)
    } else if c == ':' {
        Lexeme::Tok(TokenView::Colon, 1)
    } else {
        Lexeme::Unknown
    }
}

/// Number of characters the lexeme at `i` takes: at least one, and no more
/// than are left.
pub open spec fn lexeme_len(s: Seq<char>, i: int) -> int {
    let n = match lexeme_at(s, i) {
        Lexeme::Tok(_, n) => n,
        Lexeme::BadNumber(n) => n,
        Lexeme::Unknown => 1,
    };
    if n < 1 {
        1
    } else if n > s.len() - i {
        s.len() - i
    } else {
        n
    }
}

/// Bytes of the characters `a..b` of a text standing at byte `base`.
pub open spec fn byte_span(s: Seq<char>, base: int, a: int, b: int) -> Span {
    Span {
        start: (base + text::blen(s.take(a))) as usize,
        end: (base + text::blen(s.take(b))) as usize,
    }
}

/// The token the lexeme at `i` gives, if any, and what it is reported for,
/// `s` standing at byte `base`.
pub open spec fn lex_here(s: Seq<char>, base: int, i: int) -> (Seq<(TokenView, Span)>, Seq<Report>) {
    let n = lexeme_len(s, i);
    let span = byte_span(s, base, i, i + n);
    match lexeme_at(s, i) {
        Lexeme::Tok(TokenView::UnclosedStr(t), _) => (
            seq![(TokenView::Str(t), span)],
            seq![plain(span, DiagnosticKind::UnterminatedString)],
        ),
        Lexeme::Tok(TokenView::BareDollar, _) => (
            Seq::empty(),
            seq![plain(span, DiagnosticKind::EmptyVariableName)],
        ),
        Lexeme::Tok(t, _) => (seq![(t, span)], Seq::empty()),
        Lexeme::BadNumber(_) => (
            Seq::empty(),
            seq![
                (
                    span,
                    "invalid-number"@,
                    "`"@ + s.subrange(i, i + n)
                        + "` is an invalid number, expected digits with at most one `.`"@,
                    Seq::empty(),
                ),
            ],
        ),
        Lexeme::Unknown => (
            Seq::empty(),
            seq![plain(span, DiagnosticKind::UnknownExpressionCharacter(s[i]))],
        ),
    }
}

/// The tokens of `s` from `i` on, and what they are reported for, `s`
/// standing at byte `base`.
pub open spec fn lex_from(s: Seq<char>, base: int, i: int) -> (Seq<(TokenView, Span)>, Seq<Report>)
    decreases s.len() - i,
{
    if i < 0 || i >= s.len() {
        (Seq::empty(), Seq::empty())
    } else if s[i] == ' ' || s[i] == '\t' {
        lex_from(s, base, i + 1)
    } else {
        let here = lex_here(s, base, i);
        let rest = lex_from(s, base, i + lexeme_len(s, i));
        (here.0 + rest.0, here.1 + rest.1)
    }
}

/// Characters `cs[j..]` that may continue an identifier.
fn ident_run(cs: &Vec<char>, j: usize) -> (r: usize)
    requires
        j <= cs@.len(),
    ensures
        r == run(cs@.skip(j as int), |c: char| text::is_ident_char(c)),
        j + r <= cs@.len(),
{
    let mut k = j;
    while k < cs.len() && text::ident_char(cs[k])
        invariant
            j <= k <= cs@.len(),
            forall|i: int| j <= i < k ==> text::is_ident_char(#[trigger] cs@[i]),
        decreases cs@.len() - k,
    {
        k = k + 1;
    }
    proof {
        let t = cs@.skip(j as int);
        assert forall|i: int| 0 <= i < k - j implies (|c: char| text::is_ident_char(c))(
            #[trigger] t[i],
        ) by {
            assert(t[i] == cs@[j + i]);
        }
        if k < cs@.len() {
            assert(t[k - j] == cs@[k as int]);
        }
        lemma_run(t, |c: char| text::is_ident_char(c), k - j);
    }
    k - j
}

/// Digits at the start of `cs[j..]`.
fn digit_run(cs: &Vec<char>, j: usize) -> (r: usize)
    requires
        j <= cs@.len(),
    ensures
        r == run(cs@.skip(j as int), |c: char| text::is_digit(c)),
        j + r <= cs@.len(),
{
    let mut k = j;
    while k < cs.len() && text::digit(cs[k])
        invariant
            j <= k <= cs@.len(),
            forall|i: int| j <= i < k ==> text::is_digit(#[trigger] cs@[i]),
        decreases cs@.len() - k,
    {
        k = k + 1;
    }
    proof {
        let t = cs@.skip(j as int);
        assert forall|i: int| 0 <= i < k - j implies (|c: char| text::is_digit(c))(#[trigger] t[i]) by {
            assert(t[i] == cs@[j + i]);
        }
        if k < cs@.len() {
            assert(t[k - j] == cs@[k as int]);
        }
        lemma_run(t, |c: char| text::is_digit(c), k - j);
    }
    k - j
}

/// Digits and `.` at the start of `cs[j..]`.
fn number_run(cs: &Vec<char>, j: usize) -> (r: usize)
    requires
        j <= cs@.len(),
    ensures
        r == run(cs@.skip(j as int), |c: char| is_num_char(c)),
        j + r <= cs@.len(),
{
    let mut k = j;
    while k < cs.len() && (text::digit(cs[k]) || cs[k] == '.')
        invariant
            j <= k <= cs@.len(),
            forall|i: int| j <= i < k ==> is_num_char(#[trigger] cs@[i]),
        decreases cs@.len() - k,
    {
        k = k + 1;
    }
    proof {
        let t = cs@.skip(j as int);
        assert forall|i: int| 0 <= i < k - j implies (|c: char| is_num_char(c))(#[trigger] t[i]) by {
            assert(t[i] == cs@[j + i]);
        }
        if k < cs@.len() {
            assert(t[k - j] == cs@[k as int]);
        }
        lemma_run(t, |c: char| is_num_char(c), k - j);
    }
    k - j
}

/// Whether `cs[a..b]` holds exactly one `.`.
fn one_dot(cs: &Vec<char>, a: usize, b: usize) -> (r: bool)
    requires
        a <= b <= cs@.len(),
    ensures
        r == (dots(cs@.subrange(a as int, b as int)) == 1),
{
    let mut n: usize = 0;
    let mut k = a;
    proof {
        assert(cs@.subrange(a as int, a as int) =~= Seq::<char>::empty());
    }
    while k < b
        invariant
            a <= k <= b <= cs@.len(),
            n == dots(cs@.subrange(a as int, k as int)),
            n <= k - a,
        decreases b - k,
    {
        proof {
            assert(cs@.subrange(a as int, k + 1).drop_last() =~= cs@.subrange(a as int, k as int));
        }
        if cs[k] == '.' {
            n = n + 1;
        }
        k = k + 1;
    }
    n == 1
}

/// Value of the digits `cs[a..b]`, if it fits in an `i64`.
fn parse_int(cs: &Vec<char>, a: usize, b: usize) -> (r: Option<i64>)
    requires
        a <= b <= cs@.len(),
        forall|i: int| a <= i < b ==> text::is_digit(#[trigger] cs@[i]),
    ensures
        match r {
            Some(v) => v == digits_value(cs@.subrange(a as int, b as int)),
            None => digits_value(cs@.subrange(a as int, b as int)) > i64::MAX,
        },
{
    let mut v: i64 = 0;
    let mut k = a;
    proof {
        assert(cs@.subrange(a as int, a as int) =~= Seq::<char>::empty());
    }
    while k < b
        invariant
            a <= k <= b <= cs@.len(),
            forall|i: int| a <= i < b ==> text::is_digit(#[trigger] cs@[i]),
            v == digits_value(cs@.subrange(a as int, k as int)),
            v >= 0,
        decreases b - k,
    {
        proof {
            assert(cs@.subrange(a as int, k + 1).drop_last() =~= cs@.subrange(a as int, k as int));
            assert(text::is_digit(cs@[k as int]));
        }
        let d = (cs[k] as u32 - '0' as u32) as i64;
        if v > (i64::MAX - d) / 10 {
            proof {
                lemma_digits_value_grows(cs@.subrange(a as int, b as int), (k - a) as int);
                assert(cs@.subrange(a as int, b as int).take(k + 1 - a) =~= cs@.subrange(
                    a as int,
                    k + 1,
                ));
                assert(v * 10 + d > i64::MAX) by (nonlinear_arith)
                    requires
                        v > (i64::MAX - d) / 10,
                        0 <= d <= 9,
                ;
            }
            return None;
        }
        proof {
            assert(v * 10 + d <= i64::MAX) by (nonlinear_arith)
                requires
                    v <= (i64::MAX - d) / 10,
                    0 <= d <= 9,
                    v >= 0,
            ;
        }
        v = v * 10 + d;
        k = k + 1;
    }
    Some(v)
}

/// The value of digits never shrinks as digits are added.
proof fn lemma_digits_value_grows(t: Seq<char>, k: int)
    requires
        0 <= k < t.len(),
        forall|i: int| 0 <= i < t.len() ==> text::is_digit(#[trigger] t[i]),
    ensures
        digits_value(t.take(k + 1)) <= digits_value(t),
        digits_value(t.take(k + 1)) >= 0,
    decreases t.len() - k,
{
    lemma_digits_value_nonneg(t.take(k + 1));
    if k + 1 < t.len() {
        lemma_digits_value_grows(t, k + 1);
        assert(t.take(k + 2).drop_last() =~= t.take(k + 1));
        lemma_digits_value_nonneg(t.take(k + 2));
    } else {
        assert(t.take(k + 1) =~= t);
    }
}

/// Digits have a value of zero or more.
proof fn lemma_digits_value_nonneg(t: Seq<char>)
    requires
        forall|i: int| 0 <= i < t.len() ==> text::is_digit(#[trigger] t[i]),
    ensures
        digits_value(t) >= 0,
    decreases t.len(),
{
    if t.len() > 0 {
        assert forall|i: int| 0 <= i < t.drop_last().len() implies text::is_digit(
            #[trigger] t.drop_last()[i],
        ) by {
            assert(t.drop_last()[i] == t[i]);
        }
        lemma_digits_value_nonneg(t.drop_last());
        assert(text::is_digit(t[t.len() - 1]));
    }
}

/// Position right after the body of a string literal starting at `j`.
fn str_end(cs: &Vec<char>, j: usize) -> (r: usize)
    requires
        j <= cs@.len(),
    ensures
        r == str_run(cs@, j as int),
        j <= r <= cs@.len(),
{
    let n = cs.len();
    let mut k = j;
    while k < n && cs[k] != '"'
        invariant
            j <= k <= n,
            n == cs@.len(),
            str_run(cs@, j as int) == str_run(cs@, k as int),
        decreases n - k,
    {
        if cs[k] == '\\' {
            if k + 1 < n && cs[k + 1] != '\n' {
                k = k + 2;
            } else {
                return k;
            }
        } else {
            k = k + 1;
        }
    }
    k
}

/// `cs[a..b]` with `\\` and `\"` turned back into the character they stand
/// for; a trailing lone backslash is dropped.
fn unescape(cs: &Vec<char>, a: usize, b: usize) -> (r: String)
    requires
        a <= b <= cs@.len(),
    ensures
        r@ == unescape_spec(cs@.subrange(a as int, b as int)),
{
    let mut out = String::new();
    let mut k = a;
    proof {
        assert(Seq::<char>::empty() + unescape_spec(cs@.subrange(a as int, b as int))
            =~= unescape_spec(cs@.subrange(a as int, b as int)));
    }
    while k < b
        invariant
            a <= k <= b <= cs@.len(),
            out@ + unescape_spec(cs@.subrange(k as int, b as int)) == unescape_spec(
                cs@.subrange(a as int, b as int),
            ),
        decreases b - k,
    {
        let ghost t = cs@.subrange(k as int, b as int);
        if cs[k] == '\\' {
            if k + 1 < b {
                let ghost prev = out@;
                text::push_char(&mut out, cs[k + 1]);
                proof {
                    assert(t.skip(2) =~= cs@.subrange(k + 2, b as int));
                    assert(prev + (seq![t[1]] + unescape_spec(t.skip(2))) =~= prev.push(cs@[k + 1])
                        + unescape_spec(cs@.subrange(k + 2, b as int)));
                }
                k = k + 2;
            } else {
                proof {
                    assert(out@ + Seq::<char>::empty() =~= out@);
                    assert(cs@.subrange(b as int, b as int) =~= Seq::<char>::empty());
                }
                k = b;
            }
        } else {
            let ghost prev = out@;
            text::push_char(&mut out, cs[k]);
            proof {
                assert(t.skip(1) =~= cs@.subrange(k + 1, b as int));
                assert(prev + (seq![t[0]] + unescape_spec(t.skip(1))) =~= prev.push(cs@[k as int])
                    + unescape_spec(cs@.subrange(k + 1, b as int)));
            }
            k = k + 1;
        }
    }
    proof {
        assert(cs@.subrange(b as int, b as int) =~= Seq::<char>::empty());
        assert(out@ + Seq::<char>::empty() =~= out@);
    }
    out
}

/// What starts a token, as the executable lexer sees it.
enum Lex {
    Tok(Token),
    BadNumber,
    Unknown,
}

/// What a [`Lex`] of `n` characters stands for.
spec fn lex_view(l: Lex, n: usize) -> Lexeme {
    match l {
        Lex::Tok(t) => Lexeme::Tok(t.view(), n as int),
        Lex::BadNumber => Lexeme::BadNumber(n as int),
        Lex::Unknown => Lexeme::Unknown,
    }
}

/// The name after the sigil at `i`.
fn lex_sigil(cs: &Vec<char>, i: usize, var: bool) -> (r: (Lex, usize))
    requires
        cs@.len() <= usize::MAX,
        i < cs@.len(),
    ensures
        lex_view(r.0, r.1) == sigil_at(cs@, i as int, var),
        1 <= r.1 <= cs@.len() - i,
        r.0 is Unknown ==> r.1 == 1,
{
    if i + 1 < cs.len() && text::ident_start(cs[i + 1]) {
        let n = ident_run(cs, i + 1);
        proof {
            assert(cs@.skip(i + 1)[0] == cs@[i + 1]);
            lemma_run_positive(cs@.skip(i + 1), |c: char| text::is_ident_char(c));
        }
        let w = text::collect(cs, i + 1, i + 1 + n);
        if var {
            (Lex::Tok(Token::Var(w)), n + 1)
        } else {
            (Lex::Tok(Token::Attr(w)), n + 1)
        }
    } else if var {
        (Lex::Tok(Token::BareDollar), 1)
    } else {
        (Lex::Unknown, 1)
    }
}

/// The characters of a sub-range are those of the whole.
proof fn lemma_sub_index(s: Seq<char>, a: int, b: int, k: int)
    requires
        0 <= a <= b <= s.len(),
        0 <= k < b - a,
    ensures
        s.subrange(a, b)[k] == s[a + k],
        s.subrange(a, b).len() == b - a,
{
}

/// A run that starts with an accepted character is not empty.
proof fn lemma_run_positive(t: Seq<char>, p: spec_fn(char) -> bool)
    requires
        t.len() > 0,
        p(t[0]),
    ensures
        run(t, p) >= 1,
{
}

/// The word at `i`, which starts an identifier.
fn lex_word(cs: &Vec<char>, i: usize) -> (r: (Lex, usize))
    requires
        cs@.len() <= usize::MAX,
        i < cs@.len(),
        text::is_ident_start(cs@[i as int]),
    ensures
        lex_view(r.0, r.1) == word_at(cs@, i as int),
        1 <= r.1 <= cs@.len() - i,
{
    let n = ident_run(cs, i);
    proof {
        assert(cs@.skip(i as int)[0] == cs@[i as int]);
        lemma_run_positive(cs@.skip(i as int), |c: char| text::is_ident_char(c));
    }
    let ghost w = cs@.subrange(i as int, i + n);
    if i + n < cs.len() && cs[i + n] == '(' {
        return (Lex::Tok(Token::Func(text::collect(cs, i, i + n))), n + 1);
    }
    if n == 3 && cs[i] == 'a' && cs[i + 1] == 'n' && cs[i + 2] == 'd' {
        proof {
            assert(w =~= seq!['a', 'n', 'd']);
        }
        return (Lex::Tok(Token::And), n);
    }
    if n == 2 && cs[i] == 'o' && cs[i + 1] == 'r' {
        proof {
            assert(w =~= seq!['o', 'r']);
        }
        return (Lex::Tok(Token::Or), n);
    }
    if n == 3 && cs[i] == 'n' && cs[i + 1] == 'o' && cs[i + 2] == 't' {
        proof {
            assert(w =~= seq!['n', 'o', 't']);
        }
        return (Lex::Tok(Token::Not), n);
    }
    proof {
        if n >= 1 {
            lemma_sub_index(cs@, i as int, i + n, 0);
        }
        if n >= 2 {
            lemma_sub_index(cs@, i as int, i + n, 1);
        }
        if n >= 3 {
            lemma_sub_index(cs@, i as int, i + n, 2);
        }
        if w == seq!['a', 'n', 'd'] {
            assert(w[0] == 'a' && w[1] == 'n' && w[2] == 'd');
        }
        if w == seq!['o', 'r'] {
            assert(w[0] == 'o' && w[1] == 'r');
        }
        if w == seq!['n', 'o', 't'] {
            assert(w[0] == 'n' && w[1] == 'o' && w[2] == 't');
        }
    }
    (Lex::Tok(Token::Ident(text::collect(cs, i, i + n))), n)
}

/// The number at `i`, which is a digit.
fn lex_number(cs: &Vec<char>, i: usize) -> (r: (Lex, usize))
    requires
        cs@.len() <= usize::MAX,
        i < cs@.len(),
        text::is_digit(cs@[i as int]),
    ensures
        lex_view(r.0, r.1) == number_at(cs@, i as int),
        1 <= r.1 <= cs@.len() - i,
{
    let d = digit_run(cs, i);
    let m = number_run(cs, i);
    proof {
        assert(cs@.skip(i as int)[0] == cs@[i as int]);
        lemma_run_positive(cs@.skip(i as int), |c: char| text::is_digit(c));
        lemma_run_positive(cs@.skip(i as int), |c: char| is_num_char(c));
    }
    if m > d {
        if one_dot(cs, i, i + m) {
            (Lex::Tok(Token::Float(text::collect(cs, i, i + m))), m)
        } else {
            (Lex::BadNumber, m)
        }
    } else {
        proof {
            assert forall|k: int| i <= k < i + d implies text::is_digit(#[trigger] cs@[k]) by {
                lemma_run_prefix(cs@.skip(i as int), |c: char| text::is_digit(c), k - i);
                assert(cs@.skip(i as int)[k - i] == cs@[k]);
            }
        }
        match parse_int(cs, i, i + d) {
            Some(v) => (Lex::Tok(Token::Int(v)), d),
            None => (Lex::BadNumber, d),
        }
    }
}

/// A run is no longer than what it runs over.
proof fn lemma_run_le(t: Seq<char>, p: spec_fn(char) -> bool)
    ensures
        run(t, p) <= t.len(),
    decreases t.len(),
{
    if t.len() > 0 && p(t[0]) {
        lemma_run_le(t.drop_first(), p);
    }
}

/// Every character of a run is accepted.
proof fn lemma_run_prefix(t: Seq<char>, p: spec_fn(char) -> bool, k: int)
    requires
        0 <= k < run(t, p),
    ensures
        p(t[k]),
    decreases k,
{
    lemma_run_le(t, p);
    if k > 0 {
        lemma_run_prefix(t.drop_first(), p, k - 1);
        assert(t.drop_first()[k - 1] == t[k]);
    }
}

/// The string literal at `i`, which is a `"`.
fn lex_string(cs: &Vec<char>, i: usize) -> (r: (Lex, usize))
    requires
        cs@.len() <= usize::MAX,
        i < cs@.len(),
        cs@[i as int] == '"',
    ensures
        lex_view(r.0, r.1) == string_at(cs@, i as int),
        1 <= r.1 <= cs@.len() - i,
{
    let n = cs.len();
    let e = str_end(cs, i + 1);
    if e < n && cs[e] == '"' {
        (Lex::Tok(Token::Str(unescape(cs, i + 1, e))), e + 1 - i)
    } else if e < n {
        (Lex::Tok(Token::UnclosedStr(unescape(cs, i + 1, e + 1))), e + 1 - i)
    } else {
        (Lex::Tok(Token::UnclosedStr(unescape(cs, i + 1, e))), e - i)
    }
}

/// An operator of one character, or of two when `second` follows it.
fn lex_pair(cs: &Vec<char>, i: usize, second: char, long: Token, short: Token) -> (r: (Lex, usize))
    requires
        i < cs@.len(),
        cs@.len() <= usize::MAX,
    ensures
        lex_view(r.0, r.1) == pair_at(cs@, i as int, second, long.view(), short.view()),
        1 <= r.1 <= cs@.len() - i,
{
    if i + 1 < cs.len() && cs[i + 1] == second {
        (Lex::Tok(long), 2)
    } else {
        (Lex::Tok(short), 1)
    }
}

/// The punctuation at `i`.
fn lex_punct(cs: &Vec<char>, i: usize) -> (r: (Lex, usize))
    requires
        i < cs@.len(),
        cs@.len() <= usize::MAX,
        cs@[i as int] != '$' && cs@[i as int] != '.' && cs@[i as int] != '"',
        !text::is_ident_start(cs@[i as int]),
        !text::is_digit(cs@[i as int]),
    ensures
        lex_view(r.0, r.1) == lexeme_at(cs@, i as int),
        1 <= r.1 <= cs@.len() - i,
        r.0 is Unknown ==> r.1 == 1,
{
    proof {
        reveal(lexeme_at);
    }
    let c = cs[i];
    if c == '=' {
        lex_pair(cs, i, '=', Token::Eq, Token::Assign)
    } else if c == '!' {
        lex_pair(cs, i, '=', Token::Ne, Token::Not)
    } else if c == '<' {
        lex_pair(cs, i, '=', Token::Le, Token::Lt)
    } else if c == '>' {
        lex_pair(cs, i, '=', Token::Ge, Token::Gt)
    } else if c == '&' && i + 1 < cs.len() && cs[i + 1] == '&' {
        (Lex::Tok(Token::And), 2)
    } else if c == '|' && i + 1 < cs.len() && cs[i + 1] == '|' {
        (Lex::Tok(Token::Or), 2)
    } else if c == '+' {
        (Lex::Tok(Token::Plus), 1)
    } else if c == '-' {
        (Lex::Tok(Token::Minus), 1)
    } else if c == '*' {
        (Lex::Tok(Token::Star), 1)
    } else if c == '/' {
        (Lex::Tok(Token::Slash), 1)
    } else if c == '(' {
        (Lex::Tok(Token::LParen), 1)
    } else if c == ')' {
        (Lex::Tok(Token::RParen), 1)
    } else if c == '{' {
        (Lex::Tok(Token::LBrace), 1)
    } else if c == '}' {
        (Lex::Tok(Token::RBrace), 1)
    } else if c == ',' {
        (Lex::Tok(Token::Separator), 1)
    } else if c == ':' {
        (Lex::Tok(Token::Colon), 1)
    } else {
        (Lex::Unknown, 1)
    }
}

/// What starts at `i`, which is not a blank, and how many characters it takes.
fn next_lexeme(cs: &Vec<char>, i: usize) -> (r: (Lex, usize))
    requires
        i < cs@.len(),
        cs@.len() <= usize::MAX,
    ensures
        lex_view(r.0, r.1) == lexeme_at(cs@, i as int),
        1 <= r.1 <= cs@.len() - i,
        r.1 == lexeme_len(cs@, i as int) || r.0 is Unknown,
        r.0 is Unknown ==> r.1 == 1,
{
    proof {
        reveal(lexeme_at);
    }
    let c = cs[i];
    if c == '$' {
        lex_sigil(cs, i, true)
    } else if c == '.' {
        lex_sigil(cs, i, false)
    } else if text::ident_start(c) {
        lex_word(cs, i)
    } else if text::digit(c) {
        lex_number(cs, i)
    } else if c == '"' {
        lex_string(cs, i)
    } else {
        lex_punct(cs, i)
    }
}

/// Tokens and their spans, both of the same length.
#[derive(Debug, Default)]
pub struct Lexed {
    pub tokens: Vec<Spanned<Token>>,
}

/// What the tokens are, and where.
pub open spec fn token_views(ts: Seq<Spanned<Token>>) -> Seq<(TokenView, Span)> {
    ts.map_values(|t: Spanned<Token>| (t.value.view(), t.span))
}

impl Lexed {
    fn push(&mut self, tok: Spanned<Token>)
        ensures
            token_views(final(self).tokens@) == token_views(old(self).tokens@).push(
                (tok.value.view(), tok.span),
            ),
    {
        let ghost prev = self.tokens@;
        self.tokens.push(tok);
        proof {
            vstd::seq::axiom_seq_push_len(prev, tok);
            assert(token_views(self.tokens@) =~= token_views(prev).push((tok.value.view(), tok.span)));
        }
    }
}

/// Reads the lexeme at `i`, which is not a blank, `byte` being its byte
/// offset: pushes its token and reports what it is reported for. Gives its
/// number of characters.
fn lex_step(
    cs: &Vec<char>,
    i: usize,
    base: usize,
    byte: usize,
    out: &mut Lexed,
    diags: &mut Diagnostics,
) -> (r: usize)
    requires
        i < cs@.len(),
        base + text::blen(cs@) <= usize::MAX,
        byte == text::blen(cs@.take(i as int)),
    ensures
        r == lexeme_len(cs@, i as int),
        1 <= r <= cs@.len() - i,
        token_views(final(out).tokens@) == token_views(old(out).tokens@) + lex_here(
            cs@,
            base as int,
            i as int,
        ).0,
        reported(old(diags).items(), final(diags).items(), lex_here(cs@, base as int, i as int).1),
        final(diags).index() == old(diags).index(),
        final(diags).path() == old(diags).path(),
{
    proof {
        text::lemma_blen_ge_len(cs@);
    }
    let (l, n) = next_lexeme(cs, i);
    proof {
        text::lemma_blen_subrange(cs@, i as int, i + n);
        text::lemma_blen_prefix(cs@, i + n);
    }
    let width = text::bytes_between(cs, i, i + n);
    let span = Span::new(base + byte, base + byte + width);
    let ghost here = lex_here(cs@, base as int, i as int);
    let ghost toks = token_views(out.tokens@);
    match l {
        Lex::Tok(Token::UnclosedStr(t)) => {
            diags.report(span, DiagnosticKind::UnterminatedString);
            out.push(Spanned::new(Token::Str(t), span));
        },
        Lex::Tok(Token::BareDollar) => {
            diags.report(span, DiagnosticKind::EmptyVariableName);
            proof {
                assert(token_views(out.tokens@) =~= toks + here.0);
            }
        },
        Lex::Tok(t) => {
            proof {
                crate::parser::diagnostic::lemma_reported_nothing(diags.items());
            }
            out.push(Spanned::new(t, span));
        },
        Lex::BadNumber => {
            let text = text::collect(cs, i, i + n);
            diags.report(span, DiagnosticKind::InvalidNumber(text));
            proof {
                assert(token_views(out.tokens@) =~= toks + here.0);
            }
        },
        Lex::Unknown => {
            diags.report(span, DiagnosticKind::UnknownExpressionCharacter(cs[i]));
            proof {
                assert(token_views(out.tokens@) =~= toks + here.0);
            }
        },
    }
    n
}

/// Reads every token of `src`. What does not lex is reported and skipped: the
/// lexer must not fail any more than the parser does.
pub fn lex(src: &Spanned<&str>, diags: &mut Diagnostics) -> (r: Lexed)
    requires
        src.span.start + text::blen(src.value@) <= usize::MAX,
    ensures
        token_views(r.tokens@) == lex_from(src.value@, src.span.start as int, 0).0,
        reported(
            old(diags).items(),
            final(diags).items(),
            lex_from(src.value@, src.span.start as int, 0).1,
        ),
        final(diags).index() == old(diags).index(),
        final(diags).path() == old(diags).path(),
{
    let cs = text::to_chars(src.value);
    let base = src.span.start;
    let ghost s = cs@;
    let mut out = Lexed { tokens: Vec::new() };
    let mut i: usize = 0;
    let mut byte: usize = 0;
    let ghost mut rep: Seq<Report> = Seq::empty();
    proof {
        assert(s.take(0) =~= Seq::<char>::empty());
        crate::parser::diagnostic::lemma_reported_nothing(diags.items());
        assert(token_views(out.tokens@) =~= Seq::<(TokenView, Span)>::empty());
        assert(Seq::<(TokenView, Span)>::empty() + lex_from(s, base as int, 0).0 =~= lex_from(
            s,
            base as int,
            0,
        ).0);
        assert(Seq::<Report>::empty() + lex_from(s, base as int, 0).1 =~= lex_from(
            s,
            base as int,
            0,
        ).1);
    }
    while i < cs.len()
        invariant
            cs@ == s,
            s == src.value@,
            base == src.span.start,
            base + text::blen(s) <= usize::MAX,
            i <= s.len(),
            byte == text::blen(s.take(i as int)),
            token_views(out.tokens@) + lex_from(s, base as int, i as int).0 == lex_from(
                s,
                base as int,
                0,
            ).0,
            rep + lex_from(s, base as int, i as int).1 == lex_from(s, base as int, 0).1,
            reported(old(diags).items(), diags.items(), rep),
            diags.index() == old(diags).index(),
            diags.path() == old(diags).path(),
        decreases s.len() - i,
    {
        proof {
            text::lemma_blen_prefix(s, i as int);
        }
        if cs[i] == ' ' || cs[i] == '\t' {
            proof {
                text::lemma_blen_push(s.take(i as int), cs[i as int]);
                assert(s.take(i as int).push(s[i as int]) =~= s.take(i + 1));
                text::lemma_blen_prefix(s, i + 1);
            }
            byte = byte + 1;
            i = i + 1;
        } else {
            let ghost before = diags.items();
            let ghost toks = token_views(out.tokens@);
            let ghost here = lex_here(s, base as int, i as int);
            let ghost rest = lex_from(s, base as int, i + lexeme_len(s, i as int));
            let n = lex_step(&cs, i, base, byte, &mut out, diags);
            proof {
                crate::parser::diagnostic::lemma_reported_chain(
                    old(diags).items(),
                    before,
                    diags.items(),
                    rep,
                    here.1,
                );
                vstd::seq_lib::lemma_concat_associative(toks, here.0, rest.0);
                vstd::seq_lib::lemma_concat_associative(rep, here.1, rest.1);
                rep = rep + here.1;
                text::lemma_blen_subrange(s, i as int, i + n);
                text::lemma_blen_prefix(s, i + n);
            }
            byte = byte + text::bytes_between(&cs, i, i + n);
            i = i + n;
        }
    }
    proof {
        assert(token_views(out.tokens@) + Seq::<(TokenView, Span)>::empty() =~= token_views(
            out.tokens@,
        ));
        assert(rep + Seq::<Report>::empty() =~= rep);
    }
    out
}

/// `s` as the `Debug` format of `str` writes it: between double quotes,
/// with its special characters escaped.
pub uninterp spec fn debug_quoted(s: Seq<char>) -> Seq<char>;

/// `s` between double quotes, escaped.
///
/// Trusted: writes `s` with the `Debug` format of `str`, which std defines
/// by the escapes of `char::escape_debug`; the contract names the result
/// [`debug_quoted`], a function of `s` alone, and says nothing more of it.
#[verifier::external_body]
pub(crate) fn debug_string(s: &str) -> (r: String)
    ensures
        r@ == debug_quoted(s@),
{
    format!("{s:?}")
}

/// How a token is written back.
pub open spec fn token_text(t: TokenView) -> Seq<char> {
    match t {
        TokenView::Var(name) => seq!['$'] + name,
        TokenView::Attr(name) => seq!['.'] + name,
        TokenView::Func(name) => name + seq!['('],
        TokenView::Ident(name) => name,
        TokenView::Float(n) => n,
        TokenView::Int(n) => text::signed_decimal(n),
        TokenView::Str(s) => debug_quoted(s),
        TokenView::Eq => seq!['=', '='],
        TokenView::Ne => seq!['!', '='],
        TokenView::Lt => seq!['<'],
        TokenView::Le => seq!['<', '='],
        TokenView::Gt => seq!['>'],
        TokenView::Ge => seq!['>', '='],
        TokenView::And => seq!['a', 'n', 'd'],
        TokenView::Or => seq!['o', 'r'],
        TokenView::Not => seq!['n', 'o', 't'],
        TokenView::Plus => seq!['+'],
        TokenView::Minus => seq!['-'],
        TokenView::Star => seq!['*'],
        TokenView::Slash => seq!['/'],
        TokenView::Assign => seq!['='],
        TokenView::LParen => seq!['('],
        TokenView::RParen => seq![')'],
        TokenView::LBrace => seq!['{'],
        TokenView::RBrace => seq!['}'],
        TokenView::Separator => seq![','],
        TokenView::Colon => seq![':'],
        TokenView::UnclosedStr(s) => seq!['"'] + s,
        TokenView::BareDollar => seq!['$'],
    }
}

/// A new string holding the characters of `cs`.
fn string_of(cs: &[char]) -> (r: String)
    ensures
        r@ == cs@,
{
    let mut out = String::new();
    let mut i: usize = 0;
    while i < cs.len()
        invariant
            i <= cs@.len(),
            out@ == cs@.take(i as int),
        decreases cs@.len() - i,
    {
        text::push_char(&mut out, cs[i]);
        proof {
            assert(cs@.take(i as int).push(cs@[i as int]) =~= cs@.take(i + 1));
        }
        i = i + 1;
    }
    proof {
        assert(cs@.take(i as int) =~= cs@);
    }
    out
}

/// `a` then `b`.
fn joined(a: &[char], b: &str) -> (r: String)
    ensures
        r@ == a@ + b@,
{
    let mut out = string_of(a);
    text::push_str(&mut out, b);
    out
}

impl Token {
    /// How the token is written back: a variable with its `$`, a string
    /// between quotes, an operator by its symbol, a word operator by its
    /// word.
    pub fn to_string(&self) -> (r: String)
        ensures
            r@ == token_text(self.view()),
    {
        match self {
            Token::Var(name) => joined(&['$'], name.as_str()),
            Token::Attr(name) => joined(&['.'], name.as_str()),
            Token::Func(name) => {
                let mut out = text::owned(name.as_str());
                text::push_char(&mut out, '(');
                out
            },
            Token::Ident(name) => text::owned(name.as_str()),
            Token::Float(n) => text::owned(n.as_str()),
            Token::Int(n) => text::i64_to_string(*n),
            Token::Str(s) => debug_string(s.as_str()),
            Token::Eq => string_of(&['=', '=']),
            Token::Ne => string_of(&['!', '=']),
            Token::Lt => string_of(&['<']),
            Token::Le => string_of(&['<', '=']),
            Token::Gt => string_of(&['>']),
            Token::Ge => string_of(&['>', '=']),
            Token::And => string_of(&['a', 'n', 'd']),
            Token::Or => string_of(&['o', 'r']),
            Token::Not => string_of(&['n', 'o', 't']),
            Token::Plus => string_of(&['+']),
            Token::Minus => string_of(&['-']),
            Token::Star => string_of(&['*']),
            Token::Slash => string_of(&['/']),
            Token::Assign => string_of(&['=']),
            Token::LParen => string_of(&['(']),
            Token::RParen => string_of(&[')']),
            Token::LBrace => string_of(&['{']),
            Token::RBrace => string_of(&['}']),
            Token::Separator => string_of(&[',']),
            Token::Colon => string_of(&[':']),
            Token::UnclosedStr(s) => joined(&['"'], s.as_str()),
            Token::BareDollar => string_of(&['$']),
        }
    }
}

} // verus!
