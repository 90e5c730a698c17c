//! Syntax tree produced by the parser, and the pass that builds it out of
//! the lines of a source.
//!
//! Nothing fails: a fault is reported and the statement it sits in is
//! dropped, so that one mistake is reported once and the rest of the file is
//! still read.

use vstd::prelude::*;

use crate::parser::diagnostic::{
    kind_code, kind_message, plain, reported, DiagnosticKind, Diagnostics, Label, Report,
};
use crate::parser::expr::lexer::lex_from;
use crate::parser::expr::pratt::{
    assign_at, parse, attr_names, end_of, p_expr, parse_assignment, parse_reports, parse_trailing,
    parse_with_trailing, text_reading, text_tokens, trailing_spec,
};
use crate::parser::expr::{
    check_spec, expr_view, names_view, sview, value_type_spec, vtype_name, Expr, ExprView, SExpr,
    ValueType,
};
use crate::parser::lines::{
    from_text_view, split_lines, split_spec, tv, LineKind, LineKindView, RawLine, RawLineView,
    TextView,
};
use crate::parser::{join_spec, nl_starts, Span, Spanned};
use crate::text;

verus! {

/// Whether `name` is `[A-Za-z_][A-Za-z0-9_]*`.
pub open spec fn valid_ident(name: Seq<char>) -> bool {
    &&& name.len() > 0
    &&& text::is_ident_start(name[0])
    &&& forall|i: int| 1 <= i < name.len() ==> text::is_ident_char(#[trigger] name[i])
}

/// Whether `name` is `[A-Za-z_][A-Za-z0-9_]*`.
pub fn is_valid_ident(name: &str) -> (r: bool)
    ensures
        r == valid_ident(name@),
{
    let cs = text::to_chars(name);
    if cs.len() == 0 || !text::ident_start(cs[0]) {
        return false;
    }
    let mut i: usize = 1;
    while i < cs.len()
        invariant
            cs@ == name@,
            1 <= i <= cs@.len(),
            forall|k: int| 1 <= k < i ==> text::is_ident_char(#[trigger] cs@[k]),
        decreases cs@.len() - i,
    {
        if !text::ident_char(cs[i]) {
            return false;
        }
        i = i + 1;
    }
    true
}

/// A piece of a line of text: words as written, or an inline expression.
#[derive(Debug)]
pub enum TextPart {
    Text(String),
    Expression(Expr),
}

/// What a [`TextPart`] holds.
pub enum TextPartView {
    Text(Seq<char>),
    Expression(ExprView),
}

/// What a text part holds, and where.
pub open spec fn part_view(p: Spanned<TextPart>) -> (TextPartView, Span) {
    (
        match p.value {
            TextPart::Text(s) => TextPartView::Text(s@),
            TextPart::Expression(e) => TextPartView::Expression(expr_view(e)),
        },
        p.span,
    )
}

/// What the parts of a line hold.
pub open spec fn parts_view(ps: Seq<Spanned<TextPart>>) -> Seq<(TextPartView, Span)> {
    ps.map_values(|p: Spanned<TextPart>| part_view(p))
}

/// The report of a bracketed `marker` that its line never closes.
pub open spec fn unclosed_bracket(span: Span, marker: Seq<char>) -> Report {
    (
        span,
        "unclosed-bracket"@,
        "`"@ + marker + "` is never closed, expected `]` at the end of the line"@,
        Seq::empty(),
    )
}

/// `marker` without the `]` it ends with, as a report names it.
pub open spec fn opening(marker: Seq<char>) -> Seq<char>
    decreases marker.len(),
{
    if marker.len() > 0 && marker.last() == ']' {
        opening(marker.drop_last())
    } else {
        marker
    }
}

/// `marker` without the `]` it ends with.
fn opening_of(marker: &str) -> (r: String)
    ensures
        r@ == opening(marker@),
{
    let cs = text::to_chars(marker);
    let mut n = cs.len();
    proof {
        assert(cs@.take(n as int) =~= marker@);
    }
    while n > 0 && cs[n - 1] == ']'
        invariant
            n <= cs@.len(),
            cs@ == marker@,
            opening(cs@.take(n as int)) == opening(marker@),
        decreases n,
    {
        proof {
            assert(cs@.take(n as int).drop_last() =~= cs@.take(n - 1));
        }
        n = n - 1;
    }
    text::collect(&cs, 0, n)
}

/// Text between a bracketed marker and its `]`, once both ends are trimmed,
/// or the report of the `]` that is missing.
pub open spec fn strip_spec(body: TextView, line_span: Span, marker: Seq<char>) -> (Option<TextView>, Seq<Report>) {
    let t = text::trim_end(body.value);
    if t.len() > 0 && t.last() == ']' {
        (Some(from_text_view(text::trim_end(t.drop_last()), body.span.start as int)), Seq::empty())
    } else {
        (None, seq![unclosed_bracket(line_span, opening(marker))])
    }
}

/// Text between a bracketed marker and its `]`.
pub(crate) fn strip_bracket<'a>(
    body: Spanned<&'a str>,
    line_span: Span,
    marker: &str,
    diags: &mut Diagnostics,
) -> (r: Option<Spanned<&'a str>>)
    requires
        body.span.start + text::blen(body.value@) <= usize::MAX,
    ensures
        crate::parser::lines::opt_tv(r) == strip_spec(tv(body), line_span, marker@).0,
        r is Some ==> r->0.span.start + text::blen(r->0.value@) <= usize::MAX,
        reported(old(diags).items(), final(diags).items(), strip_spec(tv(body), line_span, marker@).1),
        final(diags).index() == old(diags).index(),
        final(diags).path() == old(diags).path(),
{
    proof {
        reveal(from_text_view);
    }
    let t = text::trim_end_str(body.value);
    let cs = text::to_chars(t);
    let n = cs.len();
    if n > 0 && cs[n - 1] == ']' {
        let inner = text::trim_end_str(text::slice(t, 0, n - 1));
        proof {
            assert(t@.drop_last() =~= t@.subrange(0, n - 1));
            text::lemma_trail_shape(body.value@);
            text::lemma_blen_prefix(body.value@, body.value@.len() - text::trail(body.value@));
            text::lemma_trail_shape(t@.drop_last());
            text::lemma_blen_prefix(t@, n - 1);
            text::lemma_blen_prefix(t@.drop_last(), t@.drop_last().len() - text::trail(t@.drop_last()));
            crate::parser::diagnostic::lemma_reported_nothing(diags.items());
        }
        let r = Spanned::from_text(inner, body.span.start);
        proof {
            text::lemma_blen_trim(inner@);
        }
        Some(r)
    } else {
        diags.report(line_span, DiagnosticKind::UnclosedBracket(opening_of(marker)));
        None
    }
}

/// What a marker that takes nothing, such as `[else]` or `[break]`,
/// reports: its missing `]`, or the text before it.
pub open spec fn empty_bracket_spec(body: TextView, line_span: Span, marker: Seq<char>) -> Seq<Report> {
    let st = strip_spec(body, line_span, marker);
    match st.0 {
        None => st.1,
        Some(inner) => if text::trim(inner.value).len() > 0 {
            seq![plain(inner.span, DiagnosticKind::UnexpectedTextInBracket)]
        } else {
            Seq::empty()
        },
    }
}

/// A marker that takes nothing, such as `[else]` or `[break]`.
pub(crate) fn expect_empty_bracket(body: Spanned<&str>, line_span: Span, marker: &str, diags: &mut Diagnostics)
    requires
        body.span.start + text::blen(body.value@) <= usize::MAX,
    ensures
        reported(old(diags).items(), final(diags).items(), empty_bracket_spec(tv(body), line_span, marker@)),
        final(diags).index() == old(diags).index(),
        final(diags).path() == old(diags).path(),
{
    let ghost d0 = diags.items();
    let inner = match strip_bracket(body, line_span, marker, diags) {
        Some(inner) => inner,
        None => {
            return;
        },
    };
    proof {
        reveal(from_text_view);
        text::lemma_blen_trim(inner.value@);
    }
    let trimmed = Spanned::from_text(inner.value, 0);
    if !trimmed.value.is_empty() {
        diags.report(inner.span, DiagnosticKind::UnexpectedTextInBracket);
    } else {
        proof {
            crate::parser::diagnostic::lemma_reported_nothing(diags.items());
        }
    }
    proof {
        assert(Seq::<Report>::empty() + empty_bracket_spec(tv(body), line_span, marker@)
            =~= empty_bracket_spec(tv(body), line_span, marker@));
    }
}

/// The report of a condition of type `t`, which is not a `bool`, at `span`.
pub open spec fn not_a_bool(span: Span, t: ValueType) -> Report {
    (
        span,
        "condition-not-a-bool"@,
        "a condition must be a `bool`, this one is a `"@ + vtype_name(t) + "`"@,
        Seq::empty(),
    )
}

/// The condition of an `[if]`, an `[elif]` or a `[while]`, which must be a
/// `bool`, or a variable or a call whose type is only known at run time.
pub open spec fn condition_spec(body: TextView, line_span: Span, marker: Seq<char>) -> (Option<SExpr>, Seq<Report>) {
    let st = strip_spec(body, line_span, marker);
    match st.0 {
        None => (None, st.1),
        Some(inner) => {
            let e = text_reading(inner).0;
            let reps = parse_reports(inner);
            match parse_trailing(inner) {
                Some(sp) => (None, reps.push(plain(sp, DiagnosticKind::UnexpectedTextInBracket))),
                None => if e.expr is Error {
                    (None, reps)
                } else {
                    match value_type_spec(e.expr) {
                        Some(t) => if t == ValueType::Bool || t == ValueType::Unknown {
                            (Some(e), reps)
                        } else {
                            (None, reps.push(not_a_bool(e.span, t)))
                        },
                        None => (None, reps),
                    }
                },
            }
        },
    }
}

/// The condition of an `[if]`, an `[elif]` or a `[while]`, which must be a
/// `bool`.
pub(crate) fn parse_condition(body: Spanned<&str>, line_span: Span, marker: &str, diags: &mut Diagnostics) -> (r: Option<Spanned<Expr>>)
    requires
        body.span.start + text::blen(body.value@) <= usize::MAX,
    ensures
        match r {
            Some(e) => condition_spec(tv(body), line_span, marker@).0 == Some(sview(e)),
            None => condition_spec(tv(body), line_span, marker@).0 is None,
        },
        reported(old(diags).items(), final(diags).items(), condition_spec(tv(body), line_span, marker@).1),
        final(diags).index() == old(diags).index(),
        final(diags).path() == old(diags).path(),
{
    let ghost d0 = diags.items();
    let inner = match strip_bracket(body, line_span, marker, diags) {
        Some(inner) => inner,
        None => {
            return None;
        },
    };
    let ghost d1 = diags.items();
    let (expr, trailing) = parse_with_trailing(&inner, diags);
    let ghost d2 = diags.items();
    proof {
        crate::parser::diagnostic::lemma_reported_chain(d0, d1, d2, Seq::empty(), parse_reports(tv(inner)));
        assert(Seq::<Report>::empty() + parse_reports(tv(inner)) =~= parse_reports(tv(inner)));
    }
    match trailing {
        Some(span) => {
            diags.report(span, DiagnosticKind::UnexpectedTextInBracket);
            proof {
                crate::parser::diagnostic::lemma_reported_chain(
                    d0,
                    d2,
                    diags.items(),
                    parse_reports(tv(inner)),
                    seq![plain(span, DiagnosticKind::UnexpectedTextInBracket)],
                );
            }
            return None;
        },
        None => {},
    }
    if let Expr::Error = expr.value {
        return None;
    }
    match expr.value.value_type() {
        Some(ValueType::Bool) | Some(ValueType::Unknown) => Some(expr),
        Some(other) => {
            let kind = DiagnosticKind::ConditionIsNotABool(other.to_string());
            diags.report(expr.span, kind);
            proof {
                crate::parser::diagnostic::lemma_reported_chain(
                    d0,
                    d2,
                    diags.items(),
                    parse_reports(tv(inner)),
                    seq![not_a_bool(expr.span, other)],
                );
            }
            None
        },
        None => None,
    }
}

/// One `[if <cond>]` or `[elif <cond>]`, and the block indented under it.
#[derive(Debug)]
pub struct Branch {
    pub condition: Spanned<Expr>,
    pub body: Vec<Stmt>,
    /// From the marker to the last statement of the body.
    pub span: Span,
}

#[derive(Debug)]
pub struct Stmt {
    pub kind: StmtKind,
    pub span: Span,
}

#[derive(Debug)]
pub struct Choice {
    /// Text of the choice after `->`, split into its literal and inline
    /// expression parts.
    pub text: Vec<Spanned<TextPart>>,
    /// List of all Stmt in the body
    pub body: Vec<Stmt>,
    /// From the `->` to the end of its body.
    pub span: Span,
}

#[derive(Debug)]
pub enum StmtKind {
    Say { speaker: Option<Spanned<String>>, text: Vec<Spanned<TextPart>> },
    Choice { choices: Vec<Choice> },
    Jump(Spanned<String>),
    Command { name: Spanned<String>, args: Vec<Spanned<Expr>> },
    Let {
        /// Name of the variable, without its `$`.
        name: Spanned<String>,
        /// Name of the attributes of the dict
        attrs: Vec<Spanned<String>>,
        value: Spanned<Expr>,
    },
    /// `[if]`, its `[elif]` and its `[else]`, in the order they are written.
    If {
        /// The `[if]` and every `[elif]` after it.
        branches: Vec<Branch>,
        /// Body of the `[else]`, when the block has one.
        otherwise: Option<Vec<Stmt>>,
    },
    /// `[while]`
    While { condition: Spanned<Expr>, body: Vec<Stmt> },
    Break,
    Continue,
}

/// Represents a dialogue node in the syntax tree
#[derive(Debug)]
pub struct NodeDecl {
    /// Name of the dialogue Node
    pub name: Spanned<String>,
    /// All the statement of the node
    pub body: Vec<Stmt>,
    /// Span of the full node. from `:= start` to `---`
    pub full_span: Span,
}

/// A name and where it stands.
pub type Name = (Seq<char>, Span);

/// What a statement holds.
pub struct StmtView {
    pub kind: StmtKindView,
    pub span: Span,
}

/// What a choice holds.
pub struct ChoiceView {
    pub text: Seq<(TextPartView, Span)>,
    pub body: Seq<StmtView>,
    pub span: Span,
}

/// What a branch holds.
pub struct BranchView {
    pub condition: SExpr,
    pub body: Seq<StmtView>,
    pub span: Span,
}

/// What the kind of a statement holds.
pub enum StmtKindView {
    Say(Option<Name>, Seq<(TextPartView, Span)>),
    Choice(Seq<ChoiceView>),
    Jump(Name),
    Command(Name, Seq<SExpr>),
    Let(Name, Seq<Name>, SExpr),
    If(Seq<BranchView>, Option<Seq<StmtView>>),
    While(SExpr, Seq<StmtView>),
    Break,
    Continue,
}

/// What a spanned name holds.
pub open spec fn name_view(n: Spanned<String>) -> Name {
    (n.value@, n.span)
}

/// What a statement holds.
pub open spec fn stmt_view(s: Stmt) -> StmtView
    decreases s,
{
    StmtView {
        kind: match s.kind {
            StmtKind::Say { speaker, text } => StmtKindView::Say(
                match speaker {
                    Some(n) => Some(name_view(n)),
                    None => None,
                },
                parts_view(text@),
            ),
            StmtKind::Choice { choices } => StmtKindView::Choice(choices_view(choices@)),
            StmtKind::Jump(n) => StmtKindView::Jump(name_view(n)),
            StmtKind::Command { name, args } => StmtKindView::Command(
                name_view(name),
                crate::parser::expr::args_view(args@),
            ),
            StmtKind::Let { name, attrs, value } => StmtKindView::Let(
                name_view(name),
                names_view(attrs@),
                sview(value),
            ),
            StmtKind::If { branches, otherwise } => StmtKindView::If(
                branches_view(branches@),
                match otherwise {
                    Some(b) => Some(stmts_view(b@)),
                    None => None,
                },
            ),
            StmtKind::While { condition, body } => StmtKindView::While(
                sview(condition),
                stmts_view(body@),
            ),
            StmtKind::Break => StmtKindView::Break,
            StmtKind::Continue => StmtKindView::Continue,
        },
        span: s.span,
    }
}

/// What the statements hold.
pub open spec fn stmts_view(v: Seq<Stmt>) -> Seq<StmtView>
    decreases v,
{
    if v.len() == 0 {
        Seq::empty()
    } else {
        stmts_view(v.subrange(0, v.len() - 1)).push(stmt_view(v[v.len() - 1]))
    }
}

/// What the choices hold.
pub open spec fn choices_view(v: Seq<Choice>) -> Seq<ChoiceView>
    decreases v,
{
    if v.len() == 0 {
        Seq::empty()
    } else {
        let c = v[v.len() - 1];
        choices_view(v.subrange(0, v.len() - 1)).push(
            ChoiceView { text: parts_view(c.text@), body: stmts_view(c.body@), span: c.span },
        )
    }
}

/// What the branches hold.
pub open spec fn branches_view(v: Seq<Branch>) -> Seq<BranchView>
    decreases v,
{
    if v.len() == 0 {
        Seq::empty()
    } else {
        let b = v[v.len() - 1];
        branches_view(v.subrange(0, v.len() - 1)).push(
            BranchView { condition: sview(b.condition), body: stmts_view(b.body@), span: b.span },
        )
    }
}

/// Index of the first `c` of `s` at or after `i`.
pub open spec fn next_from(s: Seq<char>, c: char, i: int) -> Option<int>
    decreases s.len() - i,
{
    if i < 0 || i >= s.len() {
        None
    } else if s[i] == c {
        Some(i)
    } else {
        next_from(s, c, i + 1)
    }
}

/// [`next_from`] is the first `c` at or after `i`.
proof fn lemma_next_from(s: Seq<char>, c: char, i: int, k: Option<int>)
    requires
        0 <= i <= s.len(),
        match k {
            Some(k) => i <= k < s.len() && s[k] == c && forall|j: int| i <= j < k ==> s[j] != c,
            None => forall|j: int| i <= j < s.len() ==> s[j] != c,
        },
    ensures
        next_from(s, c, i) == k,
    decreases s.len() - i,
{
    if i < s.len() && s[i] != c {
        lemma_next_from(s, c, i + 1, k);
    }
}

/// Byte offset of the character `i` of `s`, standing at byte `base`.
pub open spec fn byte_at(s: Seq<char>, base: int, i: int) -> int {
    base + text::blen(s.take(i))
}

/// The text `s[a..b]`, unless it is empty.
#[verifier::opaque]
pub open spec fn text_piece(s: Seq<char>, base: int, a: int, b: int) -> Seq<(TextPartView, Span)> {
    if a == b {
        Seq::empty()
    } else {
        seq![
            (
                TextPartView::Text(s.subrange(a, b)),
                Span { start: byte_at(s, base, a) as usize, end: byte_at(s, base, b) as usize },
            ),
        ]
    }
}

/// The expression between the brackets at `open` and `close`.
#[verifier::opaque]
pub open spec fn inline_text(s: Seq<char>, base: int, open: int, close: int) -> TextView {
    TextView {
        value: s.subrange(open + 1, close),
        span: Span {
            start: (byte_at(s, base, open) + 1) as usize,
            end: byte_at(s, base, close) as usize,
        },
    }
}

/// The inline expression `inner` as a part of its line.
#[verifier::opaque]
pub open spec fn inline_part(inner: TextView) -> (TextPartView, Span) {
    (TextPartView::Expression(text_reading(inner).0.expr), inner.span)
}

/// What an inline expression reports: what reading it reports, then what
/// it leaves before its `]`.
#[verifier::opaque]
pub open spec fn inline_reports(inner: TextView) -> Seq<Report> {
    parse_reports(inner) + match parse_trailing(inner) {
        Some(sp) => seq![plain(sp, DiagnosticKind::UnexpectedTextInBracket)],
        None => Seq::empty(),
    }
}

/// The parts of the line `s`, standing at byte `base`, from the character
/// `rest` on: words as written, and an inline expression for each `[...]`.
/// A `[` the line never closes is reported and kept as text.
#[verifier::opaque]
pub open spec fn text_parts(s: Seq<char>, base: int, rest: int) -> (Seq<(TextPartView, Span)>, Seq<Report>)
    decreases s.len() - rest,
{
    if rest < 0 || rest > s.len() {
        (Seq::empty(), Seq::empty())
    } else {
        match next_from(s, '[', rest) {
            None => (text_piece(s, base, rest, s.len() as int), Seq::empty()),
            Some(open) => {
                let pre = text_piece(s, base, rest, open);
                match next_from(s, ']', open) {
                    None => (
                        pre + text_piece(s, base, open, s.len() as int),
                        seq![
                            unclosed_bracket(
                                Span {
                                    start: byte_at(s, base, open) as usize,
                                    end: (base + text::blen(s)) as usize,
                                },
                                "["@,
                            ),
                        ],
                    ),
                    Some(close) => {
                        let inner = inline_text(s, base, open, close);
                        let here = pre.push(inline_part(inner));
                        if close + 1 <= rest || close >= s.len() {
                            (here, inline_reports(inner))
                        } else {
                            let more = text_parts(s, base, close + 1);
                            (here + more.0, inline_reports(inner) + more.1)
                        }
                    },
                }
            },
        }
    }
}


/// A line with no `[` from `rest` on is one piece of text.
proof fn lemma_text_parts_plain(s: Seq<char>, base: int, rest: int)
    requires
        0 <= rest <= s.len(),
        next_from(s, '[', rest) is None,
    ensures
        text_parts(s, base, rest) == (text_piece(s, base, rest, s.len() as int), Seq::<Report>::empty()),
{
    reveal(text_parts);
}

/// A `[` the line never closes is reported, and kept as text.
proof fn lemma_text_parts_unclosed(s: Seq<char>, base: int, rest: int, open: int)
    requires
        0 <= rest <= open < s.len(),
        next_from(s, '[', rest) == Some(open),
        next_from(s, ']', open) is None,
    ensures
        text_parts(s, base, rest) == (
            text_piece(s, base, rest, open) + text_piece(s, base, open, s.len() as int),
            seq![
                unclosed_bracket(
                    Span { start: byte_at(s, base, open) as usize, end: (base + text::blen(s)) as usize },
                    "["@,
                ),
            ],
        ),
{
    reveal(text_parts);
}

/// A closed `[...]` is an expression, and the line goes on after its `]`.
proof fn lemma_text_parts_inline(s: Seq<char>, base: int, rest: int, open: int, close: int)
    requires
        0 <= rest <= open < close < s.len(),
        next_from(s, '[', rest) == Some(open),
        next_from(s, ']', open) == Some(close),
    ensures
        text_parts(s, base, rest) == ({
            let inner = inline_text(s, base, open, close);
            (
                text_piece(s, base, rest, open).push(inline_part(inner)) + text_parts(s, base, close + 1).0,
                inline_reports(inner) + text_parts(s, base, close + 1).1,
            )
        }),
{
    reveal(text_parts);
}

/// Pushes `s[a..b]` as a [`TextPart::Text`], unless it is empty.
fn push_text(
    parts: &mut Vec<Spanned<TextPart>>,
    text: &str,
    cs: &Vec<char>,
    base: usize,
    a: usize,
    b: usize,
    a_byte: usize,
)
    requires
        cs@ == text@,
        a <= b <= cs@.len(),
        a_byte == text::blen(text@.take(a as int)),
        base + text::blen(text@) <= usize::MAX,
    ensures
        parts_view(final(parts)@) == parts_view(old(parts)@) + text_piece(text@, base as int, a as int, b as int),
{
    proof {
        reveal(text_piece);
    }
    if a == b {
        proof {
            assert(parts_view(parts@) + Seq::<(TextPartView, Span)>::empty() =~= parts_view(parts@));
        }
        return;
    }
    proof {
        text::lemma_blen_subrange(text@, a as int, b as int);
        text::lemma_blen_prefix(text@, b as int);
    }
    let width = text::bytes_between(cs, a, b);
    let part = Spanned::new(TextPart::Text(text::collect(cs, a, b)), Span::from_length(base + a_byte, width));
    let ghost prev = parts@;
    parts.push(part);
    proof {
        crate::seqs::lemma_push(prev, part);
        assert(parts_view(parts@) =~= parts_view(prev) + text_piece(text@, base as int, a as int, b as int));
    }
}



/// Reads the inline expression between the brackets at `open` and `close`
/// of `text`, pushes it after `parts`, and gives the byte just past its `]`.
fn push_inline(
    text: &str,
    cs: &Vec<char>,
    base: usize,
    open: usize,
    close: usize,
    open_byte: usize,
    parts: &mut Vec<Spanned<TextPart>>,
    diags: &mut Diagnostics,
) -> (close_byte: usize)
    requires
        cs@ == text@,
        open < close < cs@.len(),
        text@[open as int] == '[',
        text@[close as int] == ']',
        open_byte == text::blen(text@.take(open as int)),
        base + text::blen(text@) <= usize::MAX,
    ensures
        close_byte == text::blen(text@.take(close as int)),
        parts_view(final(parts)@) == parts_view(old(parts)@).push(
            inline_part(inline_text(text@, base as int, open as int, close as int)),
        ),
        reported(
            old(diags).items(),
            final(diags).items(),
            inline_reports(inline_text(text@, base as int, open as int, close as int)),
        ),
        final(diags).index() == old(diags).index(),
        final(diags).path() == old(diags).path(),
{
    let ghost s = text@;
    let ghost p1 = parts@;
    proof {
        text::lemma_blen_subrange(s, open as int, close as int);
        text::lemma_blen_prefix(s, close as int);
        text::lemma_blen_prefix(s, open as int);
        text::lemma_blen_subrange(s, open as int, open + 1);
        text::lemma_blen_prefix(s, open + 1);
        text::lemma_blen_subrange(s, open + 1, close as int);
        text::lemma_blen_sub_le(s, open as int, close as int);
        text::lemma_blen_prefix(s, s.len() as int);
        assert(s.take(s.len() as int) =~= s);
        assert(s.subrange(open as int, open + 1) =~= seq!['[']);
        text::lemma_blen_push(Seq::<char>::empty(), '[');
        assert(Seq::<char>::empty().push('[') =~= seq!['[']);
    }
    let close_byte = open_byte + text::bytes_between(cs, open, close);
    let inner_span = Span::from_length(base + open_byte + 1, close_byte - open_byte - 1);
    let inner = Spanned::new(text::slice(text, open + 1, close), inner_span);
    proof {
        reveal(inline_text);
        assert(tv(inner) == inline_text(s, base as int, open as int, close as int));
    }
    let ghost d1 = diags.items();
    let (expr, trailing) = parse_with_trailing(&inner, diags);
    let ghost d2 = diags.items();
    match trailing {
        Some(sp) => {
            diags.report(sp, DiagnosticKind::UnexpectedTextInBracket);
        },
        None => {
            proof {
                crate::parser::diagnostic::lemma_reported_nothing(d2);
            }
        },
    }
    proof {
        reveal(inline_reports);
        crate::parser::diagnostic::lemma_reported_chain(
            d1,
            d2,
            diags.items(),
            parse_reports(tv(inner)),
            match parse_trailing(tv(inner)) {
                Some(sp) => seq![plain(sp, DiagnosticKind::UnexpectedTextInBracket)],
                None => Seq::empty(),
            },
        );
    }
    let part = Spanned::new(TextPart::Expression(expr.value), inner_span);
    parts.push(part);
    proof {
        crate::seqs::lemma_push(p1, part);
        reveal(inline_part);
        assert(part_view(part) == inline_part(tv(inner)));
        assert(parts_view(parts@) =~= parts_view(p1).push(part_view(part)));
    }
    close_byte
}

/// Reads the parts of `text`, standing at byte `base`, from the character
/// `rest` on, and pushes them after those of `parts`.
fn text_parts_from(
    text: &str,
    cs: &Vec<char>,
    base: usize,
    rest: usize,
    rest_byte: usize,
    parts: &mut Vec<Spanned<TextPart>>,
    diags: &mut Diagnostics,
)
    requires
        cs@ == text@,
        rest <= cs@.len(),
        rest_byte == text::blen(text@.take(rest as int)),
        base + text::blen(text@) <= usize::MAX,
    ensures
        parts_view(final(parts)@) == parts_view(old(parts)@) + text_parts(text@, base as int, rest as int).0,
        reported(old(diags).items(), final(diags).items(), text_parts(text@, base as int, rest as int).1),
        final(diags).index() == old(diags).index(),
        final(diags).path() == old(diags).path(),
    decreases cs@.len() - rest,
{
    let ghost s = text@;
    let ghost p0 = parts@;
    let ghost d0 = diags.items();
    let n = cs.len();
    proof {
        text::lemma_blen_prefix(s, rest as int);
        text::lemma_blen_prefix(s, n as int);
        assert(s.take(n as int) =~= s);
        crate::parser::diagnostic::lemma_reported_nothing(d0);
    }
    let open = match text::find_char(cs, rest, n, '[') {
        None => {
            proof {
                lemma_next_from(s, '[', rest as int, None);
                lemma_text_parts_plain(s, base as int, rest as int);
            }
            push_text(parts, text, cs, base, rest, n, rest_byte);
            return;
        },
        Some(open) => open,
    };
    proof {
        lemma_next_from(s, '[', rest as int, Some(open as int));
        text::lemma_blen_subrange(s, rest as int, open as int);
        text::lemma_blen_prefix(s, open as int);
        text::lemma_blen_sub_le(s, rest as int, open as int);
    }
    let open_byte = rest_byte + text::bytes_between(cs, rest, open);
    push_text(parts, text, cs, base, rest, open, rest_byte);
    let ghost p1 = parts@;
    let close = match text::find_char(cs, open, n, ']') {
        None => {
            proof {
                lemma_next_from(s, ']', open as int, None);
                text::lemma_str_len(text);
            }
            let total = text.len();
            let span = Span::from_length(base + open_byte, total - open_byte);
            diags.report(span, DiagnosticKind::UnclosedBracket(text::owned("[")));
            push_text(parts, text, cs, base, open, n, open_byte);
            proof {
                reveal_strlit("[");
                lemma_text_parts_unclosed(s, base as int, rest as int, open as int);
                assert(parts_view(parts@) =~= parts_view(p0) + text_parts(s, base as int, rest as int).0);
            }
            return;
        },
        Some(close) => close,
    };
    proof {
        lemma_next_from(s, ']', open as int, Some(close as int));
    }
    let ghost d1 = diags.items();
    let close_byte = push_inline(text, cs, base, open, close, open_byte, parts, diags);
    let ghost d3 = diags.items();
    let ghost inner = inline_text(s, base as int, open as int, close as int);
    proof {
        text::lemma_blen_prefix(s, close + 1);
        text::lemma_blen_prefix(s, close as int);
        text::lemma_blen_subrange(s, close as int, close + 1);
        assert(s.subrange(close as int, close + 1) =~= seq![']']);
        text::lemma_blen_push(Seq::<char>::empty(), ']');
        assert(Seq::<char>::empty().push(']') =~= seq![']']);
    }
    text_parts_from(text, cs, base, close + 1, close_byte + 1, parts, diags);
    proof {
        lemma_text_parts_inline(s, base as int, rest as int, open as int, close as int);
        crate::parser::diagnostic::lemma_reported_chain(
            d1,
            d3,
            diags.items(),
            inline_reports(inner),
            text_parts(s, base as int, close + 1).1,
        );
        crate::parser::diagnostic::lemma_reported_chain(
            d0,
            d1,
            diags.items(),
            Seq::empty(),
            inline_reports(inner) + text_parts(s, base as int, close + 1).1,
        );
        assert(Seq::<Report>::empty() + (inline_reports(inner) + text_parts(s, base as int, close + 1).1)
            =~= text_parts(s, base as int, rest as int).1);
        assert(parts_view(parts@) =~= parts_view(p0) + text_parts(s, base as int, rest as int).0);
    }
}

/// The parts of `text`: words as written, and an inline expression for
/// each `[...]`. What an expression leaves before its `]` is reported, and
/// a `[` the line never closes is reported and kept as text.
pub(crate) fn parse_text_line(text: Spanned<&str>, diags: &mut Diagnostics) -> (r: Vec<Spanned<TextPart>>)
    requires
        text.span.start + text::blen(text.value@) <= usize::MAX,
    ensures
        parts_view(r@) == text_parts(text.value@, text.span.start as int, 0).0,
        reported(old(diags).items(), final(diags).items(), text_parts(text.value@, text.span.start as int, 0).1),
        final(diags).index() == old(diags).index(),
        final(diags).path() == old(diags).path(),
{
    let cs = text::to_chars(text.value);
    let mut parts: Vec<Spanned<TextPart>> = Vec::new();
    proof {
        assert(text.value@.take(0) =~= Seq::<char>::empty());
        assert(parts_view(parts@) =~= Seq::<(TextPartView, Span)>::empty());
    }
    text_parts_from(text.value, &cs, text.span.start, 0, 0, &mut parts, diags);
    proof {
        assert(Seq::<(TextPartView, Span)>::empty() + text_parts(text.value@, text.span.start as int, 0).0
            =~= text_parts(text.value@, text.span.start as int, 0).0);
    }
    parts
}


/// What a statement, when there is one, holds.
pub open spec fn opt_stmt_view(r: Option<Stmt>) -> Option<StmtView> {
    match r {
        Some(st) => Some(stmt_view(st)),
        None => None,
    }
}

/// Name of the command `>> name(...)`: what stands before its first `(`,
/// without the blanks that end it.
pub open spec fn command_name(v: Seq<char>) -> Seq<char> {
    text::trim_end(
        match next_from(v, '(', 0) {
            Some(i) => v.take(i),
            None => v,
        },
    )
}

/// The report of the command name `name`, which is not an identifier.
pub open spec fn invalid_command_name(span: Span, name: Seq<char>) -> Report {
    (
        span,
        "invalid-command-name"@,
        crate::parser::diagnostic::around(
            "`"@,
            name,
            "` is an invalid command name, expected a letter or `_` followed by letters, digits or `_`"@,
        ),
        Seq::empty(),
    )
}

/// What stands after the call of a command that ends at byte `end`, without
/// the blanks before it.
pub open spec fn after_call(cmd: TextView, end: int) -> Seq<char> {
    text::trim_start(cmd.value.skip(text::chars_before(cmd.value, end - cmd.span.start) as int))
}

/// The statement `>> name(args)` of the line at `line_span`, and what it
/// reports. A command is a call whose name is read before its arguments;
/// what follows its `)` is reported.
#[verifier::opaque]
pub open spec fn command_spec(cmd: TextView, line_span: Span) -> (Option<StmtView>, Seq<Report>) {
    let name = command_name(cmd.value);
    if name.len() == 0 {
        (None, seq![plain(line_span, DiagnosticKind::EmptyCommand)])
    } else if !valid_ident(name) {
        (
            None,
            seq![
                invalid_command_name(
                    Span { start: cmd.span.start, end: (cmd.span.start + text::blen(name)) as usize },
                    name,
                ),
            ],
        )
    } else {
        command_call(cmd)
    }
}

/// The command of `cmd` once its name is known to be valid: the call it
/// makes, and what it reports.
pub open spec fn command_call(cmd: TextView) -> (Option<StmtView>, Seq<Report>) {
    let e = text_reading(cmd).0;
    let reps = parse_reports(cmd);
    match e.expr {
        ExprView::Function(fname, fspan, args) => {
            let st = StmtView { kind: StmtKindView::Command((fname, fspan), args), span: e.span };
            if e.span == cmd.span {
                (Some(st), reps)
            } else {
                let rest = after_call(cmd, e.span.end as int);
                (
                    Some(st),
                    reps.push(
                        plain(
                            Span { start: (cmd.span.end - text::blen(rest)) as usize, end: cmd.span.end },
                            DiagnosticKind::TrailingAfterCommand,
                        ),
                    ),
                )
            }
        },
        ExprView::Error => (None, reps),
        _ => (None, reps.push(plain(e.span, DiagnosticKind::ExpectedCommand))),
    }
}

/// `>> name()` or `>> name(1, $gold + 1, true)`. The `(` follows the name
/// directly, and every argument is an expression. A malformed command is
/// dropped.
pub(crate) fn parse_command(cmd: Spanned<&str>, line_span: Span, diags: &mut Diagnostics) -> (r: Option<Stmt>)
    requires
        crate::parser::lines::tv_ok(tv(cmd)),
    ensures
        opt_stmt_view(r) == command_spec(tv(cmd), line_span).0,
        reported(old(diags).items(), final(diags).items(), command_spec(tv(cmd), line_span).1),
        final(diags).index() == old(diags).index(),
        final(diags).path() == old(diags).path(),
{
    let ghost v = cmd.value@;
    let cs = text::to_chars(cmd.value);
    let n = cs.len();
    let head = match text::find_char(&cs, 0, n, '(') {
        Some(k) => {
            proof {
                lemma_next_from(v, '(', 0, Some(k as int));
                text::lemma_blen_sub_le(v, 0, k as int);
            }
            text::slice(cmd.value, 0, k)
        },
        None => {
            proof {
                lemma_next_from(v, '(', 0, None);
                assert(v.subrange(0, n as int) =~= v);
            }
            text::slice(cmd.value, 0, n)
        },
    };
    let name = text::trim_end_str(head);
    proof {
        assert(head@ == v.take(head@.len() as int));
        assert(name@ == command_name(v));
        text::lemma_trail_shape(head@);
        text::lemma_blen_sub_le(head@, 0, name@.len() as int);
        assert(name@ =~= head@.subrange(0, name@.len() as int));
        text::lemma_blen_sub_le(v, 0, head@.len() as int);
    }
    if name.is_empty() {
        diags.report(line_span, DiagnosticKind::EmptyCommand);
        proof {
            reveal(command_spec);
        }
        return None;
    }
    if !is_valid_ident(name) {
        proof {
            text::lemma_str_len(name);
        }
        let span = Span::from_length(cmd.span.start, name.len());
        diags.report(span, DiagnosticKind::InvalidCommandName(text::owned(name)));
        proof {
            reveal(command_spec);
        }
        return None;
    }
    proof {
        assert(command_spec(tv(cmd), line_span) == command_call(tv(cmd))) by {
            reveal(command_spec);
        }
    }
    let ghost d0 = diags.items();
    let expr = parse(&cmd, diags);
    let ghost d1 = diags.items();
    let ghost reps = parse_reports(tv(cmd));
    match expr.value {
        Expr::Function { name, args } => {
            if cmd.span.start != expr.span.start || cmd.span.end != expr.span.end {
                let off = if expr.span.end >= cmd.span.start {
                    expr.span.end - cmd.span.start
                } else {
                    0
                };
                let k = text::char_col(cmd.value, off);
                let lead = text::lead_count(&cs, k, n);
                proof {
                    assert(v.skip(k as int) =~= v.subrange(k as int, n as int));
                    text::lemma_lead_shape(v.subrange(k as int, n as int));
                    assert(after_call(tv(cmd), expr.span.end as int) =~= v.subrange(k + lead, n as int));
                    text::lemma_blen_sub_le(v, k + lead, n as int);
                    text::lemma_blen_prefix(v, n as int);
                }
                let width = text::bytes_between(&cs, k + lead, n);
                let span = Span::new(cmd.span.end - width, cmd.span.end);
                diags.report(span, DiagnosticKind::TrailingAfterCommand);
                proof {
                    crate::parser::diagnostic::lemma_reported_chain(
                        d0,
                        d1,
                        diags.items(),
                        reps,
                        seq![plain(span, DiagnosticKind::TrailingAfterCommand)],
                    );
                }
            }
            Some(Stmt { kind: StmtKind::Command { name, args }, span: expr.span })
        },
        Expr::Error => None,
        _ => {
            diags.report(expr.span, DiagnosticKind::ExpectedCommand);
            proof {
                crate::parser::diagnostic::lemma_reported_chain(
                    d0,
                    d1,
                    diags.items(),
                    reps,
                    seq![plain(expr.span, DiagnosticKind::ExpectedCommand)],
                );
            }
            None
        },
    }
}

/// The statement `[let $name.attr = <expr>]` of the line at `line_span`,
/// and what it reports. An assignment whose value does not parse, or that
/// leaves text before its `]`, is dropped.
#[verifier::opaque]
pub open spec fn let_spec(body: TextView, line_span: Span) -> (Option<StmtView>, Seq<Report>) {
    let st = strip_spec(body, line_span, "[let"@);
    match st.0 {
        None => (None, st.1),
        Some(inner) => {
            let lexed = lex_from(inner.value, inner.span.start as int, 0);
            let ts = lexed.0;
            match assign_at(ts) {
                None => (None, lexed.1.push(plain(line_span, DiagnosticKind::ExpectedAssignment))),
                Some(k) => {
                    let rd = p_expr(ts, Span { start: inner.span.end, end: inner.span.end }, k + 1, 0);
                    let reps = lexed.1 + rd.2 + check_spec(rd.0.expr).1;
                    match trailing_spec(ts, rd.1, inner.span.end) {
                        Some(sp) => (None, reps.push(plain(sp, DiagnosticKind::UnexpectedTextInBracket))),
                        None => if rd.0.expr is Error {
                            (None, reps)
                        } else {
                            (
                                Some(
                                    StmtView {
                                        kind: StmtKindView::Let(
                                            (ts[0].0->Var_0, ts[0].1),
                                            attr_names(ts, 1, k - 1),
                                            rd.0,
                                        ),
                                        span: line_span,
                                    },
                                ),
                                reps,
                            )
                        },
                    }
                },
            }
        },
    }
}

/// `[let $name = <expr>]`. A malformed assignment is dropped.
pub(crate) fn parse_let(body: Spanned<&str>, line_span: Span, diags: &mut Diagnostics) -> (r: Option<Stmt>)
    requires
        body.span.start + text::blen(body.value@) <= usize::MAX,
    ensures
        opt_stmt_view(r) == let_spec(tv(body), line_span).0,
        reported(old(diags).items(), final(diags).items(), let_spec(tv(body), line_span).1),
        final(diags).index() == old(diags).index(),
        final(diags).path() == old(diags).path(),
{
    proof {
        reveal_strlit("[let");
    }
    let ghost d0 = diags.items();
    let inner = match strip_bracket(body, line_span, "[let", diags) {
        Some(inner) => inner,
        None => {
            proof {
                reveal(let_spec);
            }
            return None;
        },
    };
    let ghost d1 = diags.items();
    let ghost lexed = lex_from(inner.value@, inner.span.start as int, 0);
    let assignment = match parse_assignment(&inner, diags) {
        Some(a) => a,
        None => {
            let ghost d2 = diags.items();
            diags.report(line_span, DiagnosticKind::ExpectedAssignment);
            proof {
                reveal(let_spec);
                crate::parser::diagnostic::lemma_reported_chain(
                    d1,
                    d2,
                    diags.items(),
                    lexed.1,
                    seq![plain(line_span, DiagnosticKind::ExpectedAssignment)],
                );
                crate::parser::diagnostic::lemma_reported_chain(
                    d0,
                    d1,
                    diags.items(),
                    Seq::empty(),
                    lexed.1.push(plain(line_span, DiagnosticKind::ExpectedAssignment)),
                );
                assert(Seq::<Report>::empty() + lexed.1.push(plain(line_span, DiagnosticKind::ExpectedAssignment))
                    =~= lexed.1.push(plain(line_span, DiagnosticKind::ExpectedAssignment)));
            }
            return None;
        },
    };
    let ghost d2 = diags.items();
    let ghost k = assign_at(lexed.0)->0;
    let ghost rd = p_expr(lexed.0, Span { start: inner.span.end, end: inner.span.end }, k + 1, 0);
    let ghost reps = lexed.1 + rd.2 + check_spec(rd.0.expr).1;
    proof {
        assert(end_of(inner) == Span { start: inner.span.end, end: inner.span.end });
        crate::parser::diagnostic::lemma_reported_chain(d0, d1, d2, Seq::empty(), reps);
        assert(Seq::<Report>::empty() + reps =~= reps);
    }
    match assignment.trailing {
        Some(span) => {
            diags.report(span, DiagnosticKind::UnexpectedTextInBracket);
            proof {
                reveal(let_spec);
                crate::parser::diagnostic::lemma_reported_chain(
                    d0,
                    d2,
                    diags.items(),
                    reps,
                    seq![plain(span, DiagnosticKind::UnexpectedTextInBracket)],
                );
            }
            return None;
        },
        None => {},
    }
    if let Expr::Error = assignment.value.value {
        proof {
            reveal(let_spec);
        }
        return None;
    }
    proof {
        reveal(let_spec);
    }
    Some(
        Stmt {
            kind: StmtKind::Let {
                name: assignment.name,
                attrs: assignment.attrs,
                value: assignment.value,
            },
            span: line_span,
        },
    )
}

} // verus!
