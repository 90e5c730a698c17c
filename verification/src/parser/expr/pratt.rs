//! Reads an expression out of its tokens, by precedence climbing: every
//! binary operator groups to the left, `*` and `/` bind tighter than `+`
//! and `-`, which bind tighter than the comparisons, then `and`, then `or`,
//! and a unary operator binds tighter than all of them.
//!
//! Nothing fails: a fault is reported, stands as an error in the tree, and
//! the reading goes on after it, so that one mistake is reported once and
//! the rest of the line is still read.

use vstd::prelude::*;

use crate::parser::diagnostic::{plain, reported, DiagnosticKind, Diagnostics, Label, Report};
use crate::parser::expr::lexer::{
    lex, lex_from, lexeme_at, token_text, token_views, Lexed, Lexeme, Token, TokenView,
};
use crate::parser::expr::{
    binary_text, check_spec, expr_view, sview, BinaryOp, Expr, ExprView, SExpr, UnaryOp, Value, ValueView,
};
use crate::parser::lines::{tv, TextView};
use crate::parser::{join_spec, Span, Spanned};
use crate::text;

verus! {

broadcast use vstd::seq_lib::group_seq_properties;

/// Binding power of the unary operators, above every infix one.
pub const PREFIX_PRIO: u8 = 11;

/// Tokens and where they stand.
pub type Toks = Seq<(TokenView, Span)>;

/// What a reading gives: the expression, the position of the first token
/// left, and what was reported on the way.
pub type Read = (SExpr, int, Seq<Report>);

/// An error standing at `span`.
pub open spec fn err_view(span: Span) -> SExpr {
    SExpr { expr: ExprView::Error, span }
}

/// A literal standing at `span`.
pub open spec fn lit_view(v: ValueView, span: Span) -> SExpr {
    SExpr { expr: ExprView::Lit(v), span }
}

/// Operator, left and right priority of an infix token. The right one is
/// the greater of the two, which makes every operator left-associative.
pub open spec fn infix_of(t: TokenView) -> Option<(BinaryOp, int, int)> {
    match t {
        TokenView::Or => Some((BinaryOp::Or, 1, 2)),
        TokenView::And => Some((BinaryOp::And, 3, 4)),
        TokenView::Eq => Some((BinaryOp::Eq, 5, 6)),
        TokenView::Ne => Some((BinaryOp::Ne, 5, 6)),
        TokenView::Lt => Some((BinaryOp::Lt, 5, 6)),
        TokenView::Le => Some((BinaryOp::Le, 5, 6)),
        TokenView::Gt => Some((BinaryOp::Gt, 5, 6)),
        TokenView::Ge => Some((BinaryOp::Ge, 5, 6)),
        TokenView::Plus => Some((BinaryOp::Add, 7, 8)),
        TokenView::Minus => Some((BinaryOp::Sub, 7, 8)),
        TokenView::Star => Some((BinaryOp::Mul, 9, 10)),
        TokenView::Slash => Some((BinaryOp::Div, 9, 10)),
        _ => None,
    }
}

/// Left priority of an infix token.
pub open spec fn left_prio(t: TokenView) -> int {
    (infix_of(t)->0).1
}

/// Right priority of an infix token.
pub open spec fn right_prio(t: TokenView) -> int {
    (infix_of(t)->0).2
}

/// The operators bind as the grammar says: `or` loosest, then `and`, then
/// the comparisons, all at one level, then `+` and `-`, then `*` and `/`,
/// and a unary operator tighter than all of them. Each level's right
/// priority stays below the next level's left one, so that no operator of a
/// looser level is taken inside an operand of a tighter one.
pub proof fn lemma_precedence_levels()
    ensures
        right_prio(TokenView::Or) < left_prio(TokenView::And),
        right_prio(TokenView::And) < left_prio(TokenView::Eq),
        left_prio(TokenView::Eq) == left_prio(TokenView::Ne),
        left_prio(TokenView::Eq) == left_prio(TokenView::Lt),
        left_prio(TokenView::Eq) == left_prio(TokenView::Le),
        left_prio(TokenView::Eq) == left_prio(TokenView::Gt),
        left_prio(TokenView::Eq) == left_prio(TokenView::Ge),
        right_prio(TokenView::Eq) < left_prio(TokenView::Plus),
        left_prio(TokenView::Plus) == left_prio(TokenView::Minus),
        right_prio(TokenView::Plus) < left_prio(TokenView::Star),
        left_prio(TokenView::Star) == left_prio(TokenView::Slash),
        right_prio(TokenView::Star) < PREFIX_PRIO,
        forall|t: TokenView| #[trigger] infix_of(t) is Some ==> right_prio(t) == left_prio(t) + 1,
{
}

/// An infix token reads as the operator it spells: the operator's symbol is
/// the token's text. The right priority is one above the left one, so the
/// operator groups to the left.
pub proof fn lemma_infix_spells_its_operator(t: TokenView)
    ensures
        infix_of(t) matches Some((op, lp, rp)) ==> binary_text(op) == token_text(t) && rp == lp + 1,
{
    reveal_strlit("or");
    reveal_strlit("and");
    reveal_strlit("==");
    reveal_strlit("!=");
    reveal_strlit("<");
    reveal_strlit("<=");
    reveal_strlit(">");
    reveal_strlit(">=");
    reveal_strlit("+");
    reveal_strlit("-");
    reveal_strlit("*");
    reveal_strlit("/");
    if let Some((op, _, _)) = infix_of(t) {
        assert(binary_text(op) =~= token_text(t));
    }
}

/// Reading the symbol of an operator gives one token, which reads back as
/// that operator.
pub proof fn lemma_operator_symbol_round_trip(op: BinaryOp)
    ensures
        lexeme_at(binary_text(op), 0) matches Lexeme::Tok(t, n) && (n == binary_text(op).len()
            && (infix_of(t) matches Some((o, _, _)) && o == op)),
{
    reveal(lexeme_at);
    reveal_strlit("or");
    reveal_strlit("and");
    reveal_strlit("==");
    reveal_strlit("!=");
    reveal_strlit("<");
    reveal_strlit("<=");
    reveal_strlit(">");
    reveal_strlit(">=");
    reveal_strlit("+");
    reveal_strlit("-");
    reveal_strlit("*");
    reveal_strlit("/");
    let s = binary_text(op);
    reveal_with_fuel(crate::parser::expr::lexer::run, 4);
    assert(s.skip(0) =~= s);
    match op {
        BinaryOp::Or => {
            assert(s.drop_first() =~= seq!['r']);
            assert(seq!['r'].drop_first() =~= Seq::<char>::empty());
            assert(s.subrange(0, 2) =~= seq!['o', 'r']);
        },
        BinaryOp::And => {
            assert(s.drop_first() =~= seq!['n', 'd']);
            assert(seq!['n', 'd'].drop_first() =~= seq!['d']);
            assert(seq!['d'].drop_first() =~= Seq::<char>::empty());
            assert(s.subrange(0, 3) =~= seq!['a', 'n', 'd']);
        },
        _ => {},
    }
}

/// Number of `.attr` tokens from `pos` on.
pub open spec fn attr_run(ts: Toks, pos: int) -> nat
    decreases ts.len() - pos,
{
    if 0 <= pos < ts.len() && ts[pos].0 is Attr {
        1 + attr_run(ts, pos + 1)
    } else {
        0
    }
}

/// The names of the `n` tokens from `pos` on.
pub open spec fn attr_names(ts: Toks, pos: int, n: int) -> Seq<(Seq<char>, Span)> {
    Seq::new(n as nat, |k: int| (ts[pos + k].0->Attr_0, ts[pos + k].1))
}

/// Every `.attr` after `base`, read from `pos`: on a variable or a call
/// they make an attribute access, on anything else an error.
pub open spec fn p_attrs(ts: Toks, base: SExpr, pos: int) -> Read {
    let n = attr_run(ts, pos) as int;
    if n == 0 {
        (base, pos, Seq::empty())
    } else {
        let full = join_spec(base.span, ts[pos + n - 1].1);
        if base.expr is Var || base.expr is Function {
            (SExpr { expr: ExprView::Attr(Box::new(base), attr_names(ts, pos, n)), span: full }, pos + n, Seq::empty())
        } else {
            (err_view(full), pos + n, seq![plain(full, DiagnosticKind::AttributeOnNonVariable)])
        }
    }
}

/// Skips the rest of a faulty call, nested calls included: the span of
/// the `)` that ends it, if any, and the position after it.
pub open spec fn p_skip_call(ts: Toks, pos: int, depth: nat) -> (Option<Span>, int)
    decreases ts.len() - pos,
{
    if pos < 0 || pos >= ts.len() {
        (None, pos)
    } else if ts[pos].0 is LParen || ts[pos].0 is Func {
        p_skip_call(ts, pos + 1, depth + 1)
    } else if ts[pos].0 is RParen {
        if depth == 0 {
            (Some(ts[pos].1), pos + 1)
        } else {
            p_skip_call(ts, pos + 1, (depth - 1) as nat)
        }
    } else {
        p_skip_call(ts, pos + 1, depth)
    }
}

/// Skips the rest of a faulty dict, nested dicts included.
pub open spec fn p_skip_dict(ts: Toks, pos: int, depth: nat) -> (Option<Span>, int)
    decreases ts.len() - pos,
{
    if pos < 0 || pos >= ts.len() {
        (None, pos)
    } else if ts[pos].0 is LBrace {
        p_skip_dict(ts, pos + 1, depth + 1)
    } else if ts[pos].0 is RBrace {
        if depth == 0 {
            (Some(ts[pos].1), pos + 1)
        } else {
            p_skip_dict(ts, pos + 1, (depth - 1) as nat)
        }
    } else {
        p_skip_dict(ts, pos + 1, depth)
    }
}

/// Gives up on a call whose fault is already reported: an error from its
/// name to its `)`, or to its name alone when the line never closes it.
pub open spec fn p_abandon_call(ts: Toks, name_span: Span, pos: int) -> (SExpr, int) {
    let (end, p) = p_skip_call(ts, pos, 0);
    (err_view(join_spec(name_span, match end { Some(e) => e, None => name_span })), p)
}

/// Gives up on a dict whose fault is already reported.
pub open spec fn p_abandon_dict(ts: Toks, open: Span, pos: int) -> (SExpr, int) {
    let (end, p) = p_skip_dict(ts, pos, 0);
    (err_view(join_spec(open, match end { Some(e) => e, None => open })), p)
}

/// Whether the token at `pos` is `t`.
pub open spec fn at(ts: Toks, pos: int, t: TokenView) -> bool {
    0 <= pos < ts.len() && ts[pos].0 == t
}

/// Index of the first entry named `key`.
pub open spec fn first_key(entries: Seq<((Seq<char>, Span), SExpr)>, key: Seq<char>) -> Option<int>
    decreases entries.len(),
{
    if entries.len() == 0 {
        None
    } else {
        match first_key(entries.subrange(0, entries.len() - 1), key) {
            Some(i) => Some(i),
            None => if (entries[entries.len() - 1].0).0 == key {
                Some(entries.len() - 1)
            } else {
                None
            },
        }
    }
}

/// The warning on `key`, standing at `span`, already given at `first`.
pub open spec fn duplicate_report(key: Seq<char>, span: Span, first: Span) -> Report {
    (
        span,
        "duplicate-key"@,
        "key `"@ + key + "` is given more than once, only the last value is kept"@,
        seq![(first, "first given here"@)],
    )
}

/// An expression whose operators all bind at least as tight as `min`, read
/// from `pos`.
pub open spec fn p_expr(ts: Toks, end: Span, pos: int, min: int) -> Read
    decreases ts.len() - pos, 5nat,
{
    if pos < 0 || pos > ts.len() {
        (err_view(end), pos, Seq::empty())
    } else {
        let first = p_prefix(ts, end, pos);
        if first.1 < pos || first.1 > ts.len() {
            first
        } else {
            let rest = p_infix(ts, end, first.0, first.1, min);
            (rest.0, rest.1, first.2 + rest.2)
        }
    }
}

/// The operators after `lhs`, read from `pos`, as long as they bind at
/// least as tight as `min`.
pub open spec fn p_infix(ts: Toks, end: Span, lhs: SExpr, pos: int, min: int) -> Read
    decreases ts.len() - pos, 2nat,
{
    if 0 <= pos < ts.len() && infix_of(ts[pos].0) is Some && (infix_of(ts[pos].0)->0).1 >= min {
        let (op, lprio, rprio) = infix_of(ts[pos].0)->0;
        let rhs = p_expr(ts, end, pos + 1, rprio);
        let e = SExpr {
            expr: ExprView::Binary(op, ts[pos].1, Box::new(lhs), Box::new(rhs.0)),
            span: join_spec(lhs.span, rhs.0.span),
        };
        if rhs.1 <= pos || rhs.1 > ts.len() {
            (e, rhs.1, rhs.2)
        } else {
            let more = p_infix(ts, end, e, rhs.1, min);
            (more.0, more.1, rhs.2 + more.2)
        }
    } else {
        (lhs, pos, Seq::empty())
    }
}

/// A value and the `.attr` after it, read from `pos`.
pub open spec fn p_prefix(ts: Toks, end: Span, pos: int) -> Read
    decreases ts.len() - pos, 4nat,
{
    let base = p_primary(ts, end, pos);
    if base.1 < pos || base.1 > ts.len() {
        base
    } else {
        let attrs = p_attrs(ts, base.0, base.1);
        (attrs.0, attrs.1, base.2 + attrs.2)
    }
}

/// A value: a variable, a literal, a call, a unary operator and its
/// operand, an expression between parentheses, or a dict.
pub open spec fn p_primary(ts: Toks, end: Span, pos: int) -> Read
    decreases ts.len() - pos, 3nat,
{
    if pos < 0 || pos >= ts.len() {
        (err_view(end), pos, seq![plain(end, DiagnosticKind::ExpectedExpression)])
    } else {
        let span = ts[pos].1;
        let p = pos + 1;
        match ts[pos].0 {
            TokenView::Var(name) => (SExpr { expr: ExprView::Var(name), span }, p, Seq::empty()),
            TokenView::Func(name) => if at(ts, p, TokenView::RParen) {
                (
                    SExpr {
                        expr: ExprView::Function(name, span, Seq::empty()),
                        span: join_spec(span, ts[p].1),
                    },
                    p + 1,
                    Seq::empty(),
                )
            } else {
                p_call(ts, end, name, span, p, Seq::empty())
            },
            TokenView::Ident(w) => (
                lit_view(
                    if w == "true"@ {
                        ValueView::Bool(true)
                    } else if w == "false"@ {
                        ValueView::Bool(false)
                    } else {
                        ValueView::String(w)
                    },
                    span,
                ),
                p,
                Seq::empty(),
            ),
            TokenView::Float(t) => (lit_view(ValueView::Float(t), span), p, Seq::empty()),
            TokenView::Int(n) => (lit_view(ValueView::Int(n), span), p, Seq::empty()),
            TokenView::Str(t) => (lit_view(ValueView::String(t), span), p, Seq::empty()),
            TokenView::Not => p_unary(ts, end, UnaryOp::Not, span, p),
            TokenView::Minus => p_unary(ts, end, UnaryOp::Neg, span, p),
            TokenView::LParen => {
                let inner = p_expr(ts, end, p, 0);
                if at(ts, inner.1, TokenView::RParen) {
                    (inner.0, inner.1 + 1, inner.2)
                } else {
                    (inner.0, inner.1, inner.2.push(plain(span, DiagnosticKind::UnclosedParenthesis)))
                }
            },
            TokenView::LBrace => if at(ts, p, TokenView::RBrace) {
                (
                    SExpr { expr: ExprView::Dict(Seq::empty()), span: join_spec(span, ts[p].1) },
                    p + 1,
                    Seq::empty(),
                )
            } else {
                p_dict(ts, end, span, p, Seq::empty())
            },
            _ => (err_view(span), p, seq![plain(span, DiagnosticKind::ExpectedExpression)]),
        }
    }
}

/// A unary operator standing at `span` and its operand, read from `pos`.
pub open spec fn p_unary(ts: Toks, end: Span, op: UnaryOp, span: Span, pos: int) -> Read
    decreases ts.len() - pos, 6nat,
{
    let rhs = p_expr(ts, end, pos, PREFIX_PRIO as int);
    (
        SExpr {
            expr: ExprView::Unary(op, span, Box::new(rhs.0)),
            span: join_spec(span, rhs.0.span),
        },
        rhs.1,
        rhs.2,
    )
}

/// The arguments of a call to `name`, from `pos` on, `args` being those
/// read before.
pub open spec fn p_call(
    ts: Toks,
    end: Span,
    name: Seq<char>,
    name_span: Span,
    pos: int,
    args: Seq<SExpr>,
) -> Read
    decreases ts.len() - pos, 6nat,
{
    if pos < 0 || pos >= ts.len() {
        (err_view(name_span), pos, seq![plain(name_span, DiagnosticKind::UnclosedCall)])
    } else if ts[pos].0 is RParen || ts[pos].0 is Separator {
        let (e, p) = p_abandon_call(ts, name_span, pos);
        (e, p, seq![plain(ts[pos].1, DiagnosticKind::ExpectedExpression)])
    } else {
        let arg = p_expr(ts, end, pos, 0);
        let args2 = args.push(arg.0);
        let q = arg.1;
        if q < pos || q > ts.len() {
            (arg.0, q, arg.2)
        } else if at(ts, q, TokenView::RParen) {
            (
                SExpr {
                    expr: ExprView::Function(name, name_span, args2),
                    span: join_spec(name_span, ts[q].1),
                },
                q + 1,
                arg.2,
            )
        } else if at(ts, q, TokenView::Separator) {
            let more = p_call(ts, end, name, name_span, q + 1, args2);
            (more.0, more.1, arg.2 + more.2)
        } else if q < ts.len() {
            let (e, p) = p_abandon_call(ts, name_span, q);
            (e, p, arg.2.push(plain(ts[q].1, DiagnosticKind::ExpectedSeparator)))
        } else {
            (err_view(name_span), q, arg.2.push(plain(name_span, DiagnosticKind::UnclosedCall)))
        }
    }
}

/// The entries of a dict opened at `open`, from `pos` on, `entries` being
/// those read before.
pub open spec fn p_dict(
    ts: Toks,
    end: Span,
    open: Span,
    pos: int,
    entries: Seq<((Seq<char>, Span), SExpr)>,
) -> Read
    decreases ts.len() - pos, 6nat,
{
    if pos < 0 || pos >= ts.len() {
        (err_view(open), pos, seq![plain(open, DiagnosticKind::UnclosedDict)])
    } else if !(ts[pos].0 is Ident) {
        let (e, p) = p_abandon_dict(ts, open, pos);
        (e, p, seq![plain(ts[pos].1, DiagnosticKind::ExpectedKey)])
    } else {
        let key = (ts[pos].0->Ident_0, ts[pos].1);
        let c = pos + 1;
        if !at(ts, c, TokenView::Colon) {
            if c < ts.len() {
                let (e, p) = p_abandon_dict(ts, open, c);
                (e, p, seq![plain(ts[c].1, DiagnosticKind::ExpectedColon)])
            } else {
                (err_view(open), c, seq![plain(open, DiagnosticKind::UnclosedDict)])
            }
        } else if c + 1 >= ts.len() {
            (err_view(open), c + 1, seq![plain(open, DiagnosticKind::UnclosedDict)])
        } else if ts[c + 1].0 is RBrace || ts[c + 1].0 is Separator {
            let (e, p) = p_abandon_dict(ts, open, c + 1);
            (e, p, seq![plain(ts[c + 1].1, DiagnosticKind::ExpectedExpression)])
        } else {
            let val = p_expr(ts, end, c + 1, 0);
            let dup: Seq<Report> = match first_key(entries, key.0) {
                Some(i) => seq![duplicate_report(key.0, key.1, (entries[i].0).1)],
                None => Seq::empty(),
            };
            let entries2 = entries.push((key, val.0));
            let q = val.1;
            let so_far = val.2 + dup;
            if q < c + 1 || q > ts.len() {
                (val.0, q, so_far)
            } else if at(ts, q, TokenView::RBrace) {
                (
                    SExpr { expr: ExprView::Dict(entries2), span: join_spec(open, ts[q].1) },
                    q + 1,
                    so_far,
                )
            } else if at(ts, q, TokenView::Separator) {
                let more = p_dict(ts, end, open, q + 1, entries2);
                (more.0, more.1, so_far + more.2)
            } else if q < ts.len() {
                let (e, p) = p_abandon_dict(ts, open, q);
                (e, p, so_far.push(plain(ts[q].1, DiagnosticKind::ExpectedSeparator)))
            } else {
                (err_view(open), q, so_far.push(plain(open, DiagnosticKind::UnclosedDict)))
            }
        }
    }
}

/// [`attr_run`] stops on the first token that is not an `.attr`.
proof fn lemma_attr_run(ts: Toks, pos: int, k: int)
    requires
        0 <= pos <= pos + k <= ts.len(),
        forall|i: int| pos <= i < pos + k ==> (#[trigger] ts[i]).0 is Attr,
        pos + k == ts.len() || !(ts[pos + k].0 is Attr),
    ensures
        attr_run(ts, pos) == k,
    decreases k,
{
    if k > 0 {
        lemma_attr_run(ts, pos + 1, k - 1);
    }
}

/// The names of the `.attr` tokens from `pos` on, and the position after
/// them.
fn collect_attrs(ts: &Vec<Spanned<Token>>, pos: usize) -> (r: (Vec<Spanned<String>>, usize))
    requires
        pos <= ts@.len(),
    ensures
        r.1 == pos + attr_run(token_views(ts@), pos as int),
        r.1 <= ts@.len(),
        crate::parser::expr::names_view(r.0@) == attr_names(token_views(ts@), pos as int, r.1 - pos),
{
    let ghost tv = token_views(ts@);
    let mut attrs: Vec<Spanned<String>> = Vec::new();
    let mut k = pos;
    while k < ts.len() && matches!(ts[k].value, Token::Attr(_))
        invariant
            tv == token_views(ts@),
            pos <= k <= ts@.len(),
            forall|i: int| pos <= i < k ==> (#[trigger] tv[i]).0 is Attr,
            crate::parser::expr::names_view(attrs@) == attr_names(tv, pos as int, k - pos),
        decreases ts@.len() - k,
    {
        proof {
            assert(tv[k as int] == (ts@[k as int].value.view(), ts@[k as int].span));
        }
        let name = match &ts[k].value {
            Token::Attr(a) => a.clone(),
            _ => String::new(),
        };
        let ghost prev = attrs@;
        let item = Spanned::new(name, ts[k].span);
        attrs.push(item);
        proof {
            crate::seqs::lemma_push(prev, item);
            assert(item.value@ == tv[k as int].0->Attr_0);
            let a = crate::parser::expr::names_view(attrs@);
            let b = attr_names(tv, pos as int, k + 1 - pos);
            let c = attr_names(tv, pos as int, k - pos);
            assert(a.len() == attrs@.len());
            assert(attrs@.len() == prev.len() + 1);
            assert(prev.len() == c.len());
            assert(b.len() == k + 1 - pos);
            assert forall|i: int| 0 <= i < a.len() implies a[i] == b[i] by {
                if i < prev.len() {
                    assert(attrs@[i] == prev[i]);
                    assert(crate::parser::expr::names_view(prev)[i] == c[i]);
                }
            }
            assert(a =~= b);
        }
        k = k + 1;
    }
    proof {
        if k < ts@.len() {
            assert(tv[k as int] == (ts@[k as int].value.view(), ts@[k as int].span));
        }
        lemma_attr_run(tv, pos as int, k - pos);
    }
    (attrs, k)
}

/// Every `.attr` after `base`, read from `pos`.
fn attrs_after(ts: &Vec<Spanned<Token>>, base: Spanned<Expr>, pos: usize, diags: &mut Diagnostics) -> (r: (
    Spanned<Expr>,
    usize,
))
    requires
        pos <= ts@.len(),
    ensures
        sview(r.0) == p_attrs(token_views(ts@), sview(base), pos as int).0,
        r.1 == p_attrs(token_views(ts@), sview(base), pos as int).1,
        pos <= r.1 <= ts@.len(),
        reported(old(diags).items(), final(diags).items(), p_attrs(token_views(ts@), sview(base), pos as int).2),
        final(diags).index() == old(diags).index(),
        final(diags).path() == old(diags).path(),
{
    let (attrs, k) = collect_attrs(ts, pos);
    proof {
        crate::parser::diagnostic::lemma_reported_nothing(diags.items());
    }
    if k == pos {
        return (base, pos);
    }
    let full = base.span.join(ts[k - 1].span);
    proof {
        assert(token_views(ts@)[k - 1] == (ts@[k - 1].value.view(), ts@[k - 1].span));
    }
    match base.value {
        Expr::Var { .. } | Expr::Function { .. } => {
            (Spanned::new(Expr::Attr { base: Box::new(base), attrs }, full), k)
        },
        _ => {
            diags.report(full, DiagnosticKind::AttributeOnNonVariable);
            (Spanned::new(Expr::Error, full), k)
        },
    }
}

/// Executable [`p_skip_call`].
fn skip_to_call_end(ts: &Vec<Spanned<Token>>, pos: usize) -> (r: (Option<Span>, usize))
    requires
        pos <= ts@.len(),
    ensures
        (r.0, r.1 as int) == p_skip_call(token_views(ts@), pos as int, 0),
        pos <= r.1 <= ts@.len(),
{
    let ghost tv = token_views(ts@);
    let mut depth: usize = 0;
    let mut k = pos;
    while k < ts.len()
        invariant
            tv == token_views(ts@),
            pos <= k <= ts@.len(),
            depth <= k - pos,
            p_skip_call(tv, pos as int, 0) == p_skip_call(tv, k as int, depth as nat),
        decreases ts@.len() - k,
    {
        let span = ts[k].span;
        match &ts[k].value {
            Token::LParen | Token::Func(_) => {
                depth = depth + 1;
            },
            Token::RParen => {
                if depth == 0 {
                    return (Some(span), k + 1);
                }
                depth = depth - 1;
            },
            _ => {},
        }
        k = k + 1;
    }
    (None, k)
}

/// Executable [`p_skip_dict`].
fn skip_to_dict_end(ts: &Vec<Spanned<Token>>, pos: usize) -> (r: (Option<Span>, usize))
    requires
        pos <= ts@.len(),
    ensures
        (r.0, r.1 as int) == p_skip_dict(token_views(ts@), pos as int, 0),
        pos <= r.1 <= ts@.len(),
{
    let ghost tv = token_views(ts@);
    let mut depth: usize = 0;
    let mut k = pos;
    while k < ts.len()
        invariant
            tv == token_views(ts@),
            pos <= k <= ts@.len(),
            depth <= k - pos,
            p_skip_dict(tv, pos as int, 0) == p_skip_dict(tv, k as int, depth as nat),
        decreases ts@.len() - k,
    {
        let span = ts[k].span;
        match &ts[k].value {
            Token::LBrace => {
                depth = depth + 1;
            },
            Token::RBrace => {
                if depth == 0 {
                    return (Some(span), k + 1);
                }
                depth = depth - 1;
            },
            _ => {},
        }
        k = k + 1;
    }
    (None, k)
}

/// Executable [`p_abandon_call`].
fn abandon_call(ts: &Vec<Spanned<Token>>, name_span: Span, pos: usize) -> (r: (Spanned<Expr>, usize))
    requires
        pos <= ts@.len(),
    ensures
        (sview(r.0), r.1 as int) == p_abandon_call(token_views(ts@), name_span, pos as int),
        pos <= r.1 <= ts@.len(),
{
    let (end, p) = skip_to_call_end(ts, pos);
    let last = match end {
        Some(e) => e,
        None => name_span,
    };
    (Spanned::new(Expr::Error, name_span.join(last)), p)
}

/// Executable [`p_abandon_dict`].
fn abandon_dict(ts: &Vec<Spanned<Token>>, open: Span, pos: usize) -> (r: (Spanned<Expr>, usize))
    requires
        pos <= ts@.len(),
    ensures
        (sview(r.0), r.1 as int) == p_abandon_dict(token_views(ts@), open, pos as int),
        pos <= r.1 <= ts@.len(),
{
    let (end, p) = skip_to_dict_end(ts, pos);
    let last = match end {
        Some(e) => e,
        None => open,
    };
    (Spanned::new(Expr::Error, open.join(last)), p)
}

/// Whether `r`, read with `diags` going from `before` to `after`, is what
/// the reading `read` says.
pub open spec fn read_as(
    read: Read,
    r: (Spanned<Expr>, usize),
    before: Seq<crate::parser::diagnostic::Diagnostic>,
    after: Seq<crate::parser::diagnostic::Diagnostic>,
) -> bool {
    &&& sview(r.0) == read.0
    &&& r.1 == read.1
    &&& reported(before, after, read.2)
}

/// Executable [`infix_of`].
fn infix(t: &Token) -> (r: Option<(BinaryOp, u8, u8)>)
    ensures
        match r {
            Some(x) => infix_of(t.view()) == Some((x.0, x.1 as int, x.2 as int)),
            None => infix_of(t.view()) is None,
        },
{
    match t {
        Token::Or => Some((BinaryOp::Or, 1, 2)),
        Token::And => Some((BinaryOp::And, 3, 4)),
        Token::Eq => Some((BinaryOp::Eq, 5, 6)),
        Token::Ne => Some((BinaryOp::Ne, 5, 6)),
        Token::Lt => Some((BinaryOp::Lt, 5, 6)),
        Token::Le => Some((BinaryOp::Le, 5, 6)),
        Token::Gt => Some((BinaryOp::Gt, 5, 6)),
        Token::Ge => Some((BinaryOp::Ge, 5, 6)),
        Token::Plus => Some((BinaryOp::Add, 7, 8)),
        Token::Minus => Some((BinaryOp::Sub, 7, 8)),
        Token::Star => Some((BinaryOp::Mul, 9, 10)),
        Token::Slash => Some((BinaryOp::Div, 9, 10)),
        _ => None,
    }
}

/// An expression whose operators all bind at least as tight as `min`, read
/// from `pos`.
fn expr_from(
    ts: &Vec<Spanned<Token>>,
    end: Span,
    pos: usize,
    min: u8,
    diags: &mut Diagnostics,
) -> (r: (Spanned<Expr>, usize))
    requires
        pos <= ts@.len(),
    ensures
        read_as(
            p_expr(token_views(ts@), end, pos as int, min as int),
            r,
            old(diags).items(),
            final(diags).items(),
        ),
        pos <= r.1 <= ts@.len(),
        final(diags).index() == old(diags).index(),
        final(diags).path() == old(diags).path(),
    decreases ts@.len() - pos, 5nat,
{
    let ghost start = diags.items();
    let (lhs, p1) = prefix(ts, end, pos, diags);
    let ghost mid = diags.items();
    let ghost first = p_prefix(token_views(ts@), end, pos as int);
    let r = infix_loop(ts, end, lhs, p1, min, diags);
    proof {
        crate::parser::diagnostic::lemma_reported_chain(
            start,
            mid,
            diags.items(),
            first.2,
            p_infix(token_views(ts@), end, first.0, first.1, min as int).2,
        );
    }
    r
}

/// The operators after `lhs`, read from `pos`, as long as they bind at
/// least as tight as `min`.
fn infix_loop(
    ts: &Vec<Spanned<Token>>,
    end: Span,
    lhs: Spanned<Expr>,
    pos: usize,
    min: u8,
    diags: &mut Diagnostics,
) -> (r: (Spanned<Expr>, usize))
    requires
        pos <= ts@.len(),
    ensures
        read_as(
            p_infix(token_views(ts@), end, sview(lhs), pos as int, min as int),
            r,
            old(diags).items(),
            final(diags).items(),
        ),
        pos <= r.1 <= ts@.len(),
        final(diags).index() == old(diags).index(),
        final(diags).path() == old(diags).path(),
    decreases ts@.len() - pos, 2nat,
{
    let ghost tv = token_views(ts@);
    if pos < ts.len() {
        proof {
            assert(tv[pos as int] == (ts@[pos as int].value.view(), ts@[pos as int].span));
        }
        match infix(&ts[pos].value) {
            Some((op, lprio, rprio)) => {
                if lprio >= min {
                    let op_span = ts[pos].span;
                    let ghost start = diags.items();
                    let (rhs, p2) = expr_from(ts, end, pos + 1, rprio, diags);
                    let ghost mid = diags.items();
                    let span = lhs.span.join(rhs.span);
                    let e = Spanned::new(
                        Expr::Binary {
                            op: Spanned::new(op, op_span),
                            lhs: Box::new(lhs),
                            rhs: Box::new(rhs),
                        },
                        span,
                    );
                    let ghost rd = p_expr(tv, end, pos + 1, rprio as int);
                    let r = infix_loop(ts, end, e, p2, min, diags);
                    proof {
                        crate::parser::diagnostic::lemma_reported_chain(
                            start,
                            mid,
                            diags.items(),
                            rd.2,
                            p_infix(tv, end, sview(e), p2 as int, min as int).2,
                        );
                    }
                    return r;
                }
            },
            None => {},
        }
    }
    proof {
        crate::parser::diagnostic::lemma_reported_nothing(diags.items());
    }
    (lhs, pos)
}

/// A value and the `.attr` after it, read from `pos`.
fn prefix(ts: &Vec<Spanned<Token>>, end: Span, pos: usize, diags: &mut Diagnostics) -> (r: (
    Spanned<Expr>,
    usize,
))
    requires
        pos <= ts@.len(),
    ensures
        read_as(p_prefix(token_views(ts@), end, pos as int), r, old(diags).items(), final(diags).items()),
        pos <= r.1 <= ts@.len(),
        final(diags).index() == old(diags).index(),
        final(diags).path() == old(diags).path(),
    decreases ts@.len() - pos, 4nat,
{
    let ghost start = diags.items();
    let (base, p1) = primary(ts, end, pos, diags);
    let ghost mid = diags.items();
    let ghost first = p_primary(token_views(ts@), end, pos as int);
    let r = attrs_after(ts, base, p1, diags);
    proof {
        crate::parser::diagnostic::lemma_reported_chain(
            start,
            mid,
            diags.items(),
            first.2,
            p_attrs(token_views(ts@), first.0, first.1).2,
        );
    }
    r
}

/// A unary operator standing at `span` and its operand, read from `pos`.
fn unary(
    ts: &Vec<Spanned<Token>>,
    end: Span,
    op: UnaryOp,
    span: Span,
    pos: usize,
    diags: &mut Diagnostics,
) -> (r: (Spanned<Expr>, usize))
    requires
        pos <= ts@.len(),
    ensures
        read_as(
            p_unary(token_views(ts@), end, op, span, pos as int),
            r,
            old(diags).items(),
            final(diags).items(),
        ),
        pos <= r.1 <= ts@.len(),
        final(diags).index() == old(diags).index(),
        final(diags).path() == old(diags).path(),
    decreases ts@.len() - pos, 6nat,
{
    let (rhs, p) = expr_from(ts, end, pos, PREFIX_PRIO, diags);
    let full = span.join(rhs.span);
    (Spanned::new(Expr::Unary { op: Spanned::new(op, span), rhs: Box::new(rhs) }, full), p)
}

/// Whether the token at `pos` is a `)`.
fn is_rparen(ts: &Vec<Spanned<Token>>, pos: usize) -> (r: bool)
    ensures
        r == at(token_views(ts@), pos as int, TokenView::RParen),
{
    if pos < ts.len() {
        proof {
            assert(token_views(ts@)[pos as int] == (ts@[pos as int].value.view(), ts@[pos as int].span));
        }
        matches!(ts[pos].value, Token::RParen)
    } else {
        false
    }
}

/// Whether the token at `pos` is a `}`.
fn is_rbrace(ts: &Vec<Spanned<Token>>, pos: usize) -> (r: bool)
    ensures
        r == at(token_views(ts@), pos as int, TokenView::RBrace),
{
    if pos < ts.len() {
        proof {
            assert(token_views(ts@)[pos as int] == (ts@[pos as int].value.view(), ts@[pos as int].span));
        }
        matches!(ts[pos].value, Token::RBrace)
    } else {
        false
    }
}

/// Whether the token at `pos` is a `,`.
fn is_separator(ts: &Vec<Spanned<Token>>, pos: usize) -> (r: bool)
    ensures
        r == at(token_views(ts@), pos as int, TokenView::Separator),
{
    if pos < ts.len() {
        proof {
            assert(token_views(ts@)[pos as int] == (ts@[pos as int].value.view(), ts@[pos as int].span));
        }
        matches!(ts[pos].value, Token::Separator)
    } else {
        false
    }
}

/// Whether the token at `pos` is a `:`.
fn is_colon(ts: &Vec<Spanned<Token>>, pos: usize) -> (r: bool)
    ensures
        r == at(token_views(ts@), pos as int, TokenView::Colon),
{
    if pos < ts.len() {
        proof {
            assert(token_views(ts@)[pos as int] == (ts@[pos as int].value.view(), ts@[pos as int].span));
        }
        matches!(ts[pos].value, Token::Colon)
    } else {
        false
    }
}

/// A literal standing at `span`.
fn lit(value: Value, span: Span) -> (r: Spanned<Expr>)
    ensures
        sview(r) == lit_view(crate::parser::expr::value_view(value), span),
{
    Spanned::new(Expr::Litteral { value }, span)
}

/// The value a word stands for: `true`, `false`, or the word itself.
fn word_value(w: &String) -> (r: Value)
    ensures
        crate::parser::expr::value_view(r) == (if w@ == "true"@ {
            ValueView::Bool(true)
        } else if w@ == "false"@ {
            ValueView::Bool(false)
        } else {
            ValueView::String(w@)
        }),
{
    if text::chars_eq(w.as_str(), "true") {
        Value::Bool(true)
    } else if text::chars_eq(w.as_str(), "false") {
        Value::Bool(false)
    } else {
        Value::String(w.clone())
    }
}

/// A value: a variable, a literal, a call, a unary operator and its
/// operand, an expression between parentheses, or a dict.
fn primary(ts: &Vec<Spanned<Token>>, end: Span, pos: usize, diags: &mut Diagnostics) -> (r: (
    Spanned<Expr>,
    usize,
))
    requires
        pos <= ts@.len(),
    ensures
        read_as(p_primary(token_views(ts@), end, pos as int), r, old(diags).items(), final(diags).items()),
        pos <= r.1 <= ts@.len(),
        final(diags).index() == old(diags).index(),
        final(diags).path() == old(diags).path(),
    decreases ts@.len() - pos, 3nat,
{
    let ghost tv = token_views(ts@);
    if pos >= ts.len() {
        diags.report(end, DiagnosticKind::ExpectedExpression);
        return (Spanned::new(Expr::Error, end), pos);
    }
    proof {
        assert(tv[pos as int] == (ts@[pos as int].value.view(), ts@[pos as int].span));
        crate::parser::diagnostic::lemma_reported_nothing(diags.items());
    }
    let span = ts[pos].span;
    let p = pos + 1;
    match &ts[pos].value {
        Token::Var(name) => (Spanned::new(Expr::Var { name: name.clone() }, span), p),
        Token::Func(name) => {
            if is_rparen(ts, p) {
                proof {
                    assert(tv[p as int] == (ts@[p as int].value.view(), ts@[p as int].span));
                }
                let full = span.join(ts[p].span);
                let args: Vec<Spanned<Expr>> = Vec::new();
                proof {
                    assert(crate::parser::expr::args_view(args@) =~= Seq::<SExpr>::empty());
                }
                (
                    Spanned::new(
                        Expr::Function { name: Spanned::new(name.clone(), span), args },
                        full,
                    ),
                    p + 1,
                )
            } else {
                let args: Vec<Spanned<Expr>> = Vec::new();
                proof {
                    assert(crate::parser::expr::args_view(args@) =~= Seq::<SExpr>::empty());
                }
                parse_call(ts, end, name.clone(), span, p, args, diags)
            }
        },
        Token::Ident(w) => (lit(word_value(w), span), p),
        Token::Float(t) => (lit(Value::Float(t.clone()), span), p),
        Token::Int(n) => (lit(Value::Int(*n), span), p),
        Token::Str(t) => (lit(Value::String(t.clone()), span), p),
        Token::Not => unary(ts, end, UnaryOp::Not, span, p, diags),
        Token::Minus => unary(ts, end, UnaryOp::Neg, span, p, diags),
        Token::LParen => {
            let ghost start = diags.items();
            let (inner, q) = expr_from(ts, end, p, 0, diags);
            if is_rparen(ts, q) {
                (inner, q + 1)
            } else {
                let ghost mid = diags.items();
                diags.report(span, DiagnosticKind::UnclosedParenthesis);
                proof {
                    crate::parser::diagnostic::lemma_reported_chain(
                        start,
                        mid,
                        diags.items(),
                        p_expr(tv, end, p as int, 0).2,
                        seq![plain(span, DiagnosticKind::UnclosedParenthesis)],
                    );
                }
                (inner, q)
            }
        },
        Token::LBrace => {
            if is_rbrace(ts, p) {
                proof {
                    assert(tv[p as int] == (ts@[p as int].value.view(), ts@[p as int].span));
                }
                let full = span.join(ts[p].span);
                let attrs: Vec<(Spanned<String>, Spanned<Expr>)> = Vec::new();
                proof {
                    assert(crate::parser::expr::entries_view(attrs@) =~= Seq::<
                        ((Seq<char>, Span), SExpr),
                    >::empty());
                }
                (Spanned::new(Expr::LitteralDict(attrs), full), p + 1)
            } else {
                let attrs: Vec<(Spanned<String>, Spanned<Expr>)> = Vec::new();
                proof {
                    assert(crate::parser::expr::entries_view(attrs@) =~= Seq::<
                        ((Seq<char>, Span), SExpr),
                    >::empty());
                }
                parse_litteral_dict(ts, end, span, p, attrs, diags)
            }
        },
        _ => {
            diags.report(span, DiagnosticKind::ExpectedExpression);
            (Spanned::new(Expr::Error, span), p)
        },
    }
}

/// The arguments of a call to `name`, from `pos` on, `args` being those
/// read before.
fn parse_call(
    ts: &Vec<Spanned<Token>>,
    end: Span,
    name: String,
    name_span: Span,
    pos: usize,
    args: Vec<Spanned<Expr>>,
    diags: &mut Diagnostics,
) -> (r: (Spanned<Expr>, usize))
    requires
        pos <= ts@.len(),
    ensures
        read_as(
            p_call(
                token_views(ts@),
                end,
                name@,
                name_span,
                pos as int,
                crate::parser::expr::args_view(args@),
            ),
            r,
            old(diags).items(),
            final(diags).items(),
        ),
        pos <= r.1 <= ts@.len(),
        final(diags).index() == old(diags).index(),
        final(diags).path() == old(diags).path(),
    decreases ts@.len() - pos, 6nat,
{
    let ghost tv = token_views(ts@);
    let mut args = args;
    if pos >= ts.len() {
        diags.report(name_span, DiagnosticKind::UnclosedCall);
        return (Spanned::new(Expr::Error, name_span), pos);
    }
    proof {
        assert(tv[pos as int] == (ts@[pos as int].value.view(), ts@[pos as int].span));
    }
    if matches!(ts[pos].value, Token::RParen | Token::Separator) {
        diags.report(ts[pos].span, DiagnosticKind::ExpectedExpression);
        return abandon_call(ts, name_span, pos);
    }
    let ghost start = diags.items();
    let ghost prev_args = crate::parser::expr::args_view(args@);
    let (arg, q) = expr_from(ts, end, pos, 0, diags);
    let ghost mid = diags.items();
    let ghost rd = p_expr(tv, end, pos as int, 0);
    let ghost before_push = args@;
    args.push(arg);
    proof {
        crate::seqs::lemma_push(before_push, arg);
        assert(args@.subrange(0, args@.len() - 1) =~= before_push);
        assert(crate::parser::expr::args_view(args@) == prev_args.push(rd.0));
    }
    if is_rparen(ts, q) {
        proof {
            assert(tv[q as int] == (ts@[q as int].value.view(), ts@[q as int].span));
        }
        let full = name_span.join(ts[q].span);
        return (
            Spanned::new(Expr::Function { name: Spanned::new(name, name_span), args }, full),
            q + 1,
        );
    }
    if is_separator(ts, q) {
        let r = parse_call(ts, end, name, name_span, q + 1, args, diags);
        proof {
            crate::parser::diagnostic::lemma_reported_chain(
                start,
                mid,
                diags.items(),
                rd.2,
                p_call(tv, end, name@, name_span, q + 1, prev_args.push(rd.0)).2,
            );
        }
        return r;
    }
    if q < ts.len() {
        proof {
            assert(tv[q as int] == (ts@[q as int].value.view(), ts@[q as int].span));
        }
        diags.report(ts[q].span, DiagnosticKind::ExpectedSeparator);
        proof {
            crate::parser::diagnostic::lemma_reported_chain(
                start,
                mid,
                diags.items(),
                rd.2,
                seq![plain(ts@[q as int].span, DiagnosticKind::ExpectedSeparator)],
            );
        }
        return abandon_call(ts, name_span, q);
    }
    diags.report(name_span, DiagnosticKind::UnclosedCall);
    proof {
        crate::parser::diagnostic::lemma_reported_chain(
            start,
            mid,
            diags.items(),
            rd.2,
            seq![plain(name_span, DiagnosticKind::UnclosedCall)],
        );
    }
    (Spanned::new(Expr::Error, name_span), q)
}

/// [`first_key`] is the first entry named `key`.
proof fn lemma_first_key(entries: Seq<((Seq<char>, Span), SExpr)>, key: Seq<char>)
    ensures
        match first_key(entries, key) {
            Some(i) => 0 <= i < entries.len() && (entries[i].0).0 == key && forall|j: int|
                0 <= j < i ==> (#[trigger] entries[j].0).0 != key,
            None => forall|j: int| 0 <= j < entries.len() ==> (#[trigger] entries[j].0).0 != key,
        },
    decreases entries.len(),
{
    if entries.len() > 0 {
        let init = entries.subrange(0, entries.len() - 1);
        lemma_first_key(init, key);
        assert forall|j: int| 0 <= j < init.len() implies init[j] == entries[j] by {}
    }
}

/// Index of the first entry of `attrs` named `key`.
fn find_key(attrs: &Vec<(Spanned<String>, Spanned<Expr>)>, key: &String) -> (r: Option<usize>)
    ensures
        match r {
            Some(i) => first_key(crate::parser::expr::entries_view(attrs@), key@) == Some(i as int),
            None => first_key(crate::parser::expr::entries_view(attrs@), key@) is None,
        },
        r is Some ==> r->0 < attrs@.len(),
{
    let ghost ev = crate::parser::expr::entries_view(attrs@);
    proof {
        lemma_entries_view_keys(attrs@);
        lemma_first_key(ev, key@);
    }
    let mut i: usize = 0;
    while i < attrs.len()
        invariant
            i <= attrs@.len(),
            ev == crate::parser::expr::entries_view(attrs@),
            ev.len() == attrs@.len(),
            forall|j: int| 0 <= j < attrs@.len() ==> (#[trigger] ev[j].0).0 == attrs@[j].0.value@,
            forall|j: int| 0 <= j < i ==> (#[trigger] ev[j].0).0 != key@,
        decreases attrs@.len() - i,
    {
        if text::chars_eq(attrs[i].0.value.as_str(), key.as_str()) {
            proof {
                lemma_first_key(ev, key@);
                assert((ev[i as int].0).0 == key@);
                match first_key(ev, key@) {
                    Some(j) => {
                        if j < i {
                            assert((ev[j].0).0 != key@);
                        }
                        if j > i {
                            assert((ev[i as int].0).0 != key@);
                        }
                    },
                    None => {
                        assert((ev[i as int].0).0 != key@);
                    },
                }
            }
            return Some(i);
        }
        i = i + 1;
    }
    proof {
        lemma_first_key(ev, key@);
        if first_key(ev, key@) is Some {
            let j = first_key(ev, key@)->0;
            assert((ev[j].0).0 != key@);
        }
    }
    None
}

/// The keys the view of entries holds are those of the entries.
proof fn lemma_entries_view_keys(attrs: Seq<(Spanned<String>, Spanned<Expr>)>)
    ensures
        crate::parser::expr::entries_view(attrs).len() == attrs.len(),
        forall|j: int|
            0 <= j < attrs.len() ==> (#[trigger] crate::parser::expr::entries_view(attrs)[j].0) == (
                attrs[j].0.value@,
                attrs[j].0.span,
            ),
    decreases attrs.len(),
{
    if attrs.len() > 0 {
        let init = attrs.subrange(0, attrs.len() - 1);
        lemma_entries_view_keys(init);
        let ev = crate::parser::expr::entries_view(attrs);
        let iv = crate::parser::expr::entries_view(init);
        assert forall|j: int| 0 <= j < attrs.len() implies (#[trigger] ev[j].0) == (
            attrs[j].0.value@,
            attrs[j].0.span,
        ) by {
            if j < init.len() {
                assert(ev[j] == iv[j]);
                assert(init[j] == attrs[j]);
            }
        }
    }
}

/// Warns about `key` when an entry of `attrs` already has that name.
fn check_duplicate(
    attrs: &Vec<(Spanned<String>, Spanned<Expr>)>,
    key: &Spanned<String>,
    diags: &mut Diagnostics,
)
    ensures
        reported(
            old(diags).items(),
            final(diags).items(),
            match first_key(crate::parser::expr::entries_view(attrs@), key.value@) {
                Some(i) => seq![
                    duplicate_report(
                        key.value@,
                        key.span,
                        (crate::parser::expr::entries_view(attrs@)[i].0).1,
                    ),
                ],
                None => Seq::<Report>::empty(),
            },
        ),
        final(diags).index() == old(diags).index(),
        final(diags).path() == old(diags).path(),
{
    proof {
        lemma_entries_view_keys(attrs@);
    }
    match find_key(attrs, &key.value) {
        Some(i) => {
            let first = attrs[i].0.span;
            let labels = vec![Label { span: first, message: text::owned("first given here") }];
            diags.report_labeled(key.span, DiagnosticKind::DuplicateKey(key.value.clone()), labels);
            proof {
                assert(crate::parser::diagnostic::label_views(labels@) =~= seq![
                    (first, "first given here"@),
                ]);
            }
        },
        None => {
            proof {
                crate::parser::diagnostic::lemma_reported_nothing(diags.items());
            }
        },
    }
}

/// The entries of a dict opened at `open`, from `pos` on, `attrs` being
/// those read before.
fn parse_litteral_dict(
    ts: &Vec<Spanned<Token>>,
    end: Span,
    open: Span,
    pos: usize,
    attrs: Vec<(Spanned<String>, Spanned<Expr>)>,
    diags: &mut Diagnostics,
) -> (r: (Spanned<Expr>, usize))
    requires
        pos <= ts@.len(),
    ensures
        read_as(
            p_dict(token_views(ts@), end, open, pos as int, crate::parser::expr::entries_view(attrs@)),
            r,
            old(diags).items(),
            final(diags).items(),
        ),
        pos <= r.1 <= ts@.len(),
        final(diags).index() == old(diags).index(),
        final(diags).path() == old(diags).path(),
    decreases ts@.len() - pos, 6nat,
{
    let ghost tv = token_views(ts@);
    let ghost ev = crate::parser::expr::entries_view(attrs@);
    let mut attrs = attrs;
    if pos >= ts.len() {
        diags.report(open, DiagnosticKind::UnclosedDict);
        return (Spanned::new(Expr::Error, open), pos);
    }
    proof {
        assert(tv[pos as int] == (ts@[pos as int].value.view(), ts@[pos as int].span));
    }
    let key = match &ts[pos].value {
        Token::Ident(k) => Spanned::new(k.clone(), ts[pos].span),
        _ => {
            diags.report(ts[pos].span, DiagnosticKind::ExpectedKey);
            return abandon_dict(ts, open, pos);
        },
    };
    let c = pos + 1;
    if !is_colon(ts, c) {
        if c < ts.len() {
            proof {
                assert(tv[c as int] == (ts@[c as int].value.view(), ts@[c as int].span));
            }
            diags.report(ts[c].span, DiagnosticKind::ExpectedColon);
            return abandon_dict(ts, open, c);
        }
        diags.report(open, DiagnosticKind::UnclosedDict);
        return (Spanned::new(Expr::Error, open), c);
    }
    if c + 1 >= ts.len() {
        diags.report(open, DiagnosticKind::UnclosedDict);
        return (Spanned::new(Expr::Error, open), c + 1);
    }
    proof {
        assert(tv[c + 1] == (ts@[c + 1].value.view(), ts@[c + 1].span));
    }
    if matches!(ts[c + 1].value, Token::RBrace | Token::Separator) {
        diags.report(ts[c + 1].span, DiagnosticKind::ExpectedExpression);
        return abandon_dict(ts, open, c + 1);
    }
    let ghost start = diags.items();
    let (val, q) = expr_from(ts, end, c + 1, 0, diags);
    let ghost rd = p_expr(tv, end, c + 1, 0);
    let ghost mid = diags.items();
    check_duplicate(&attrs, &key, diags);
    let ghost dup: Seq<Report> = match first_key(ev, key.value@) {
        Some(i) => seq![duplicate_report(key.value@, key.span, (ev[i].0).1)],
        None => Seq::<Report>::empty(),
    };
    proof {
        crate::parser::diagnostic::lemma_reported_chain(start, mid, diags.items(), rd.2, dup);
    }
    let ghost before_push = attrs@;
    let entry = (key, val);
    attrs.push(entry);
    proof {
        crate::seqs::lemma_push(before_push, entry);
        assert(attrs@.subrange(0, attrs@.len() - 1) =~= before_push);
        assert(crate::parser::expr::entries_view(attrs@) == ev.push(
            ((key.value@, key.span), rd.0),
        ));
    }
    let ghost so_far = diags.items();
    if is_rbrace(ts, q) {
        proof {
            assert(tv[q as int] == (ts@[q as int].value.view(), ts@[q as int].span));
        }
        let full = open.join(ts[q].span);
        return (Spanned::new(Expr::LitteralDict(attrs), full), q + 1);
    }
    if is_separator(ts, q) {
        let r = parse_litteral_dict(ts, end, open, q + 1, attrs, diags);
        proof {
            crate::parser::diagnostic::lemma_reported_chain(
                start,
                so_far,
                diags.items(),
                rd.2 + dup,
                p_dict(tv, end, open, q + 1, ev.push(((key.value@, key.span), rd.0))).2,
            );
        }
        return r;
    }
    if q < ts.len() {
        proof {
            assert(tv[q as int] == (ts@[q as int].value.view(), ts@[q as int].span));
        }
        diags.report(ts[q].span, DiagnosticKind::ExpectedSeparator);
        proof {
            crate::parser::diagnostic::lemma_reported_chain(
                start,
                so_far,
                diags.items(),
                rd.2 + dup,
                seq![plain(ts@[q as int].span, DiagnosticKind::ExpectedSeparator)],
            );
        }
        return abandon_dict(ts, open, q);
    }
    diags.report(open, DiagnosticKind::UnclosedDict);
    proof {
        crate::parser::diagnostic::lemma_reported_chain(
            start,
            so_far,
            diags.items(),
            rd.2 + dup,
            seq![plain(open, DiagnosticKind::UnclosedDict)],
        );
    }
    (Spanned::new(Expr::Error, open), q)
}

/// Reads an expression out of the tokens of a source, one token after the
/// other.
pub struct ExprParser {
    lexed: Lexed,
    pos: usize,
    /// Empty span at the end of the source.
    end_span: Span,
}

/// The empty span at the end of `src`.
pub open spec fn end_of(src: Spanned<&str>) -> Span {
    Span { start: src.span.end, end: src.span.end }
}

impl ExprParser {
    #[verifier::type_invariant]
    spec fn inv(self) -> bool {
        self.pos <= self.lexed.tokens@.len()
    }

    /// The tokens of the source, and where they stand.
    pub closed spec fn toks(self) -> Toks {
        token_views(self.lexed.tokens@)
    }

    /// Position of the first token left to read.
    pub closed spec fn position(self) -> int {
        self.pos as int
    }

    /// The empty span at the end of the source.
    pub closed spec fn end(self) -> Span {
        self.end_span
    }

    /// Reads the tokens of `src`, reporting what does not lex.
    pub fn new(src: &Spanned<&str>, diags: &mut Diagnostics) -> (r: Self)
        requires
            src.span.start + text::blen(src.value@) <= usize::MAX,
        ensures
            r.toks() == lex_from(src.value@, src.span.start as int, 0).0,
            r.position() == 0,
            r.end() == end_of(*src),
            reported(
                old(diags).items(),
                final(diags).items(),
                lex_from(src.value@, src.span.start as int, 0).1,
            ),
            final(diags).index() == old(diags).index(),
            final(diags).path() == old(diags).path(),
    {
        ExprParser { lexed: lex(src, diags), pos: 0, end_span: Span::from_length(src.span.end, 0) }
    }

    /// Reads an expression whose operators all bind at least as tight as
    /// `min_prio`, from the first token left.
    pub fn expr(&mut self, min_prio: u8, diags: &mut Diagnostics) -> (r: Spanned<Expr>)
        ensures
            sview(r) == p_expr(old(self).toks(), old(self).end(), old(self).position(), min_prio as int).0,
            final(self).position() == p_expr(
                old(self).toks(),
                old(self).end(),
                old(self).position(),
                min_prio as int,
            ).1,
            final(self).toks() == old(self).toks(),
            final(self).end() == old(self).end(),
            reported(
                old(diags).items(),
                final(diags).items(),
                p_expr(old(self).toks(), old(self).end(), old(self).position(), min_prio as int).2,
            ),
            final(diags).index() == old(diags).index(),
            final(diags).path() == old(diags).path(),
    {
        proof {
            use_type_invariant(&*self);
        }
        let (e, p) = expr_from(&self.lexed.tokens, self.end_span, self.pos, min_prio, diags);
        self.pos = p;
        e
    }

    /// From the token left to read, if any, to the end of `src`.
    pub fn trailing(&self, src: &Spanned<&str>) -> (r: Option<Span>)
        ensures
            r == trailing_spec(self.toks(), self.position(), src.span.end),
    {
        proof {
            use_type_invariant(self);
        }
        if self.pos < self.lexed.tokens.len() {
            proof {
                assert(self.toks()[self.position()] == (
                    self.lexed.tokens@[self.position()].value.view(),
                    self.lexed.tokens@[self.position()].span,
                ));
            }
            Some(Span::new(self.lexed.tokens[self.pos].span.start, src.span.end))
        } else {
            None
        }
    }
}

/// From the token at `pos`, if any, to `end`.
pub open spec fn trailing_spec(ts: Toks, pos: int, end: usize) -> Option<Span> {
    if 0 <= pos < ts.len() {
        Some(Span { start: ts[pos].1.start, end })
    } else {
        None
    }
}

/// The tokens of the text `t`.
pub open spec fn text_tokens(t: TextView) -> Toks {
    lex_from(t.value, t.span.start as int, 0).0
}

/// What [`parse_with_trailing`] reads of the text `t`: the expression and
/// where its tokens end.
pub open spec fn text_reading(t: TextView) -> Read {
    p_expr(text_tokens(t), Span { start: t.span.end, end: t.span.end }, 0, 0)
}

/// What reading the text `t` reports: what does not lex, what does not
/// parse, then the operators that do not take their operands.
pub open spec fn parse_reports(t: TextView) -> Seq<Report> {
    lex_from(t.value, t.span.start as int, 0).1 + text_reading(t).2 + check_spec(
        text_reading(t).0.expr,
    ).1
}

/// What follows the expression of `t`, from its first token left to the
/// end of `t`.
pub open spec fn parse_trailing(t: TextView) -> Option<Span> {
    trailing_spec(text_tokens(t), text_reading(t).1, t.span.end)
}

/// What [`parse_with_trailing`] reads of `src`.
pub open spec fn src_reading(src: Spanned<&str>) -> Read {
    text_reading(tv(src))
}

/// Reads the expression `src` holds, and checks the types of its operators.
pub fn parse(src: &Spanned<&str>, diags: &mut Diagnostics) -> (r: Spanned<Expr>)
    requires
        src.span.start + text::blen(src.value@) <= usize::MAX,
    ensures
        sview(r) == text_reading(tv(*src)).0,
        reported(old(diags).items(), final(diags).items(), parse_reports(tv(*src))),
        final(diags).index() == old(diags).index(),
        final(diags).path() == old(diags).path(),
{
    parse_with_trailing(src, diags).0
}

/// Same, plus the span of what follows the expression when it does not read
/// the whole of `src`. What to make of that text is up to the caller.
pub fn parse_with_trailing(src: &Spanned<&str>, diags: &mut Diagnostics) -> (r: (
    Spanned<Expr>,
    Option<Span>,
))
    requires
        src.span.start + text::blen(src.value@) <= usize::MAX,
    ensures
        sview(r.0) == text_reading(tv(*src)).0,
        r.1 == parse_trailing(tv(*src)),
        reported(old(diags).items(), final(diags).items(), parse_reports(tv(*src))),
        final(diags).index() == old(diags).index(),
        final(diags).path() == old(diags).path(),
{
    let ghost d0 = diags.items();
    let mut parser = ExprParser::new(src, diags);
    let ghost d1 = diags.items();
    let expr = parser.expr(0, diags);
    let ghost d2 = diags.items();
    expr.value.is_type_valid(diags);
    let trailing = parser.trailing(src);
    proof {
        let lexed = lex_from(src.value@, src.span.start as int, 0);
        crate::parser::diagnostic::lemma_reported_chain(d0, d1, d2, lexed.1, src_reading(*src).2);
        crate::parser::diagnostic::lemma_reported_chain(
            d0,
            d2,
            diags.items(),
            lexed.1 + src_reading(*src).2,
            check_spec(expr_view(expr.value)).1,
        );
    }
    (expr, trailing)
}

/// What `$name = <expression>` holds, once read.
pub struct Assignment {
    /// Name of the variable, without its `$`. Its span covers the sigil.
    pub name: Spanned<String>,
    /// Name of the path of attibutes
    pub attrs: Vec<Spanned<String>>,
    pub value: Spanned<Expr>,
    /// What the expression did not read, from the first token left to the end
    /// of the source. Reported by the caller, which knows what statement it
    /// is reading.
    pub trailing: Option<Span>,
}

/// Position of the `=` of `$name.attr... = <expression>`, when the tokens
/// start that way.
pub open spec fn assign_at(ts: Toks) -> Option<int> {
    if ts.len() > 0 && ts[0].0 is Var && at(ts, 1 + attr_run(ts, 1) as int, TokenView::Assign) {
        Some(1 + attr_run(ts, 1) as int)
    } else {
        None
    }
}

/// Reads `$name = <expression>` out of `src`.
pub fn parse_assignment(src: &Spanned<&str>, diags: &mut Diagnostics) -> (r: Option<Assignment>)
    requires
        src.span.start + text::blen(src.value@) <= usize::MAX,
    ensures
        ({
            let lexed = lex_from(src.value@, src.span.start as int, 0);
            let ts = lexed.0;
            match r {
                Some(a) => {
                    let k = assign_at(ts)->0;
                    let rd = p_expr(ts, end_of(*src), k + 1, 0);
                    &&& assign_at(ts) is Some
                    &&& a.name.value@ == ts[0].0->Var_0
                    &&& a.name.span == ts[0].1
                    &&& crate::parser::expr::names_view(a.attrs@) == attr_names(ts, 1, k - 1)
                    &&& sview(a.value) == rd.0
                    &&& a.trailing == trailing_spec(ts, rd.1, src.span.end)
                    &&& reported(
                        old(diags).items(),
                        final(diags).items(),
                        lexed.1 + rd.2 + check_spec(expr_view(a.value.value)).1,
                    )
                },
                None => {
                    &&& assign_at(ts) is None
                    &&& reported(old(diags).items(), final(diags).items(), lexed.1)
                },
            }
        }),
        final(diags).index() == old(diags).index(),
        final(diags).path() == old(diags).path(),
{
    let ghost d0 = diags.items();
    let mut parser = ExprParser::new(src, diags);
    let ghost d1 = diags.items();
    let ghost tv = parser.toks();
    let n = parser.lexed.tokens.len();
    if n == 0 {
        return None;
    }
    proof {
        assert(tv[0] == (parser.lexed.tokens@[0].value.view(), parser.lexed.tokens@[0].span));
    }
    let name = match &parser.lexed.tokens[0].value {
        Token::Var(v) => Spanned::new(v.clone(), parser.lexed.tokens[0].span),
        _ => {
            return None;
        },
    };
    let (attrs, k) = collect_attrs(&parser.lexed.tokens, 1);
    if !(k < n && matches!(parser.lexed.tokens[k].value, Token::Assign)) {
        proof {
            if k < n {
                assert(tv[k as int] == (parser.lexed.tokens@[k as int].value.view(), parser.lexed.tokens@[k as int].span));
            }
        }
        return None;
    }
    proof {
        assert(tv[k as int] == (parser.lexed.tokens@[k as int].value.view(), parser.lexed.tokens@[k as int].span));
    }
    parser.pos = k + 1;
    let value = parser.expr(0, diags);
    let ghost d2 = diags.items();
    value.value.is_type_valid(diags);
    let trailing = parser.trailing(src);
    proof {
        let lexed = lex_from(src.value@, src.span.start as int, 0);
        let rd = p_expr(tv, end_of(*src), k + 1, 0);
        crate::parser::diagnostic::lemma_reported_chain(d0, d1, d2, lexed.1, rd.2);
        crate::parser::diagnostic::lemma_reported_chain(
            d0,
            d2,
            diags.items(),
            lexed.1 + rd.2,
            check_spec(expr_view(value.value)).1,
        );
    }
    Some(Assignment { name, attrs, value, trailing })
}

} // verus!
