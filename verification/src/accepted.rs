//! What the parser accepts compiles.
//!
//! Every fault a writer can make in a source is reported as an error by the
//! parser: an expression it cannot read, a `[break]` outside of a loop. What
//! it hands on without an error is a tree the compiler turns into nodes, all
//! of them, as long as a node stays within the ids it can hand out.

use vstd::prelude::*;

use crate::dialogue::{lower, lower_args, lower_entries, lower_parts};
use crate::parser::ast::{
    command_call, command_spec, condition_spec, inline_part, inline_reports, inline_text, let_spec, next_from,
    text_parts, text_piece, TextPartView,
};
use crate::parser::expr::lexer::lex_from;
use crate::parser::expr::pratt::{assign_at, parse_reports, text_reading, text_tokens};
use crate::parser::lines::TextView;
use crate::parser::ast::{BranchView, ChoiceView, StmtKindView, StmtView};
use crate::parser::lines::LineKindView;
use crate::parser::tree::{
    p_block, p_branch, p_branches, p_choice, p_choice_group, p_choices, p_file, p_if, p_line, p_node, p_statement,
    p_while, seq_of, Lines, NodeView,
};
use crate::dialogue::{
    c_block, c_branches, c_choices, c_node, c_stmt, lemma_compiled_body_closes, node_compiles, push_step, Exits,
    StepView,
};
use crate::parser::diagnostic::{
    count_severity, kind_severity, plain, report_of, reported, Diagnostic, DiagnosticKind, Report, Severity,
};
use crate::parser::tree::{parse_spec, src_lines};
use crate::runtime::StepId;
use crate::parser::expr::pratt::{
    infix_of, p_attrs, p_call, p_dict, p_expr, p_infix, p_prefix, p_primary, p_unary,
    Read, Toks, PREFIX_PRIO,
};
use crate::parser::expr::{ExprView, SExpr};
use crate::parser::Span;

verus! {

/// Whether a report is an error: every code is, but those of the warnings.
pub open spec fn is_error(r: Report) -> bool {
    !(r.1 == "empty-node"@ || r.1 == "single-choice"@ || r.1 == "unexpected-indentation"@ || r.1
        == "indented-node-start"@ || r.1 == "indented-node-end"@ || r.1 == "trailing-after-command"@ || r.1
        == "duplicate-key"@)
}

/// Whether one of `reps` is an error.
pub open spec fn errs(reps: Seq<Report>) -> bool {
    exists|i: int| 0 <= i < reps.len() && is_error(#[trigger] reps[i])
}

/// Reports hold an error when one of their parts does.
proof fn lemma_errs_concat(a: Seq<Report>, b: Seq<Report>)
    ensures
        errs(a + b) == (errs(a) || errs(b)),
{
    if errs(a) {
        let i = choose|i: int| 0 <= i < a.len() && is_error(#[trigger] a[i]);
        assert((a + b)[i] == a[i]);
    }
    if errs(b) {
        let i = choose|i: int| 0 <= i < b.len() && is_error(#[trigger] b[i]);
        assert((a + b)[a.len() + i] == b[i]);
    }
    if errs(a + b) {
        let i = choose|i: int| 0 <= i < (a + b).len() && is_error(#[trigger] (a + b)[i]);
        if i < a.len() {
            assert(a[i] == (a + b)[i]);
        } else {
            assert(b[i - a.len()] == (a + b)[i]);
        }
    }
}

/// A report added to others holds an error when it is one.
proof fn lemma_errs_push(a: Seq<Report>, r: Report)
    ensures
        errs(a.push(r)) == (errs(a) || is_error(r)),
{
    assert(a.push(r) =~= a + seq![r]);
    lemma_errs_concat(a, seq![r]);
    if is_error(r) {
        assert(seq![r][0] == r);
    }
}

/// The code `c` is none of a warning, so its reports are errors.
proof fn lemma_error_code(r: Report, c: Seq<char>)
    requires
        r.1 == c,
        c != "empty-node"@,
        c != "single-choice"@,
        c != "unexpected-indentation"@,
        c != "indented-node-start"@,
        c != "indented-node-end"@,
        c != "trailing-after-command"@,
        c != "duplicate-key"@,
    ensures
        is_error(r),
{
}

/// The kinds a reading of an expression reports when it gives up are errors.
proof fn lemma_reading_errors(s: Span)
    ensures
        is_error(plain(s, DiagnosticKind::ExpectedExpression)),
        is_error(plain(s, DiagnosticKind::UnclosedCall)),
        is_error(plain(s, DiagnosticKind::ExpectedSeparator)),
        is_error(plain(s, DiagnosticKind::UnclosedParenthesis)),
        is_error(plain(s, DiagnosticKind::AttributeOnNonVariable)),
        is_error(plain(s, DiagnosticKind::UnclosedDict)),
        is_error(plain(s, DiagnosticKind::ExpectedColon)),
        is_error(plain(s, DiagnosticKind::ExpectedKey)),
{
    reveal_strlit("empty-node");
    reveal_strlit("single-choice");
    reveal_strlit("unexpected-indentation");
    reveal_strlit("indented-node-start");
    reveal_strlit("indented-node-end");
    reveal_strlit("trailing-after-command");
    reveal_strlit("duplicate-key");
    reveal_strlit("expected-expression");
    reveal_strlit("unclosed-call");
    reveal_strlit("expected-arg-separator");
    reveal_strlit("unclosed-parenthesis");
    reveal_strlit("attribute-on-non-variable");
    reveal_strlit("unclosed-dict");
    reveal_strlit("expected-colon");
    reveal_strlit("expected-key");
    assert("expected-expression"@.len() != "empty-node"@.len());
    assert("expected-expression"@.len() != "single-choice"@.len());
    assert("expected-expression"@.len() != "unexpected-indentation"@.len());
    assert("expected-expression"@[0] != "indented-node-start"@[0]);
    assert("expected-expression"@.len() != "indented-node-end"@.len());
    assert("expected-expression"@.len() != "trailing-after-command"@.len());
    assert("expected-expression"@.len() != "duplicate-key"@.len());
    lemma_error_code(plain(s, DiagnosticKind::ExpectedExpression), "expected-expression"@);
    assert("unclosed-call"@.len() != "empty-node"@.len());
    assert("unclosed-call"@[0] != "single-choice"@[0]);
    assert("unclosed-call"@.len() != "unexpected-indentation"@.len());
    assert("unclosed-call"@.len() != "indented-node-start"@.len());
    assert("unclosed-call"@.len() != "indented-node-end"@.len());
    assert("unclosed-call"@.len() != "trailing-after-command"@.len());
    assert("unclosed-call"@[0] != "duplicate-key"@[0]);
    lemma_error_code(plain(s, DiagnosticKind::UnclosedCall), "unclosed-call"@);
    assert("expected-arg-separator"@.len() != "empty-node"@.len());
    assert("expected-arg-separator"@.len() != "single-choice"@.len());
    assert("expected-arg-separator"@[0] != "unexpected-indentation"@[0]);
    assert("expected-arg-separator"@.len() != "indented-node-start"@.len());
    assert("expected-arg-separator"@.len() != "indented-node-end"@.len());
    assert("expected-arg-separator"@[0] != "trailing-after-command"@[0]);
    assert("expected-arg-separator"@.len() != "duplicate-key"@.len());
    lemma_error_code(plain(s, DiagnosticKind::ExpectedSeparator), "expected-arg-separator"@);
    assert("unclosed-parenthesis"@.len() != "empty-node"@.len());
    assert("unclosed-parenthesis"@.len() != "single-choice"@.len());
    assert("unclosed-parenthesis"@.len() != "unexpected-indentation"@.len());
    assert("unclosed-parenthesis"@.len() != "indented-node-start"@.len());
    assert("unclosed-parenthesis"@.len() != "indented-node-end"@.len());
    assert("unclosed-parenthesis"@.len() != "trailing-after-command"@.len());
    assert("unclosed-parenthesis"@.len() != "duplicate-key"@.len());
    lemma_error_code(plain(s, DiagnosticKind::UnclosedParenthesis), "unclosed-parenthesis"@);
    assert("attribute-on-non-variable"@.len() != "empty-node"@.len());
    assert("attribute-on-non-variable"@.len() != "single-choice"@.len());
    assert("attribute-on-non-variable"@.len() != "unexpected-indentation"@.len());
    assert("attribute-on-non-variable"@.len() != "indented-node-start"@.len());
    assert("attribute-on-non-variable"@.len() != "indented-node-end"@.len());
    assert("attribute-on-non-variable"@.len() != "trailing-after-command"@.len());
    assert("attribute-on-non-variable"@.len() != "duplicate-key"@.len());
    lemma_error_code(plain(s, DiagnosticKind::AttributeOnNonVariable), "attribute-on-non-variable"@);
    assert("unclosed-dict"@.len() != "empty-node"@.len());
    assert("unclosed-dict"@[0] != "single-choice"@[0]);
    assert("unclosed-dict"@.len() != "unexpected-indentation"@.len());
    assert("unclosed-dict"@.len() != "indented-node-start"@.len());
    assert("unclosed-dict"@.len() != "indented-node-end"@.len());
    assert("unclosed-dict"@.len() != "trailing-after-command"@.len());
    assert("unclosed-dict"@[0] != "duplicate-key"@[0]);
    lemma_error_code(plain(s, DiagnosticKind::UnclosedDict), "unclosed-dict"@);
    assert("expected-colon"@.len() != "empty-node"@.len());
    assert("expected-colon"@.len() != "single-choice"@.len());
    assert("expected-colon"@.len() != "unexpected-indentation"@.len());
    assert("expected-colon"@.len() != "indented-node-start"@.len());
    assert("expected-colon"@.len() != "indented-node-end"@.len());
    assert("expected-colon"@.len() != "trailing-after-command"@.len());
    assert("expected-colon"@.len() != "duplicate-key"@.len());
    lemma_error_code(plain(s, DiagnosticKind::ExpectedColon), "expected-colon"@);
    assert("expected-key"@.len() != "empty-node"@.len());
    assert("expected-key"@.len() != "single-choice"@.len());
    assert("expected-key"@.len() != "unexpected-indentation"@.len());
    assert("expected-key"@.len() != "indented-node-start"@.len());
    assert("expected-key"@.len() != "indented-node-end"@.len());
    assert("expected-key"@.len() != "trailing-after-command"@.len());
    assert("expected-key"@.len() != "duplicate-key"@.len());
    lemma_error_code(plain(s, DiagnosticKind::ExpectedKey), "expected-key"@);
}

/// Whether what a reading gives compiles, or it reports an error.
pub open spec fn read_ok(r: Read) -> bool {
    lower(r.0.expr) is Some || errs(r.2)
}

/// The arguments compile, one more among them when it does.
proof fn lemma_args_push(args: Seq<SExpr>, x: SExpr)
    ensures
        lower_args(args.push(x)) is Some <==> lower_args(args) is Some && lower(x.expr) is Some,
{
    assert(args.push(x).subrange(0, args.len() as int) =~= args);
}

/// The entries compile, one more among them when it does.
proof fn lemma_entries_push(es: Seq<((Seq<char>, Span), SExpr)>, x: ((Seq<char>, Span), SExpr))
    ensures
        lower_entries(es.push(x)) is Some <==> lower_entries(es) is Some && lower(x.1.expr) is Some,
{
    assert(es.push(x).subrange(0, es.len() as int) =~= es);
}

/// Attributes read on an expression that compiles compile, or are
/// reported.
proof fn lemma_p_attrs(ts: Toks, base: SExpr, pos: int)
    requires
        lower(base.expr) is Some,
    ensures
        read_ok(p_attrs(ts, base, pos)),
{
    let n = crate::parser::expr::pratt::attr_run(ts, pos) as int;
    if n > 0 && !(base.expr is Var || base.expr is Function) {
        let full = crate::parser::join_spec(base.span, ts[pos + n - 1].1);
        lemma_reading_errors(full);
        lemma_errs_push(Seq::empty(), plain(full, DiagnosticKind::AttributeOnNonVariable));
        assert(seq![plain(full, DiagnosticKind::AttributeOnNonVariable)] =~= Seq::<Report>::empty().push(
            plain(full, DiagnosticKind::AttributeOnNonVariable),
        ));
    }
}

/// An expression read from a position within the tokens compiles, or its
/// reading reports an error.
proof fn lemma_p_expr(ts: Toks, end: Span, pos: int, min: int)
    requires
        0 <= pos <= ts.len(),
    ensures
        read_ok(p_expr(ts, end, pos, min)),
    decreases ts.len() - pos, 5nat,
{
    lemma_p_prefix(ts, end, pos);
    let first = p_prefix(ts, end, pos);
    if !(first.1 < pos || first.1 > ts.len()) {
        if lower(first.0.expr) is Some {
            lemma_p_infix(ts, end, first.0, first.1, min);
        }
        let rest = p_infix(ts, end, first.0, first.1, min);
        lemma_errs_concat(first.2, rest.2);
    }
}

/// The operators after an operand that compiles compile, or are reported.
proof fn lemma_p_infix(ts: Toks, end: Span, lhs: SExpr, pos: int, min: int)
    requires
        lower(lhs.expr) is Some,
    ensures
        read_ok(p_infix(ts, end, lhs, pos, min)),
    decreases ts.len() - pos, 2nat,
{
    if 0 <= pos < ts.len() && infix_of(ts[pos].0) is Some && (infix_of(ts[pos].0)->0).1 >= min {
        let (op, lprio, rprio) = infix_of(ts[pos].0)->0;
        lemma_p_expr(ts, end, pos + 1, rprio);
        let rhs = p_expr(ts, end, pos + 1, rprio);
        let e = SExpr {
            expr: ExprView::Binary(op, ts[pos].1, Box::new(lhs), Box::new(rhs.0)),
            span: crate::parser::join_spec(lhs.span, rhs.0.span),
        };
        if !(rhs.1 <= pos || rhs.1 > ts.len()) {
            if lower(e.expr) is Some {
                lemma_p_infix(ts, end, e, rhs.1, min);
            }
            let more = p_infix(ts, end, e, rhs.1, min);
            lemma_errs_concat(rhs.2, more.2);
        }
    }
}

/// A value and its attributes compile, or are reported.
proof fn lemma_p_prefix(ts: Toks, end: Span, pos: int)
    requires
        0 <= pos <= ts.len(),
    ensures
        read_ok(p_prefix(ts, end, pos)),
    decreases ts.len() - pos, 4nat,
{
    lemma_p_primary(ts, end, pos);
    let base = p_primary(ts, end, pos);
    if !(base.1 < pos || base.1 > ts.len()) {
        if lower(base.0.expr) is Some {
            lemma_p_attrs(ts, base.0, base.1);
        }
        let attrs = p_attrs(ts, base.0, base.1);
        lemma_errs_concat(base.2, attrs.2);
    }
}

/// A value compiles, or is reported.
proof fn lemma_p_primary(ts: Toks, end: Span, pos: int)
    requires
        0 <= pos <= ts.len(),
    ensures
        read_ok(p_primary(ts, end, pos)),
    decreases ts.len() - pos, 3nat,
{
    if pos >= ts.len() {
        lemma_reading_errors(end);
        lemma_errs_push(Seq::empty(), plain(end, DiagnosticKind::ExpectedExpression));
        assert(seq![plain(end, DiagnosticKind::ExpectedExpression)] =~= Seq::<Report>::empty().push(
            plain(end, DiagnosticKind::ExpectedExpression),
        ));
    } else {
        let span = ts[pos].1;
        let p = pos + 1;
        match ts[pos].0 {
            crate::parser::expr::lexer::TokenView::Func(name) => {
                if !crate::parser::expr::pratt::at(ts, p, crate::parser::expr::lexer::TokenView::RParen) {
                    lemma_p_call(ts, end, name, span, p, Seq::empty());
                }
            },
            crate::parser::expr::lexer::TokenView::Not => {
                lemma_p_unary(ts, end, crate::parser::expr::UnaryOp::Not, span, p);
            },
            crate::parser::expr::lexer::TokenView::Minus => {
                lemma_p_unary(ts, end, crate::parser::expr::UnaryOp::Neg, span, p);
            },
            crate::parser::expr::lexer::TokenView::LParen => {
                lemma_p_expr(ts, end, p, 0);
                let inner = p_expr(ts, end, p, 0);
                lemma_errs_push(inner.2, plain(span, DiagnosticKind::UnclosedParenthesis));
            },
            crate::parser::expr::lexer::TokenView::LBrace => {
                if !crate::parser::expr::pratt::at(ts, p, crate::parser::expr::lexer::TokenView::RBrace) {
                    lemma_p_dict(ts, end, span, p, Seq::empty());
                }
            },
            crate::parser::expr::lexer::TokenView::Var(_) => {},
            crate::parser::expr::lexer::TokenView::Ident(_) => {},
            crate::parser::expr::lexer::TokenView::Float(_) => {},
            crate::parser::expr::lexer::TokenView::Int(_) => {},
            crate::parser::expr::lexer::TokenView::Str(_) => {},
            _ => {
                lemma_reading_errors(span);
                lemma_errs_push(Seq::empty(), plain(span, DiagnosticKind::ExpectedExpression));
                assert(seq![plain(span, DiagnosticKind::ExpectedExpression)] =~= Seq::<Report>::empty().push(
                    plain(span, DiagnosticKind::ExpectedExpression),
                ));
            },
        }
    }
}

/// A unary operator and its operand compile, or are reported.
proof fn lemma_p_unary(ts: Toks, end: Span, op: crate::parser::expr::UnaryOp, span: Span, pos: int)
    requires
        0 <= pos <= ts.len(),
    ensures
        read_ok(p_unary(ts, end, op, span, pos)),
    decreases ts.len() - pos, 6nat,
{
    lemma_p_expr(ts, end, pos, PREFIX_PRIO as int);
}

/// The arguments of a call, after some that compile, compile, or are
/// reported.
proof fn lemma_p_call(ts: Toks, end: Span, name: Seq<char>, name_span: Span, pos: int, args: Seq<SExpr>)
    requires
        0 <= pos <= ts.len(),
        lower_args(args) is Some,
    ensures
        read_ok(p_call(ts, end, name, name_span, pos, args)),
    decreases ts.len() - pos, 6nat,
{
    lemma_reading_errors(name_span);
    if pos >= ts.len() {
        lemma_errs_push(Seq::empty(), plain(name_span, DiagnosticKind::UnclosedCall));
        assert(seq![plain(name_span, DiagnosticKind::UnclosedCall)] =~= Seq::<Report>::empty().push(
            plain(name_span, DiagnosticKind::UnclosedCall),
        ));
    } else if ts[pos].0 is RParen || ts[pos].0 is Separator {
        lemma_reading_errors(ts[pos].1);
        lemma_errs_push(Seq::empty(), plain(ts[pos].1, DiagnosticKind::ExpectedExpression));
        assert(seq![plain(ts[pos].1, DiagnosticKind::ExpectedExpression)] =~= Seq::<Report>::empty().push(
            plain(ts[pos].1, DiagnosticKind::ExpectedExpression),
        ));
    } else {
        lemma_p_expr(ts, end, pos, 0);
        let arg = p_expr(ts, end, pos, 0);
        let args2 = args.push(arg.0);
        lemma_args_push(args, arg.0);
        let q = arg.1;
        if q < pos || q > ts.len() {
        } else if crate::parser::expr::pratt::at(ts, q, crate::parser::expr::lexer::TokenView::RParen) {
        } else if crate::parser::expr::pratt::at(ts, q, crate::parser::expr::lexer::TokenView::Separator) {
            if lower(arg.0.expr) is Some {
                lemma_p_call(ts, end, name, name_span, q + 1, args2);
            }
            let more = p_call(ts, end, name, name_span, q + 1, args2);
            lemma_errs_concat(arg.2, more.2);
        } else if q < ts.len() {
            lemma_reading_errors(ts[q].1);
            lemma_errs_push(arg.2, plain(ts[q].1, DiagnosticKind::ExpectedSeparator));
        } else {
            lemma_errs_push(arg.2, plain(name_span, DiagnosticKind::UnclosedCall));
        }
    }
}

/// The entries of a dict, after some that compile, compile, or are
/// reported.
proof fn lemma_p_dict(
    ts: Toks,
    end: Span,
    open: Span,
    pos: int,
    entries: Seq<((Seq<char>, Span), SExpr)>,
)
    requires
        0 <= pos <= ts.len(),
        lower_entries(entries) is Some,
    ensures
        read_ok(p_dict(ts, end, open, pos, entries)),
    decreases ts.len() - pos, 6nat,
{
    lemma_reading_errors(open);
    if pos >= ts.len() {
        lemma_errs_push(Seq::empty(), plain(open, DiagnosticKind::UnclosedDict));
        assert(seq![plain(open, DiagnosticKind::UnclosedDict)] =~= Seq::<Report>::empty().push(
            plain(open, DiagnosticKind::UnclosedDict),
        ));
    } else if !(ts[pos].0 is Ident) {
        lemma_reading_errors(ts[pos].1);
        lemma_errs_push(Seq::empty(), plain(ts[pos].1, DiagnosticKind::ExpectedKey));
        assert(seq![plain(ts[pos].1, DiagnosticKind::ExpectedKey)] =~= Seq::<Report>::empty().push(
            plain(ts[pos].1, DiagnosticKind::ExpectedKey),
        ));
    } else {
        let key = (ts[pos].0->Ident_0, ts[pos].1);
        let c = pos + 1;
        if !crate::parser::expr::pratt::at(ts, c, crate::parser::expr::lexer::TokenView::Colon) {
            if c < ts.len() {
                lemma_reading_errors(ts[c].1);
                lemma_errs_push(Seq::empty(), plain(ts[c].1, DiagnosticKind::ExpectedColon));
                assert(seq![plain(ts[c].1, DiagnosticKind::ExpectedColon)] =~= Seq::<Report>::empty().push(
                    plain(ts[c].1, DiagnosticKind::ExpectedColon),
                ));
            } else {
                lemma_errs_push(Seq::empty(), plain(open, DiagnosticKind::UnclosedDict));
                assert(seq![plain(open, DiagnosticKind::UnclosedDict)] =~= Seq::<Report>::empty().push(
                    plain(open, DiagnosticKind::UnclosedDict),
                ));
            }
        } else if c + 1 >= ts.len() {
            lemma_errs_push(Seq::empty(), plain(open, DiagnosticKind::UnclosedDict));
            assert(seq![plain(open, DiagnosticKind::UnclosedDict)] =~= Seq::<Report>::empty().push(
                plain(open, DiagnosticKind::UnclosedDict),
            ));
        } else if ts[c + 1].0 is RBrace || ts[c + 1].0 is Separator {
            lemma_reading_errors(ts[c + 1].1);
            lemma_errs_push(Seq::empty(), plain(ts[c + 1].1, DiagnosticKind::ExpectedExpression));
            assert(seq![plain(ts[c + 1].1, DiagnosticKind::ExpectedExpression)] =~= Seq::<Report>::empty().push(
                plain(ts[c + 1].1, DiagnosticKind::ExpectedExpression),
            ));
        } else {
            lemma_p_expr(ts, end, c + 1, 0);
            let val = p_expr(ts, end, c + 1, 0);
            let dup: Seq<Report> = match crate::parser::expr::pratt::first_key(entries, key.0) {
                Some(i) => seq![crate::parser::expr::pratt::duplicate_report(key.0, key.1, (entries[i].0).1)],
                None => Seq::empty(),
            };
            let entries2 = entries.push((key, val.0));
            lemma_entries_push(entries, (key, val.0));
            let q = val.1;
            let so_far = val.2 + dup;
            lemma_errs_concat(val.2, dup);
            if q < c + 1 || q > ts.len() {
            } else if crate::parser::expr::pratt::at(ts, q, crate::parser::expr::lexer::TokenView::RBrace) {
            } else if crate::parser::expr::pratt::at(ts, q, crate::parser::expr::lexer::TokenView::Separator) {
                if lower(val.0.expr) is Some {
                    lemma_p_dict(ts, end, open, q + 1, entries2);
                }
                let more = p_dict(ts, end, open, q + 1, entries2);
                lemma_errs_concat(so_far, more.2);
            } else if q < ts.len() {
                lemma_reading_errors(ts[q].1);
                lemma_errs_push(so_far, plain(ts[q].1, DiagnosticKind::ExpectedSeparator));
            } else {
                lemma_errs_push(so_far, plain(open, DiagnosticKind::UnclosedDict));
            }
        }
    }
}

/// What reading a text gives compiles, or reading it reports an error.
proof fn lemma_text_reading(t: TextView)
    ensures
        lower(text_reading(t).0.expr) is Some || errs(parse_reports(t)),
{
    lemma_p_expr(text_tokens(t), Span { start: t.span.end, end: t.span.end }, 0, 0);
    let lexed = lex_from(t.value, t.span.start as int, 0).1;
    let mid = text_reading(t).2;
    let chk = crate::parser::expr::check_spec(text_reading(t).0.expr).1;
    lemma_errs_concat(lexed, mid);
    lemma_errs_concat(lexed + mid, chk);
}

/// The condition of an `[if]`, an `[elif]` or a `[while]` compiles when it
/// is kept, or it is reported.
proof fn lemma_condition(body: TextView, line_span: Span, marker: Seq<char>)
    ensures
        condition_spec(body, line_span, marker).0 matches Some(e) ==> lower(e.expr) is Some || errs(
            condition_spec(body, line_span, marker).1,
        ),
{
    let st = crate::parser::ast::strip_spec(body, line_span, marker);
    match st.0 {
        Some(inner) => lemma_text_reading(inner),
        None => {},
    }
}

/// The arguments of a command compile when it is kept, or are reported.
proof fn lemma_command(cmd: TextView, line_span: Span)
    ensures
        command_spec(cmd, line_span).0 matches Some(st) ==> st.kind matches StmtKindView::Command(_, args) && (
        lower_args(args) is Some || errs(command_spec(cmd, line_span).1)),
{
    reveal(command_spec);
    lemma_text_reading(cmd);
    let reps = parse_reports(cmd);
    let e = text_reading(cmd).0;
    let name = crate::parser::ast::command_name(cmd.value);
    if name.len() != 0 && crate::parser::ast::valid_ident(name) {
        if let ExprView::Function(fname, fspan, args) = e.expr {
            assert(lower(e.expr) is Some <==> lower_args(args) is Some);
            if e.span != cmd.span {
                let rest = crate::parser::ast::after_call(cmd, e.span.end as int);
                let r = plain(
                    Span { start: (cmd.span.end - crate::text::blen(rest)) as usize, end: cmd.span.end },
                    DiagnosticKind::TrailingAfterCommand,
                );
                lemma_errs_push(reps, r);
                assert(command_call(cmd).1 == reps.push(r));
            } else {
                assert(command_call(cmd).1 == reps);
            }
            assert(command_call(cmd).0 == Some(
                crate::parser::ast::StmtView { kind: StmtKindView::Command((fname, fspan), args), span: e.span },
            ));
        }
    }
}

/// The value of an assignment compiles when it is kept, or is reported.
proof fn lemma_let(body: TextView, line_span: Span)
    ensures
        let_spec(body, line_span).0 matches Some(st) ==> st.kind matches StmtKindView::Let(_, _, v) && (lower(
            v.expr,
        ) is Some || errs(let_spec(body, line_span).1)),
{
    reveal(let_spec);
    let st = crate::parser::ast::strip_spec(body, line_span, "[let"@);
    match st.0 {
        Some(inner) => {
            let lexed = lex_from(inner.value, inner.span.start as int, 0);
            let ts = lexed.0;
            match assign_at(ts) {
                Some(k) => {
                    let end = Span { start: inner.span.end, end: inner.span.end };
                    lemma_p_expr(ts, end, k + 1, 0);
                    let rd = p_expr(ts, end, k + 1, 0);
                    let chk = crate::parser::expr::check_spec(rd.0.expr).1;
                    lemma_errs_concat(lexed.1, rd.2);
                    lemma_errs_concat(lexed.1 + rd.2, chk);
                },
                None => {},
            }
        },
        None => {},
    }
}

/// [`next_from`] finds a `c` at or after `i`.
proof fn lemma_next_from_found(s: Seq<char>, c: char, i: int)
    requires
        next_from(s, c, i) is Some,
    ensures
        i <= next_from(s, c, i)->0 < s.len(),
        s[next_from(s, c, i)->0] == c,
    decreases s.len() - i,
{
    if 0 <= i < s.len() && s[i] != c {
        lemma_next_from_found(s, c, i + 1);
    }
}

/// The parts compile when each part does.
proof fn lemma_parts_concat(a: Seq<(TextPartView, Span)>, b: Seq<(TextPartView, Span)>)
    requires
        lower_parts(a) is Some,
        lower_parts(b) is Some,
    ensures
        lower_parts(a + b) is Some,
    decreases b.len(),
{
    if b.len() > 0 {
        let bp = b.subrange(0, b.len() - 1);
        assert((a + b).subrange(0, (a + b).len() - 1) =~= a + bp);
        assert((a + b)[(a + b).len() - 1] == b[b.len() - 1]);
        lemma_parts_concat(a, bp);
    }
}

/// A piece of text compiles.
proof fn lemma_piece(s: Seq<char>, base: int, a: int, b: int)
    ensures
        lower_parts(text_piece(s, base, a, b)) is Some,
{
    reveal(text_piece);
    if a != b {
        let p = text_piece(s, base, a, b);
        assert(p.subrange(0, 0) =~= Seq::<(TextPartView, Span)>::empty());
        assert(lower_parts(Seq::<(TextPartView, Span)>::empty()) is Some);
    }
}

/// The parts of a line compile, or an inline expression among them is
/// reported.
proof fn lemma_text_parts(s: Seq<char>, base: int, rest: int)
    ensures
        lower_parts(text_parts(s, base, rest).0) is Some || errs(text_parts(s, base, rest).1),
    decreases s.len() - rest,
{
    reveal(text_parts);
    if rest < 0 || rest > s.len() {
        assert(lower_parts(Seq::<(TextPartView, Span)>::empty()) is Some);
    } else {
        match next_from(s, '[', rest) {
            None => lemma_piece(s, base, rest, s.len() as int),
            Some(open) => {
                lemma_next_from_found(s, '[', rest);
                let pre = text_piece(s, base, rest, open);
                lemma_piece(s, base, rest, open);
                match next_from(s, ']', open) {
                    None => {
                        lemma_piece(s, base, open, s.len() as int);
                        lemma_parts_concat(pre, text_piece(s, base, open, s.len() as int));
                    },
                    Some(close) => {
                        lemma_next_from_found(s, ']', open);
                        let inner = inline_text(s, base, open, close);
                        reveal(inline_part);
                        reveal(inline_reports);
                        lemma_text_reading(inner);
                        let part = inline_part(inner);
                        let here = pre.push(part);
                        let trail: Seq<Report> = match crate::parser::expr::pratt::parse_trailing(inner) {
                            Some(sp) => seq![plain(sp, DiagnosticKind::UnexpectedTextInBracket)],
                            None => Seq::empty(),
                        };
                        lemma_errs_concat(parse_reports(inner), trail);
                        if lower(text_reading(inner).0.expr) is Some {
                            assert(lower_parts(seq![part]) is Some) by {
                                assert(seq![part].subrange(0, 0) =~= Seq::<(TextPartView, Span)>::empty());
                                assert(lower_parts(Seq::<(TextPartView, Span)>::empty()) is Some);
                            }
                            lemma_parts_concat(pre, seq![part]);
                            assert(pre + seq![part] =~= here);
                        }
                        if !(close + 1 <= rest || close >= s.len()) {
                            lemma_text_parts(s, base, close + 1);
                            let more = text_parts(s, base, close + 1);
                            lemma_errs_concat(inline_reports(inner), more.1);
                            if lower_parts(here) is Some && lower_parts(more.0) is Some {
                                lemma_parts_concat(here, more.0);
                            }
                        }
                    },
                }
            },
        }
    }
}

/// Whether the statement compiles: each expression it holds does, and a
/// `[break]` or a `[continue]` stands in a loop.
pub open spec fn stmt_ok(st: StmtView, in_loop: bool) -> bool
    decreases st,
{
    match st.kind {
        StmtKindView::Say(_, parts) => lower_parts(parts) is Some,
        StmtKindView::Command(_, args) => lower_args(args) is Some,
        StmtKindView::Let(_, _, v) => lower(v.expr) is Some,
        StmtKindView::If(bs, otherwise) => branches_ok(bs, in_loop) && match otherwise {
            Some(b) => block_ok(b, in_loop),
            None => true,
        },
        StmtKindView::Jump(_) => true,
        StmtKindView::Choice(cs) => choices_ok(cs, in_loop),
        StmtKindView::While(c, body) => lower(c.expr) is Some && block_ok(body, true),
        StmtKindView::Break => in_loop,
        StmtKindView::Continue => in_loop,
    }
}

/// Whether every statement of the block compiles.
pub open spec fn block_ok(b: Seq<StmtView>, in_loop: bool) -> bool
    decreases b,
{
    if b.len() == 0 {
        true
    } else {
        block_ok(b.subrange(0, b.len() - 1), in_loop) && stmt_ok(b[b.len() - 1], in_loop)
    }
}

/// Whether every branch of a condition group compiles: its condition and
/// its body.
pub open spec fn branches_ok(bs: Seq<BranchView>, in_loop: bool) -> bool
    decreases bs,
{
    if bs.len() == 0 {
        true
    } else {
        branches_ok(bs.subrange(0, bs.len() - 1), in_loop) && lower(bs[bs.len() - 1].condition.expr) is Some
            && block_ok(bs[bs.len() - 1].body, in_loop)
    }
}

/// Whether every option of a choice compiles: its text and its body.
pub open spec fn choices_ok(cs: Seq<ChoiceView>, in_loop: bool) -> bool
    decreases cs,
{
    if cs.len() == 0 {
        true
    } else {
        choices_ok(cs.subrange(0, cs.len() - 1), in_loop) && lower_parts(cs[cs.len() - 1].text) is Some
            && block_ok(cs[cs.len() - 1].body, in_loop)
    }
}

/// Whether the `[else]` body, when there is one, compiles.
pub open spec fn else_ok(o: Option<Seq<StmtView>>, in_loop: bool) -> bool {
    match o {
        Some(b) => block_ok(b, in_loop),
        None => true,
    }
}

/// Two blocks that compile compile one after the other.
proof fn lemma_block_concat(a: Seq<StmtView>, b: Seq<StmtView>, in_loop: bool)
    requires
        block_ok(a, in_loop),
        block_ok(b, in_loop),
    ensures
        block_ok(a + b, in_loop),
    decreases b.len(),
{
    if b.len() > 0 {
        let bp = b.subrange(0, b.len() - 1);
        assert((a + b).subrange(0, (a + b).len() - 1) =~= a + bp);
        assert((a + b)[(a + b).len() - 1] == b[b.len() - 1]);
        lemma_block_concat(a, bp, in_loop);
    }
}

/// The options of a choice, some that compile, then more, compile.
proof fn lemma_choices_concat(a: Seq<ChoiceView>, b: Seq<ChoiceView>, in_loop: bool)
    requires
        choices_ok(a, in_loop),
        choices_ok(b, in_loop),
    ensures
        choices_ok(a + b, in_loop),
    decreases b.len(),
{
    if b.len() > 0 {
        let bp = b.subrange(0, b.len() - 1);
        assert((a + b).subrange(0, (a + b).len() - 1) =~= a + bp);
        assert((a + b)[(a + b).len() - 1] == b[b.len() - 1]);
        lemma_choices_concat(a, bp, in_loop);
    }
}

/// A statement that compiles is a block that does.
proof fn lemma_block_one(o: Option<StmtView>, in_loop: bool)
    requires
        o matches Some(s) ==> stmt_ok(s, in_loop),
    ensures
        block_ok(seq_of(o), in_loop),
{
    match o {
        Some(s) => {
            assert(seq![s].subrange(0, 0) =~= Seq::<StmtView>::empty());
            assert(block_ok(Seq::<StmtView>::empty(), in_loop));
        },
        None => {},
    }
}

/// A block read from line `pos` compiles, or reading it reports an error.
proof fn lemma_p_block(ls: Lines, pos: int, min: int, in_loop: bool)
    ensures
        block_ok(p_block(ls, pos, min, in_loop).0, in_loop) || errs(p_block(ls, pos, min, in_loop).2),
    decreases ls.len() - pos, 4int,
{
    if pos < 0 || pos >= ls.len() || (ls[pos].indent as int) < min || crate::parser::tree::at_boundary(ls, pos) {
    } else {
        let pre: Seq<Report> = if ls[pos].indent > min {
            seq![plain(ls[pos].span, DiagnosticKind::UnexpectedIndentation)]
        } else {
            Seq::empty()
        };
        lemma_p_statement(ls, pos, in_loop);
        let one = p_statement(ls, pos, in_loop);
        lemma_errs_concat(pre, one.2);
        if one.0 matches Some(s) && stmt_ok(s, in_loop) {
            lemma_block_one(one.0, in_loop);
        }
        if !(one.1 <= pos || one.1 > ls.len()) {
            lemma_p_block(ls, one.1, min, in_loop);
            let rest = p_block(ls, one.1, min, in_loop);
            lemma_errs_concat(pre + one.2, rest.2);
            if block_ok(seq_of(one.0), in_loop) && block_ok(rest.0, in_loop) {
                lemma_block_concat(seq_of(one.0), rest.0, in_loop);
            }
        }
    }
}

/// A statement read from line `pos` compiles, or reading it reports an
/// error.
proof fn lemma_p_statement(ls: Lines, pos: int, in_loop: bool)
    ensures
        p_statement(ls, pos, in_loop).0 matches Some(s) ==> stmt_ok(s, in_loop) || errs(
            p_statement(ls, pos, in_loop).2,
        ),
        p_statement(ls, pos, in_loop).0 is None ==> true,
    decreases ls.len() - pos, 3int,
{
    if 0 <= pos < ls.len() {
        match ls[pos].kind {
            LineKindView::Choice(_) => lemma_p_choice_group(ls, pos, in_loop),
            LineKindView::If(_) => lemma_p_if(ls, pos, in_loop),
            LineKindView::While(_) => lemma_p_while(ls, pos, in_loop),
            _ => lemma_p_line(ls, pos, in_loop),
        }
    }
}

/// A choice group compiles, or is reported.
proof fn lemma_p_choice_group(ls: Lines, pos: int, in_loop: bool)
    ensures
        stmt_ok(p_choice_group(ls, pos, in_loop).0, in_loop) || errs(p_choice_group(ls, pos, in_loop).2),
    decreases ls.len() - pos, 2int,
{
    if 0 <= pos < ls.len() {
        let first = ls[pos];
        lemma_p_choices(ls, pos, first.indent as int, in_loop);
        let cs = p_choices(ls, pos, first.indent as int, in_loop);
        let single = p_choice_group(ls, pos, in_loop).2.subrange(cs.2.len() as int, p_choice_group(ls, pos, in_loop).2.len() as int);
        assert(p_choice_group(ls, pos, in_loop).2 =~= cs.2 + single);
        lemma_errs_concat(cs.2, single);
    } else {
        assert(choices_ok(Seq::<ChoiceView>::empty(), in_loop));
    }
}

/// The options of a choice group compile, or are reported.
proof fn lemma_p_choices(ls: Lines, pos: int, base: int, in_loop: bool)
    ensures
        choices_ok(p_choices(ls, pos, base, in_loop).0, in_loop) || errs(p_choices(ls, pos, base, in_loop).2),
    decreases ls.len() - pos, 1int,
{
    if pos < 0 || pos >= ls.len() || !(ls[pos].kind is Choice) || ls[pos].indent != base {
    } else {
        lemma_p_choice(ls, pos, base, in_loop);
        let c = p_choice(ls, pos, base, in_loop);
        let one = seq![c.0];
        assert(one.subrange(0, 0) =~= Seq::<ChoiceView>::empty());
        assert(choices_ok(Seq::<ChoiceView>::empty(), in_loop));
        if !(c.1 <= pos || c.1 > ls.len()) {
            lemma_p_choices(ls, c.1, base, in_loop);
            let rest = p_choices(ls, c.1, base, in_loop);
            lemma_errs_concat(c.2, rest.2);
            if choices_ok(one, in_loop) && choices_ok(rest.0, in_loop) {
                lemma_choices_concat(one, rest.0, in_loop);
            }
        }
    }
}

/// An option of a choice compiles, or is reported.
proof fn lemma_p_choice(ls: Lines, pos: int, base: int, in_loop: bool)
    ensures
        (lower_parts(p_choice(ls, pos, base, in_loop).0.text) is Some && block_ok(
            p_choice(ls, pos, base, in_loop).0.body,
            in_loop,
        )) || errs(p_choice(ls, pos, base, in_loop).2),
    decreases ls.len() - pos, 0int,
{
    if pos < 0 || pos >= ls.len() {
        assert(lower_parts(Seq::<(TextPartView, Span)>::empty()) is Some);
    } else {
        let line = ls[pos];
        let text = line.kind->Choice_0;
        let empty: Seq<Report> = if text.value.len() == 0 {
            seq![plain(line.span, DiagnosticKind::EmptyChoiceText)]
        } else {
            Seq::empty()
        };
        lemma_p_block(ls, pos + 1, base + 1, in_loop);
        let body = p_block(ls, pos + 1, base + 1, in_loop);
        lemma_text_parts(text.value, text.span.start as int, 0);
        let tp = text_parts(text.value, text.span.start as int, 0);
        lemma_errs_concat(empty, body.2);
        lemma_errs_concat(empty + body.2, tp.1);
    }
}

/// A condition group compiles, or is reported.
proof fn lemma_p_if(ls: Lines, pos: int, in_loop: bool)
    ensures
        stmt_ok(p_if(ls, pos, in_loop).0, in_loop) || errs(p_if(ls, pos, in_loop).2),
    decreases ls.len() - pos, 2int,
{
    if 0 <= pos < ls.len() {
        let first = ls[pos];
        lemma_p_branches(ls, pos, first.indent as int, in_loop, false, Seq::empty(), None, first.span);
    }
}

/// The branches of a condition group, after some that compile, compile, or
/// are reported.
proof fn lemma_p_branches(
    ls: Lines,
    pos: int,
    base: int,
    in_loop: bool,
    started: bool,
    branches: Seq<BranchView>,
    otherwise: Option<Seq<StmtView>>,
    span: Span,
)
    requires
        branches_ok(branches, in_loop),
        else_ok(otherwise, in_loop),
    ensures
        ({
            let r = p_branches(ls, pos, base, in_loop, started, branches, otherwise, span);
            (branches_ok(r.0, in_loop) && else_ok(r.1, in_loop)) || errs(r.4)
        }),
    decreases ls.len() - pos, 1int,
{
    if pos < 0 || pos >= ls.len() || ls[pos].indent != base || crate::parser::tree::branch_marker(
        ls[pos].kind,
        started,
    ) is None {
    } else {
        lemma_p_branch(ls, pos, base, in_loop, started, branches, otherwise, span);
        let st = p_branch(ls, pos, base, in_loop, started, branches, otherwise, span);
        if !(st.3 <= pos || st.3 > ls.len()) {
            if branches_ok(st.0, in_loop) && else_ok(st.1, in_loop) {
                lemma_p_branches(ls, st.3, base, in_loop, true, st.0, st.1, st.2);
            }
            let rest = p_branches(ls, st.3, base, in_loop, true, st.0, st.1, st.2);
            lemma_errs_concat(st.4, rest.4);
        }
    }
}

/// A branch read into a group that compiles leaves it compiling, or is
/// reported.
proof fn lemma_p_branch(
    ls: Lines,
    pos: int,
    base: int,
    in_loop: bool,
    started: bool,
    branches: Seq<BranchView>,
    otherwise: Option<Seq<StmtView>>,
    span: Span,
)
    requires
        branches_ok(branches, in_loop),
        else_ok(otherwise, in_loop),
    ensures
        ({
            let r = p_branch(ls, pos, base, in_loop, started, branches, otherwise, span);
            (branches_ok(r.0, in_loop) && else_ok(r.1, in_loop)) || errs(r.4)
        }),
    decreases ls.len() - pos, 0int,
{
    if pos < 0 || pos >= ls.len() || crate::parser::tree::branch_marker(ls[pos].kind, started) is None {
    } else {
        let line = ls[pos];
        let marker = crate::parser::tree::branch_marker(line.kind, started)->0;
        lemma_p_block(ls, pos + 1, base + 1, in_loop);
        let body = p_block(ls, pos + 1, base + 1, in_loop);
        let r = p_branch(ls, pos, base, in_loop, started, branches, otherwise, span);
        let span_b = crate::parser::tree::reach(line.span, body.0);
        if otherwise is Some {
            let rep = crate::parser::tree::branch_after_else(line.span, marker);
            assert(r.4 == body.2 + seq![rep]);
            lemma_errs_concat(body.2, seq![rep]);
        } else {
            match line.kind {
                LineKindView::If(c) => {
                    lemma_condition(c, line.span, marker);
                    let cd = condition_spec(c, line.span, marker);
                    assert(r.4 == body.2 + cd.1);
                    lemma_errs_concat(body.2, cd.1);
                    if let Some(e) = cd.0 {
                        let b = BranchView { condition: e, body: body.0, span: span_b };
                        assert(branches.push(b).subrange(0, branches.len() as int) =~= branches);
                        assert(r.0 == branches.push(b));
                    }
                },
                LineKindView::Elif(c) => {
                    lemma_condition(c, line.span, marker);
                    let cd = condition_spec(c, line.span, marker);
                    assert(r.4 == body.2 + cd.1);
                    lemma_errs_concat(body.2, cd.1);
                    if let Some(e) = cd.0 {
                        let b = BranchView { condition: e, body: body.0, span: span_b };
                        assert(branches.push(b).subrange(0, branches.len() as int) =~= branches);
                        assert(r.0 == branches.push(b));
                    }
                },
                LineKindView::Else(rest) => {
                    let eb = crate::parser::ast::empty_bracket_spec(rest, line.span, marker);
                    assert(r.4 == body.2 + eb);
                    lemma_errs_concat(body.2, eb);
                },
                _ => {},
            }
        }
    }
}

/// A loop compiles, or is reported.
proof fn lemma_p_while(ls: Lines, pos: int, in_loop: bool)
    ensures
        p_while(ls, pos, in_loop).0 matches Some(s) ==> stmt_ok(s, in_loop) || errs(p_while(ls, pos, in_loop).2),
    decreases ls.len() - pos, 2int,
{
    if 0 <= pos < ls.len() {
        let line = ls[pos];
        if let LineKindView::While(cond) = line.kind {
            lemma_p_block(ls, pos + 1, line.indent + 1, true);
            let body = p_block(ls, pos + 1, line.indent + 1, true);
            lemma_condition(cond, line.span, "[while]"@);
            let c = condition_spec(cond, line.span, "[while]"@);
            lemma_errs_concat(body.2, c.1);
        }
    }
}

/// A single line compiles, or is reported.
proof fn lemma_p_line(ls: Lines, pos: int, in_loop: bool)
    ensures
        p_line(ls, pos, in_loop).0 matches Some(s) ==> stmt_ok(s, in_loop) || errs(p_line(ls, pos, in_loop).2),
    decreases ls.len() - pos, 2int,
{
    if 0 <= pos < ls.len() {
        let line = ls[pos];
        match line.kind {
            LineKindView::Say { speaker, text } => {
                lemma_text_parts(text.value, text.span.start as int, 0);
            },
            LineKindView::Command(cmd) => {
                lemma_command(cmd, line.span);
            },
            LineKindView::Let(body) => {
                lemma_let(body, line.span);
            },
            _ => {},
        }
    }
}

/// The body of a node compiles, or reading the node reports an error.
proof fn lemma_p_node(ls: Lines, pos: int)
    requires
        0 <= pos < ls.len(),
    ensures
        block_ok(p_node(ls, pos).0.body, false) || errs(p_node(ls, pos).2),
{
    lemma_p_block(ls, pos + 1, 0, false);
    let body = p_block(ls, pos + 1, 0, false);
    let r = p_node(ls, pos).2;
    let k = r.len() - body.2.len();
    assert(exists|a: Seq<Report>, b: Seq<Report>| r == a + body.2 + b) by {
        let header = ls[pos];
        let name = header.kind->NodeStart_0;
        let indented: Seq<Report> = if header.indent > 0 {
            seq![plain(header.span, DiagnosticKind::IndentedNodeStart)]
        } else {
            Seq::empty()
        };
        let named: Seq<Report> = if name.value.len() == 0 {
            seq![plain(name.span, DiagnosticKind::EmptyNodeName)]
        } else if !crate::parser::ast::valid_ident(name.value) {
            seq![crate::parser::tree::invalid_node_name(name.span, name.value)]
        } else {
            Seq::empty()
        };
        let a = indented + named;
        let b = r.subrange((a + body.2).len() as int, r.len() as int);
        assert(r =~= a + body.2 + b);
    }
    let (a, b) = choose|a: Seq<Report>, b: Seq<Report>| r == a + body.2 + b;
    lemma_errs_concat(a, body.2);
    lemma_errs_concat(a + body.2, b);
}

/// Every node of a file read from line `pos` compiles, or reading the file
/// reports an error.
proof fn lemma_p_file(ls: Lines, pos: int)
    ensures
        forall|i: int|
            0 <= i < p_file(ls, pos).0.len() ==> block_ok(#[trigger] p_file(ls, pos).0[i].body, false) || errs(
                p_file(ls, pos).1,
            ),
    decreases ls.len() - pos,
{
    if 0 <= pos < ls.len() {
        match ls[pos].kind {
            LineKindView::NodeStart(_) => {
                lemma_p_node(ls, pos);
                let n = p_node(ls, pos);
                if !(n.1 <= pos || n.1 > ls.len()) {
                    lemma_p_file(ls, n.1);
                    let rest = p_file(ls, n.1);
                    lemma_errs_concat(n.2, rest.1);
                    assert forall|i: int| 0 <= i < p_file(ls, pos).0.len() implies block_ok(
                        #[trigger] p_file(ls, pos).0[i].body,
                        false,
                    ) || errs(p_file(ls, pos).1) by {
                        if i > 0 {
                            assert(p_file(ls, pos).0[i] == rest.0[i - 1]);
                        }
                    }
                }
            },
            LineKindView::NodeEnd => {
                lemma_p_file(ls, pos + 1);
                let rest = p_file(ls, pos + 1);
                lemma_errs_concat(seq![plain(ls[pos].span, DiagnosticKind::StrayNodeEnd)], rest.1);
            },
            _ => {
                let q = crate::parser::tree::next_boundary(ls, pos + 1);
                if !(q <= pos || q > ls.len()) {
                    lemma_p_file(ls, q);
                    let rest = p_file(ls, q);
                    lemma_errs_concat(seq![plain(ls[pos].span, DiagnosticKind::ContentOutsideNode)], rest.1);
                }
            },
        }
    }
}

/// How many steps compiling the statement pushes.
pub open spec fn need_stmt(st: StmtView) -> nat
    decreases st,
{
    match st.kind {
        StmtKindView::If(bs, otherwise) => need_branches(bs) + match otherwise {
            Some(b) => need_block(b),
            None => 0,
        },
        StmtKindView::Choice(cs) => need_choices(cs) + 1,
        StmtKindView::While(_, body) => need_block(body) + 1,
        StmtKindView::Break => 0,
        StmtKindView::Continue => 0,
        _ => 1,
    }
}

/// How many steps compiling the block pushes.
pub open spec fn need_block(b: Seq<StmtView>) -> nat
    decreases b,
{
    if b.len() == 0 {
        0
    } else {
        need_block(b.subrange(0, b.len() - 1)) + need_stmt(b[b.len() - 1])
    }
}

/// How many steps compiling the branches of a group pushes: a test and a
/// body each.
pub open spec fn need_branches(bs: Seq<BranchView>) -> nat
    decreases bs,
{
    if bs.len() == 0 {
        0
    } else {
        need_branches(bs.subrange(0, bs.len() - 1)) + need_block(bs[bs.len() - 1].body) + 1
    }
}

/// How many steps compiling the bodies of a choice pushes.
pub open spec fn need_choices(cs: Seq<ChoiceView>) -> nat
    decreases cs,
{
    if cs.len() == 0 {
        0
    } else {
        need_choices(cs.subrange(0, cs.len() - 1)) + need_block(cs[cs.len() - 1].body)
    }
}

/// A block that compiles, pushed onto steps with room for it, compiles,
/// and pushes the steps it needs.
proof fn lemma_c_block(steps: Seq<StepView>, body: Seq<StmtView>, after: StepId, exits: Exits)
    requires
        block_ok(body, exits is Some),
        steps.len() + need_block(body) <= u32::MAX,
    ensures
        c_block(steps, body, after, exits) matches Some(r) && r.0.len() == steps.len() + need_block(body),
    decreases body,
{
    if body.len() > 0 {
        let last = body[body.len() - 1];
        lemma_c_stmt(steps, last, after, exits);
        let r = c_stmt(steps, last, after, exits).unwrap();
        lemma_c_block(r.0, body.subrange(0, body.len() - 1), r.1, exits);
    }
}

/// A statement that compiles, pushed onto steps with room for it,
/// compiles, and pushes the steps it needs.
proof fn lemma_c_stmt(steps: Seq<StepView>, st: StmtView, after: StepId, exits: Exits)
    requires
        stmt_ok(st, exits is Some),
        steps.len() + need_stmt(st) <= u32::MAX,
    ensures
        c_stmt(steps, st, after, exits) matches Some(r) && r.0.len() == steps.len() + need_stmt(st),
    decreases st,
{
    match st.kind {
        StmtKindView::If(bs, otherwise) => match otherwise {
            Some(b) => {
                lemma_c_block(steps, b, after, exits);
                let r = c_block(steps, b, after, exits).unwrap();
                lemma_c_branches(r.0, bs, after, r.1, exits);
            },
            None => lemma_c_branches(steps, bs, after, after, exits),
        },
        StmtKindView::Choice(cs) => {
            lemma_c_choices(steps, cs, after, exits);
        },
        StmtKindView::While(cond, body) => {
            let c = lower(cond.expr).unwrap();
            let t = push_step(steps, StepView::Branch(c, after, after)).unwrap();
            lemma_c_block(t.0, body, t.1, Some((after, t.1)));
        },
        _ => {},
    }
}

/// The branches of a group that compile, pushed onto steps with room for
/// them, compile, and push the steps they need.
proof fn lemma_c_branches(steps: Seq<StepView>, bs: Seq<BranchView>, after: StepId, next: StepId, exits: Exits)
    requires
        branches_ok(bs, exits is Some),
        steps.len() + need_branches(bs) <= u32::MAX,
    ensures
        c_branches(steps, bs, after, next, exits) matches Some(r) && r.0.len() == steps.len() + need_branches(bs),
    decreases bs,
{
    if bs.len() > 0 {
        let b = bs[bs.len() - 1];
        lemma_c_block(steps, b.body, after, exits);
        let r = c_block(steps, b.body, after, exits).unwrap();
        let c = lower(b.condition.expr).unwrap();
        let t = push_step(r.0, StepView::Branch(c, r.1, next)).unwrap();
        lemma_c_branches(t.0, bs.subrange(0, bs.len() - 1), after, t.1, exits);
    }
}

/// The options of a choice that compile, pushed onto steps with room for
/// them, compile, and push the steps they need.
proof fn lemma_c_choices(steps: Seq<StepView>, cs: Seq<ChoiceView>, after: StepId, exits: Exits)
    requires
        choices_ok(cs, exits is Some),
        steps.len() + need_choices(cs) <= u32::MAX,
    ensures
        c_choices(steps, cs, after, exits) matches Some(r) && r.0.len() == steps.len() + need_choices(cs),
    decreases cs,
{
    if cs.len() > 0 {
        let pre = cs.subrange(0, cs.len() - 1);
        lemma_c_choices(steps, pre, after, exits);
        let r = c_choices(steps, pre, after, exits).unwrap();
        lemma_c_block(r.0, cs[cs.len() - 1].body, after, exits);
    }
}

/// A source read without an error report compiles, every node of it, as
/// long as a node holds fewer steps than its ids can number: the parser
/// reports every fault the compiler could meet, an expression it cannot
/// read or a `[break]` outside of a loop. The node then closes too.
pub proof fn lemma_accepted_compiles(src: Seq<char>, i: int)
    requires
        !errs(parse_spec(src).1),
        0 <= i < parse_spec(src).0.len(),
        need_block(parse_spec(src).0[i].body) < u32::MAX,
    ensures
        node_compiles(parse_spec(src).0[i]),
{
    let ls = src_lines(src);
    let f = p_file(ls, 0);
    lemma_p_file(ls, 0);
    let split = crate::parser::lines::split_reports(src, crate::parser::nl_starts(src).len() as int);
    let val = crate::parser::tree::validation(f.0);
    lemma_errs_concat(split, f.1);
    lemma_errs_concat(split + f.1, val);
    let body = f.0[i].body;
    assert(block_ok(body, false));
    lemma_c_block(seq![StepView::End], body, StepId(0), None);
    lemma_compiled_body_closes(body);
}

/// No diagnostic of `ds` is an error when none is counted.
proof fn lemma_none_counted(ds: Seq<Diagnostic>)
    requires
        count_severity(ds, Severity::Error) == 0,
    ensures
        forall|k: int| 0 <= k < ds.len() ==> kind_severity((#[trigger] ds[k]).kind) != Severity::Error,
    decreases ds.len(),
{
    if ds.len() > 0 {
        lemma_none_counted(ds.drop_last());
        assert forall|k: int| 0 <= k < ds.len() implies kind_severity((#[trigger] ds[k]).kind) != Severity::Error by {
            if k < ds.len() - 1 {
                assert(ds.drop_last()[k] == ds[k]);
            }
        }
    }
}

/// Diagnostics of which none is an error say no error report.
pub proof fn lemma_no_error_reported(items: Seq<Diagnostic>, reps: Seq<Report>)
    requires
        reported(Seq::empty(), items, reps),
        count_severity(items, Severity::Error) == 0,
    ensures
        !errs(reps),
{
    lemma_none_counted(items);
    assert forall|j: int| 0 <= j < reps.len() implies !is_error(#[trigger] reps[j]) by {
        assert(report_of(items[0 + j]) == reps[j]);
        assert(kind_severity(items[j].kind) != Severity::Error);
    }
}

} // verus!
