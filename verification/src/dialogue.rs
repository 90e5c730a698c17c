//! Runnable form of a dialogue file.
//!
//! Where the syntax tree mirrors how the source is written (nested blocks,
//! spans pointing back at the text), a [`Dialogue`] is shaped for execution.
//! Each node is a flat list of steps, every step naming the id of the one
//! that follows it, so running a dialogue is a walk from step to step with
//! no recursion and no lookup by position in a tree. Nesting in the source,
//! such as the body of a choice, becomes a target id like any other.
//!
//! A node is built by [`DialogueNodeBuilder`], step by step, and
//! [`compile`] builds every node of a parsed file that way.

use vstd::prelude::*;

use crate::parser::ast::{
    branches_view, choices_view, parts_view, stmts_view, Branch, BranchView, Choice, ChoiceView,
    NodeDecl, Stmt, StmtKind, StmtKindView, StmtView, TextPart as AstPart, TextPartView,
};
use crate::parser::diagnostic::{count_severity, kind_severity, Diagnostics, Severity};
use crate::parser::expr::{
    args_view, entries_view, expr_view, value_view, BinaryOp, Expr as AstExpr, ExprView, SExpr,
    UnaryOp, Value, ValueView,
};
use crate::parser::tree::{node_view, nodes_view, NodeView, Parsed};
use crate::parser::{end_node_name, Spanned, END_NODE_NAME};
use crate::runtime::{NodeName, StepId};
use crate::text;

verus! {

/// An expression of a step: what the parser read, without its spans.
#[derive(Debug)]
pub enum Expr {
    Var(String),
    Litteral(Value),
    /// `{name: Alan, hp: $base + 2}`, its entries in the order they are
    /// written: a key given twice counts its last value.
    LitteralDict(Vec<(String, Expr)>),
    Attr { base: Box<Expr>, attrs: Vec<String> },
    Function { name: String, args: Vec<Expr> },
    Unary { op: UnaryOp, rhs: Box<Expr> },
    Binary { op: BinaryOp, lhs: Box<Expr>, rhs: Box<Expr> },
}

/// What an expression of a step holds.
pub enum DExpr {
    Var(Seq<char>),
    Lit(ValueView),
    Dict(Seq<(Seq<char>, DExpr)>),
    Attr(Box<DExpr>, Seq<Seq<char>>),
    Function(Seq<char>, Seq<DExpr>),
    Unary(UnaryOp, Box<DExpr>),
    Binary(BinaryOp, Box<DExpr>, Box<DExpr>),
}

/// What an expression of a step holds.
pub open spec fn dview(e: Expr) -> DExpr
    decreases e,
{
    match e {
        Expr::Var(n) => DExpr::Var(n@),
        Expr::Litteral(v) => DExpr::Lit(value_view(v)),
        Expr::LitteralDict(entries) => DExpr::Dict(dentries(entries@)),
        Expr::Attr { base, attrs } => DExpr::Attr(Box::new(dview(*base)), strings(attrs@)),
        Expr::Function { name, args } => DExpr::Function(name@, dargs(args@)),
        Expr::Unary { op, rhs } => DExpr::Unary(op, Box::new(dview(*rhs))),
        Expr::Binary { op, lhs, rhs } => DExpr::Binary(op, Box::new(dview(*lhs)), Box::new(dview(*rhs))),
    }
}

/// What the expressions hold.
pub open spec fn dargs(v: Seq<Expr>) -> Seq<DExpr>
    decreases v,
{
    if v.len() == 0 {
        Seq::empty()
    } else {
        dargs(v.subrange(0, v.len() - 1)).push(dview(v[v.len() - 1]))
    }
}

/// What the entries of a dict hold.
pub open spec fn dentries(v: Seq<(String, Expr)>) -> Seq<(Seq<char>, DExpr)>
    decreases v,
{
    if v.len() == 0 {
        Seq::empty()
    } else {
        dentries(v.subrange(0, v.len() - 1)).push((v[v.len() - 1].0@, dview(v[v.len() - 1].1)))
    }
}

/// The texts of `v`.
pub open spec fn strings(v: Seq<String>) -> Seq<Seq<char>> {
    v.map_values(|s: String| s@)
}

/// The names of `v`, without their spans.
pub open spec fn names_only(v: Seq<(Seq<char>, crate::parser::Span)>) -> Seq<Seq<char>> {
    v.map_values(|n: (Seq<char>, crate::parser::Span)| n.0)
}

/// The expression a step holds for what the parser read: `None` when the
/// parser left a fault in it.
pub open spec fn lower(e: ExprView) -> Option<DExpr>
    decreases e,
{
    match e {
        ExprView::Var(n) => Some(DExpr::Var(n)),
        ExprView::Lit(v) => Some(DExpr::Lit(v)),
        ExprView::Dict(entries) => match lower_entries(entries) {
            Some(d) => Some(DExpr::Dict(d)),
            None => None,
        },
        ExprView::Attr(base, attrs) => match lower(base.expr) {
            Some(b) => Some(DExpr::Attr(Box::new(b), names_only(attrs))),
            None => None,
        },
        ExprView::Function(name, _, args) => match lower_args(args) {
            Some(a) => Some(DExpr::Function(name, a)),
            None => None,
        },
        ExprView::Unary(op, _, rhs) => match lower(rhs.expr) {
            Some(r) => Some(DExpr::Unary(op, Box::new(r))),
            None => None,
        },
        ExprView::Binary(op, _, lhs, rhs) => match (lower(lhs.expr), lower(rhs.expr)) {
            (Some(l), Some(r)) => Some(DExpr::Binary(op, Box::new(l), Box::new(r))),
            _ => None,
        },
        ExprView::Error => None,
    }
}

/// The arguments, each lowered, or `None` when one holds a fault.
pub open spec fn lower_args(args: Seq<SExpr>) -> Option<Seq<DExpr>>
    decreases args,
{
    if args.len() == 0 {
        Some(Seq::empty())
    } else {
        match (lower_args(args.subrange(0, args.len() - 1)), lower(args[args.len() - 1].expr)) {
            (Some(a), Some(x)) => Some(a.push(x)),
            _ => None,
        }
    }
}

/// The entries, each value lowered, or `None` when one holds a fault.
pub open spec fn lower_entries(entries: Seq<((Seq<char>, crate::parser::Span), SExpr)>) -> Option<Seq<(Seq<char>, DExpr)>>
    decreases entries,
{
    if entries.len() == 0 {
        Some(Seq::empty())
    } else {
        let last = entries[entries.len() - 1];
        match (lower_entries(entries.subrange(0, entries.len() - 1)), lower(last.1.expr)) {
            (Some(a), Some(x)) => Some(a.push((last.0.0, x))),
            _ => None,
        }
    }
}

/// A mark of the written form of an expression: its brackets, names,
/// values and operators, in the order they are read.
pub enum Symbol {
    Open,
    Close,
    Var(Seq<char>),
    Lit(ValueView),
    Dict,
    Key(Seq<char>),
    Attr(Seq<char>),
    Call(Seq<char>),
    Unary(UnaryOp),
    Binary(BinaryOp),
    Fault,
}

/// The written form of what the parser read, fully bracketed, operator
/// first: `$gold <= 10` is `( <= $gold 10 )`.
pub open spec fn written(e: ExprView) -> Seq<Symbol>
    decreases e,
{
    match e {
        ExprView::Var(n) => seq![Symbol::Var(n)],
        ExprView::Lit(v) => seq![Symbol::Lit(v)],
        ExprView::Dict(entries) => seq![Symbol::Open, Symbol::Dict] + written_entries(entries)
            + seq![Symbol::Close],
        ExprView::Attr(base, attrs) => seq![Symbol::Open] + written(base.expr) + attrs.map_values(
            |a: (Seq<char>, crate::parser::Span)| Symbol::Attr(a.0),
        ) + seq![Symbol::Close],
        ExprView::Function(name, _, args) => seq![Symbol::Open, Symbol::Call(name)] + written_args(
            args,
        ) + seq![Symbol::Close],
        ExprView::Unary(op, _, rhs) => seq![Symbol::Open, Symbol::Unary(op)] + written(rhs.expr)
            + seq![Symbol::Close],
        ExprView::Binary(op, _, lhs, rhs) => seq![Symbol::Open, Symbol::Binary(op)] + written(
            lhs.expr,
        ) + written(rhs.expr) + seq![Symbol::Close],
        ExprView::Error => seq![Symbol::Fault],
    }
}

/// The written forms of the arguments, one after the other.
pub open spec fn written_args(args: Seq<SExpr>) -> Seq<Symbol>
    decreases args,
{
    if args.len() == 0 {
        Seq::empty()
    } else {
        written_args(args.subrange(0, args.len() - 1)) + written(args[args.len() - 1].expr)
    }
}

/// Each key, then the written form of its value, one entry after the other.
pub open spec fn written_entries(entries: Seq<((Seq<char>, crate::parser::Span), SExpr)>) -> Seq<
    Symbol,
>
    decreases entries,
{
    if entries.len() == 0 {
        Seq::empty()
    } else {
        let last = entries[entries.len() - 1];
        written_entries(entries.subrange(0, entries.len() - 1)) + seq![Symbol::Key(last.0.0)]
            + written(last.1.expr)
    }
}

/// The written form of an expression of a step, in the same marks.
pub open spec fn dwritten(e: DExpr) -> Seq<Symbol>
    decreases e,
{
    match e {
        DExpr::Var(n) => seq![Symbol::Var(n)],
        DExpr::Lit(v) => seq![Symbol::Lit(v)],
        DExpr::Dict(entries) => seq![Symbol::Open, Symbol::Dict] + dwritten_entries(entries)
            + seq![Symbol::Close],
        DExpr::Attr(base, attrs) => seq![Symbol::Open] + dwritten(*base) + attrs.map_values(
            |n: Seq<char>| Symbol::Attr(n),
        ) + seq![Symbol::Close],
        DExpr::Function(name, args) => seq![Symbol::Open, Symbol::Call(name)] + dwritten_args(args)
            + seq![Symbol::Close],
        DExpr::Unary(op, rhs) => seq![Symbol::Open, Symbol::Unary(op)] + dwritten(*rhs) + seq![
            Symbol::Close,
        ],
        DExpr::Binary(op, lhs, rhs) => seq![Symbol::Open, Symbol::Binary(op)] + dwritten(*lhs)
            + dwritten(*rhs) + seq![Symbol::Close],
    }
}

/// The written forms of arguments of a step, one after the other.
pub open spec fn dwritten_args(args: Seq<DExpr>) -> Seq<Symbol>
    decreases args,
{
    if args.len() == 0 {
        Seq::empty()
    } else {
        dwritten_args(args.subrange(0, args.len() - 1)) + dwritten(args[args.len() - 1])
    }
}

/// Each key, then the written form of its value, over the entries of a
/// step's dict.
pub open spec fn dwritten_entries(entries: Seq<(Seq<char>, DExpr)>) -> Seq<Symbol>
    decreases entries,
{
    if entries.len() == 0 {
        Seq::empty()
    } else {
        let last = entries[entries.len() - 1];
        dwritten_entries(entries.subrange(0, entries.len() - 1)) + seq![Symbol::Key(last.0)]
            + dwritten(last.1)
    }
}

/// Lowering drops the spans and nothing else: the expression a step holds
/// is written exactly as the one the parser read, every operand on its side,
/// every name, value and operator in its place.
pub proof fn lemma_lower_keeps_written_form(e: ExprView)
    ensures
        lower(e) matches Some(d) ==> dwritten(d) == written(e),
    decreases e,
{
    match e {
        ExprView::Dict(entries) => {
            lemma_lower_entries_keep_written_form(entries);
        },
        ExprView::Attr(base, attrs) => {
            lemma_lower_keeps_written_form(base.expr);
            assert(names_only(attrs).map_values(|n: Seq<char>| Symbol::Attr(n)) =~= attrs.map_values(
                |a: (Seq<char>, crate::parser::Span)| Symbol::Attr(a.0),
            ));
        },
        ExprView::Function(_, _, args) => {
            lemma_lower_args_keep_written_form(args);
        },
        ExprView::Unary(_, _, rhs) => {
            lemma_lower_keeps_written_form(rhs.expr);
        },
        ExprView::Binary(_, _, lhs, rhs) => {
            lemma_lower_keeps_written_form(lhs.expr);
            lemma_lower_keeps_written_form(rhs.expr);
        },
        _ => {},
    }
}

/// Lowered arguments keep their written forms, in order.
pub proof fn lemma_lower_args_keep_written_form(args: Seq<SExpr>)
    ensures
        lower_args(args) matches Some(a) ==> dwritten_args(a) == written_args(args),
    decreases args,
{
    if args.len() > 0 {
        let front = args.subrange(0, args.len() - 1);
        lemma_lower_args_keep_written_form(front);
        lemma_lower_keeps_written_form(args[args.len() - 1].expr);
        if let Some(a) = lower_args(args) {
            let p = lower_args(front)->0;
            assert(a.subrange(0, a.len() - 1) =~= p);
        }
    }
}

/// Lowered entries keep their keys and the written forms of their values,
/// in order.
pub proof fn lemma_lower_entries_keep_written_form(
    entries: Seq<((Seq<char>, crate::parser::Span), SExpr)>,
)
    ensures
        lower_entries(entries) matches Some(a) ==> dwritten_entries(a) == written_entries(entries),
    decreases entries,
{
    if entries.len() > 0 {
        let front = entries.subrange(0, entries.len() - 1);
        lemma_lower_entries_keep_written_form(front);
        lemma_lower_keeps_written_form(entries[entries.len() - 1].1.expr);
        if let Some(a) = lower_entries(entries) {
            let p = lower_entries(front)->0;
            assert(a.subrange(0, a.len() - 1) =~= p);
        }
    }
}

/// Why a node could not be built.
#[derive(Debug)]
pub enum BuildError {
    /// A step points at an id no step has.
    DanglingTarget { from: StepId, to: StepId },
    /// The entry is not one of the steps that were pushed.
    DanglingEntry,
    /// No step was pushed, so the node has nothing to start on.
    EmptyNode,
    /// A step points at itself, which would spin forever at run time.
    SelfReferencing(StepId),
    /// An expression holds a fault the parser reported.
    ErrorInExpr,
    /// A `[break]` or a `[continue]` outside of any loop, which the parser
    /// reports.
    OutsideLoop,
    /// More steps than the ids of a node can number.
    TooManySteps,
}

/// The names, without their spans.
fn names_of(v: Vec<Spanned<String>>) -> (r: Vec<String>)
    ensures
        strings(r@) == names_only(crate::parser::expr::names_view(v@)),
{
    let mut out: Vec<String> = Vec::new();
    let mut i: usize = 0;
    while i < v.len()
        invariant
            i <= v@.len(),
            strings(out@) == names_only(crate::parser::expr::names_view(v@)).take(i as int),
        decreases v@.len() - i,
    {
        let ghost before = out@;
        out.push(text::owned(v[i].value.as_str()));
        proof {
            assert(strings(out@) =~= strings(before).push(v@[i as int].value@));
            assert(names_only(crate::parser::expr::names_view(v@)).take(i + 1) =~= names_only(
                crate::parser::expr::names_view(v@),
            ).take(i as int).push(v@[i as int].value@));
        }
        i = i + 1;
    }
    proof {
        assert(names_only(crate::parser::expr::names_view(v@)).take(i as int) =~= names_only(
            crate::parser::expr::names_view(v@),
        ));
    }
    out
}

/// The expression a step holds for what the parser read, as [`lower`]
/// says.
pub fn lower_expr(e: AstExpr) -> (r: Result<Expr, BuildError>)
    ensures
        match lower(expr_view(e)) {
            Some(d) => r matches Ok(x) && dview(x) == d,
            None => r matches Err(BuildError::ErrorInExpr),
        },
    decreases e,
{
    match e {
        AstExpr::Var { name } => Ok(Expr::Var(name)),
        AstExpr::Litteral { value } => Ok(Expr::Litteral(value)),
        AstExpr::LitteralDict(entries) => {
            proof {
                assert(decreases_to!(e => entries));
                assert(decreases_to!(entries => entries@));
            }
            match lower_entry_list(entries) {
                Ok(d) => Ok(Expr::LitteralDict(d)),
                Err(err) => Err(err),
            }
        },
        AstExpr::Attr { base, attrs } => {
            let ghost b = base;
            proof {
                assert(decreases_to!(e => base));
                assert(decreases_to!(base => b.value));
            }
            let attrs = names_of(attrs);
            match lower_expr(base.value) {
                Ok(x) => Ok(Expr::Attr { base: Box::new(x), attrs }),
                Err(err) => Err(err),
            }
        },
        AstExpr::Function { name, args } => {
            proof {
                assert(decreases_to!(e => args));
                assert(decreases_to!(args => args@));
            }
            match lower_list(args) {
                Ok(a) => Ok(Expr::Function { name: name.value, args: a }),
                Err(err) => Err(err),
            }
        },
        AstExpr::Unary { op, rhs } => {
            let ghost b = rhs;
            proof {
                assert(decreases_to!(e => rhs));
                assert(decreases_to!(rhs => b.value));
            }
            match lower_expr(rhs.value) {
                Ok(x) => Ok(Expr::Unary { op: op.value, rhs: Box::new(x) }),
                Err(err) => Err(err),
            }
        },
        AstExpr::Binary { op, lhs, rhs } => {
            let ghost l = lhs;
            let ghost rr = rhs;
            proof {
                assert(decreases_to!(e => lhs));
                assert(decreases_to!(lhs => l.value));
                assert(decreases_to!(e => rhs));
                assert(decreases_to!(rhs => rr.value));
            }
            let left = lower_expr(lhs.value);
            let right = lower_expr(rhs.value);
            match (left, right) {
                (Ok(x), Ok(y)) => Ok(Expr::Binary { op: op.value, lhs: Box::new(x), rhs: Box::new(y) }),
                _ => Err(BuildError::ErrorInExpr),
            }
        },
        AstExpr::Error => Err(BuildError::ErrorInExpr),
    }
}

/// The arguments, each lowered, as [`lower_args`] says.
fn lower_list(args: Vec<Spanned<AstExpr>>) -> (r: Result<Vec<Expr>, BuildError>)
    ensures
        match lower_args(args_view(args@)) {
            Some(d) => r matches Ok(x) && dargs(x@) == d,
            None => r matches Err(BuildError::ErrorInExpr),
        },
    decreases args@,
{
    let ghost all = args@;
    let ghost av = args_view(all);
    proof {
        lemma_args_len(all);
        assert(av.take(0) =~= Seq::<SExpr>::empty());
        assert(dargs(Seq::<Expr>::empty()) =~= Seq::<DExpr>::empty());
    }
    let _n = args.len();
    let mut rest = args;
    let mut out: Vec<Expr> = Vec::new();
    let mut i: usize = 0;
    while rest.len() > 0
        invariant
            all == args@,
            all.len() <= usize::MAX,
            all.len() == av.len(),
            av == args_view(all),
            forall|k: int| 0 <= k < all.len() ==> (#[trigger] av[k]).expr == expr_view(all[k].value),
            i + rest@.len() == all.len(),
            rest@ == all.skip(i as int),
            lower_args(av.take(i as int)) == Some(dargs(out@)),
            out@.len() == i,
        decreases rest@.len(),
    {
        let a = rest.remove(0);
        proof {
            assert(a == all[i as int]);
            assert(decreases_to!(all => all[i as int]));
            assert(decreases_to!(all[i as int] => all[i as int].value));
            assert(av.take(i + 1).subrange(0, i as int) =~= av.take(i as int));
            assert(rest@ =~= all.skip(i + 1));
        }
        match lower_expr(a.value) {
            Ok(x) => {
                let ghost before = out@;
                out.push(x);
                proof {
                    assert(out@.subrange(0, before.len() as int) =~= before);
                }
            },
            Err(err) => {
                proof {
                    assert(av[i as int].expr == expr_view(all[i as int].value));
                    lemma_lower_args_fails(av, i as int);
                }
                return Err(err);
            },
        }
        i = i + 1;
    }
    proof {
        assert(av.take(i as int) =~= av);
    }
    Ok(out)
}

/// A fault in one argument is a fault in all of them.
proof fn lemma_lower_args_fails(av: Seq<SExpr>, i: int)
    requires
        0 <= i < av.len(),
        lower(av[i].expr) is None,
    ensures
        lower_args(av) is None,
    decreases av.len(),
{
    if i < av.len() - 1 {
        lemma_lower_args_fails(av.subrange(0, av.len() - 1), i);
    }
}

/// A fault in one entry is a fault in all of them.
proof fn lemma_lower_entries_fails(ev: Seq<((Seq<char>, crate::parser::Span), SExpr)>, i: int)
    requires
        0 <= i < ev.len(),
        lower(ev[i].1.expr) is None,
    ensures
        lower_entries(ev) is None,
    decreases ev.len(),
{
    if i < ev.len() - 1 {
        lemma_lower_entries_fails(ev.subrange(0, ev.len() - 1), i);
    }
}

/// The entries of a dict, each value lowered, as [`lower_entries`] says.
fn lower_entry_list(entries: Vec<(Spanned<String>, Spanned<AstExpr>)>) -> (r: Result<Vec<(String, Expr)>, BuildError>)
    ensures
        match lower_entries(entries_view(entries@)) {
            Some(d) => r matches Ok(x) && dentries(x@) == d,
            None => r matches Err(BuildError::ErrorInExpr),
        },
    decreases entries@,
{
    let ghost all = entries@;
    let ghost ev = entries_view(all);
    proof {
        lemma_entries_len(all);
        assert(ev.take(0) =~= Seq::<((Seq<char>, crate::parser::Span), SExpr)>::empty());
        assert(dentries(Seq::<(String, Expr)>::empty()) =~= Seq::<(Seq<char>, DExpr)>::empty());
    }
    let _n = entries.len();
    let mut rest = entries;
    let mut out: Vec<(String, Expr)> = Vec::new();
    let mut i: usize = 0;
    while rest.len() > 0
        invariant
            all == entries@,
            all.len() <= usize::MAX,
            all.len() == ev.len(),
            ev == entries_view(all),
            forall|k: int| 0 <= k < all.len() ==> (#[trigger] ev[k]).1.expr == expr_view(all[k].1.value)
                && ev[k].0.0 == all[k].0.value@,
            i + rest@.len() == all.len(),
            rest@ == all.skip(i as int),
            lower_entries(ev.take(i as int)) == Some(dentries(out@)),
            out@.len() == i,
        decreases rest@.len(),
    {
        let (key, value) = rest.remove(0);
        proof {
            assert((key, value) == all[i as int]);
            assert(decreases_to!(all => all[i as int]));
            assert(decreases_to!(all[i as int] => all[i as int].1));
            assert(decreases_to!(all[i as int].1 => all[i as int].1.value));
            assert(ev.take(i + 1).subrange(0, i as int) =~= ev.take(i as int));
            assert(rest@ =~= all.skip(i + 1));
        }
        match lower_expr(value.value) {
            Ok(x) => {
                let ghost before = out@;
                out.push((key.value, x));
                proof {
                    assert(out@.subrange(0, before.len() as int) =~= before);
                }
            },
            Err(err) => {
                proof {
                    assert(ev[i as int].1.expr == expr_view(all[i as int].1.value));
                    lemma_lower_entries_fails(ev, i as int);
                }
                return Err(err);
            },
        }
        i = i + 1;
    }
    proof {
        assert(ev.take(i as int) =~= ev);
    }
    Ok(out)
}

/// The arguments seen one by one.
proof fn lemma_args_len(v: Seq<Spanned<AstExpr>>)
    ensures
        args_view(v).len() == v.len(),
        forall|k: int| 0 <= k < v.len() ==> (#[trigger] args_view(v)[k]).expr == expr_view(v[k].value),
    decreases v.len(),
{
    if v.len() > 0 {
        lemma_args_len(v.subrange(0, v.len() - 1));
    }
}

/// The entries of a dict seen one by one.
proof fn lemma_entries_len(v: Seq<(Spanned<String>, Spanned<AstExpr>)>)
    ensures
        entries_view(v).len() == v.len(),
        forall|k: int| 0 <= k < v.len() ==> (#[trigger] entries_view(v)[k]).1.expr == expr_view(v[k].1.value)
            && entries_view(v)[k].0.0 == v[k].0.value@,
    decreases v.len(),
{
    if v.len() > 0 {
        lemma_entries_len(v.subrange(0, v.len() - 1));
    }
}

/// A part of a line of a step.
#[derive(Debug)]
pub enum TextPart {
    Text(String),
    Expression(Expr),
}

/// What a part of a line holds.
pub enum DPart {
    Text(Seq<char>),
    Expression(DExpr),
}

/// What a part of a line holds.
pub open spec fn part_of(p: TextPart) -> DPart {
    match p {
        TextPart::Text(t) => DPart::Text(t@),
        TextPart::Expression(e) => DPart::Expression(dview(e)),
    }
}

/// What the parts hold.
pub open spec fn parts_of(v: Seq<TextPart>) -> Seq<DPart> {
    v.map_values(|p: TextPart| part_of(p))
}

/// The parts of a line a step holds for those the parser read: `None` when
/// one holds a fault.
pub open spec fn lower_parts(ps: Seq<(TextPartView, crate::parser::Span)>) -> Option<Seq<DPart>>
    decreases ps.len(),
{
    if ps.len() == 0 {
        Some(Seq::empty())
    } else {
        let last = match ps[ps.len() - 1].0 {
            TextPartView::Text(t) => Some(DPart::Text(t)),
            TextPartView::Expression(e) => match lower(e) {
                Some(d) => Some(DPart::Expression(d)),
                None => None,
            },
        };
        match (lower_parts(ps.subrange(0, ps.len() - 1)), last) {
            (Some(a), Some(x)) => Some(a.push(x)),
            _ => None,
        }
    }
}

/// A fault in one part is a fault in all of them.
proof fn lemma_lower_parts_fails(ps: Seq<(TextPartView, crate::parser::Span)>, i: int)
    requires
        0 <= i < ps.len(),
        ps[i].0 matches TextPartView::Expression(e) && lower(e) is None,
    ensures
        lower_parts(ps) is None,
    decreases ps.len(),
{
    if i < ps.len() - 1 {
        lemma_lower_parts_fails(ps.subrange(0, ps.len() - 1), i);
    }
}

/// The parts seen one by one.
proof fn lemma_parts_len(v: Seq<Spanned<AstPart>>)
    ensures
        parts_view(v).len() == v.len(),
        forall|k: int| 0 <= k < v.len() ==> (#[trigger] parts_view(v)[k]) == crate::parser::ast::part_view(v[k]),
{
}

/// The parts of a line, as [`lower_parts`] says.
fn lower_text(parts: Vec<Spanned<AstPart>>) -> (r: Result<Vec<TextPart>, BuildError>)
    ensures
        match lower_parts(parts_view(parts@)) {
            Some(d) => r matches Ok(x) && parts_of(x@) == d,
            None => r matches Err(BuildError::ErrorInExpr),
        },
{
    let ghost all = parts@;
    let ghost pv = parts_view(all);
    let _n = parts.len();
    proof {
        lemma_parts_len(all);
        assert(pv.take(0) =~= Seq::<(TextPartView, crate::parser::Span)>::empty());
        assert(parts_of(Seq::<TextPart>::empty()) =~= Seq::<DPart>::empty());
    }
    let mut rest = parts;
    let mut out: Vec<TextPart> = Vec::new();
    let mut i: usize = 0;
    while rest.len() > 0
        invariant
            all == parts@,
            all.len() == pv.len(),
            all.len() <= usize::MAX,
            pv == parts_view(all),
            forall|k: int| 0 <= k < all.len() ==> (#[trigger] pv[k]) == crate::parser::ast::part_view(all[k]),
            i + rest@.len() == all.len(),
            rest@ == all.skip(i as int),
            lower_parts(pv.take(i as int)) == Some(parts_of(out@)),
            out@.len() == i,
        decreases rest@.len(),
    {
        let part = rest.remove(0);
        proof {
            assert(part == all[i as int]);
            assert(pv.take(i + 1).subrange(0, i as int) =~= pv.take(i as int));
            assert(rest@ =~= all.skip(i + 1));
        }
        let lowered = match part.value {
            AstPart::Text(t) => TextPart::Text(t),
            AstPart::Expression(e) => match lower_expr(e) {
                Ok(x) => TextPart::Expression(x),
                Err(err) => {
                    proof {
                        assert(pv[i as int] == crate::parser::ast::part_view(all[i as int]));
                        assert(pv[i as int].0 == TextPartView::Expression(expr_view(e)));
                        lemma_lower_parts_fails(pv, i as int);
                    }
                    return Err(err);
                },
            },
        };
        let ghost before = out@;
        out.push(lowered);
        proof {
            assert(parts_of(out@) =~= parts_of(before).push(part_of(lowered)));
        }
        i = i + 1;
    }
    proof {
        assert(pv.take(i as int) =~= pv);
    }
    Ok(out)
}

/// A line of dialogue, with who says it.
#[derive(Debug)]
pub struct TextLine {
    /// Speaker written before the `:`, or `None` for a line without one.
    pub speaker: Option<String>,
    pub text: Vec<TextPart>,
}

/// One entry of a choice: what the player reads, and where picking it leads.
#[derive(Debug)]
pub struct ChoiceDef {
    /// Text written after the `->`, as the parts it is made of.
    pub text: Vec<TextPart>,
    /// First step of the body of the choice.
    pub target: StepId,
}

/// A `>> name(args...)` call, handed to the host untouched.
#[derive(Debug)]
pub struct Command {
    pub name: String,
    pub args: Vec<Expr>,
}

/// What a step does, and where it goes next.
#[derive(Debug)]
pub enum StepKind {
    /// A line to show, then `next`.
    Say { line: TextLine, next: StepId },
    /// A branch: each choice carries the step its body starts on.
    Choice { choices: Vec<ChoiceDef> },
    /// Continue in the entry step of another node, resolved when the jump is
    /// taken.
    Jump(NodeName),
    /// A command for the host, then `next`.
    Command { command: Command, next: StepId },
    /// Give a variable, or a path of attributes in it, its value, then `next`.
    Let { name: String, attrs: Vec<String>, value: Expr, next: StepId },
    /// One branch of an `[if]` or the test of a `[while]`: `then` when the
    /// condition holds, else `otherwise`.
    Branch { condition: Expr, then: StepId, otherwise: StepId },
    /// The dialogue is over.
    End,
}

/// One step of a node.
#[derive(Debug)]
pub struct Step {
    pub kind: StepKind,
}

/// What a step holds.
pub enum StepView {
    Say(Option<Seq<char>>, Seq<DPart>, StepId),
    Choice(Seq<(Seq<DPart>, StepId)>),
    Jump(Seq<char>),
    Command(Seq<char>, Seq<DExpr>, StepId),
    Let(Seq<char>, Seq<Seq<char>>, DExpr, StepId),
    Branch(DExpr, StepId, StepId),
    End,
}

/// What the entries of a choice hold.
pub open spec fn defs_of(v: Seq<ChoiceDef>) -> Seq<(Seq<DPart>, StepId)> {
    v.map_values(|c: ChoiceDef| (parts_of(c.text@), c.target))
}

/// What a step holds.
pub open spec fn step_view(k: StepKind) -> StepView {
    match k {
        StepKind::Say { line, next } => StepView::Say(
            match line.speaker {
                Some(s) => Some(s@),
                None => None,
            },
            parts_of(line.text@),
            next,
        ),
        StepKind::Choice { choices } => StepView::Choice(defs_of(choices@)),
        StepKind::Jump(n) => StepView::Jump(n.0@),
        StepKind::Command { command, next } => StepView::Command(command.name@, dargs(command.args@), next),
        StepKind::Let { name, attrs, value, next } => StepView::Let(name@, strings(attrs@), dview(value), next),
        StepKind::Branch { condition, then, otherwise } => StepView::Branch(dview(condition), then, otherwise),
        StepKind::End => StepView::End,
    }
}

/// What the steps hold.
pub open spec fn steps_view(v: Seq<StepKind>) -> Seq<StepView> {
    v.map_values(|k: StepKind| step_view(k))
}

/// What the steps of a node hold.
pub open spec fn node_steps(v: Seq<Step>) -> Seq<StepView> {
    v.map_values(|s: Step| step_view(s.kind))
}

/// The steps a step can lead to within its node.
pub open spec fn targets(s: StepView) -> Seq<StepId> {
    match s {
        StepView::Say(_, _, next) => seq![next],
        StepView::Command(_, _, next) => seq![next],
        StepView::Let(_, _, _, next) => seq![next],
        StepView::Branch(_, then, otherwise) => seq![then, otherwise],
        StepView::Choice(defs) => defs.map_values(|d: (Seq<DPart>, StepId)| d.1),
        _ => Seq::empty(),
    }
}

/// Whether one of the choices `defs` leads to the step `id`.
pub open spec fn leads_to(defs: Seq<(Seq<DPart>, StepId)>, id: u32) -> bool {
    exists|k: int| 0 <= k < defs.len() && (#[trigger] defs[k]).1.0 == id
}

/// Whether the step `id` leads straight back to itself: a line, a command,
/// or one of the choices.
pub open spec fn self_referencing(s: StepView, id: u32) -> bool {
    match s {
        StepView::Say(_, _, next) => next.0 == id,
        StepView::Command(_, _, next) => next.0 == id,
        StepView::Choice(defs) => leads_to(defs, id),
        _ => false,
    }
}

/// The first target of `ts`, from the `k`-th on, that is past `max`.
pub open spec fn dangling_from(ts: Seq<StepId>, max: u32, k: int) -> Option<StepId>
    decreases ts.len() - k,
{
    if k < 0 || k >= ts.len() {
        None
    } else if ts[k].0 > max {
        Some(ts[k])
    } else {
        dangling_from(ts, max, k + 1)
    }
}

/// What can be wrong with the steps of a node.
pub enum BuildFault {
    DanglingTarget(StepId, StepId),
    DanglingEntry,
    EmptyNode,
    SelfReferencing(StepId),
}

/// The first fault of the steps from the `i`-th on, each checked for
/// pointing at itself, then at a step past `max`.
pub open spec fn first_fault(steps: Seq<StepView>, max: u32, i: int) -> Option<BuildFault>
    decreases steps.len() - i,
{
    if i < 0 || i >= steps.len() {
        None
    } else if self_referencing(steps[i], i as u32) {
        Some(BuildFault::SelfReferencing(StepId(i as u32)))
    } else {
        match dangling_from(targets(steps[i]), max, 0) {
            Some(t) => Some(BuildFault::DanglingTarget(StepId(i as u32), t)),
            None => first_fault(steps, max, i + 1),
        }
    }
}

/// What closing a node of `steps` on `entry` finds wrong, if anything: no
/// step, an entry past the last one, or the first step that points at
/// itself or past the last one.
pub open spec fn build_fault(steps: Seq<StepView>, entry: StepId) -> Option<BuildFault> {
    if steps.len() == 0 {
        Some(BuildFault::EmptyNode)
    } else if entry.0 > (steps.len() - 1) as u32 {
        Some(BuildFault::DanglingEntry)
    } else {
        first_fault(steps, (steps.len() - 1) as u32, 0)
    }
}

/// What a build error says went wrong.
pub open spec fn fault_of(e: BuildError) -> Option<BuildFault> {
    match e {
        BuildError::DanglingTarget { from, to } => Some(BuildFault::DanglingTarget(from, to)),
        BuildError::DanglingEntry => Some(BuildFault::DanglingEntry),
        BuildError::EmptyNode => Some(BuildFault::EmptyNode),
        BuildError::SelfReferencing(id) => Some(BuildFault::SelfReferencing(id)),
        _ => None,
    }
}

/// What a node holds: its name, the step it starts on, and its steps.
pub struct NodeShape {
    pub name: Seq<char>,
    pub entry: StepId,
    pub steps: Seq<StepView>,
}

/// One node of a dialogue: a name and the steps it is made of. Only
/// [`DialogueNodeBuilder::build`] makes one, so every id it holds names one
/// of its steps.
#[derive(Debug)]
pub struct DialogueNode {
    name: NodeName,
    entry: StepId,
    steps: Vec<Step>,
}

impl View for DialogueNode {
    type V = NodeShape;

    closed spec fn view(&self) -> NodeShape {
        NodeShape { name: self.name.0@, entry: self.entry, steps: node_steps(self.steps@) }
    }
}

impl DialogueNode {
    /// Its entry and every step one of its steps leads to are steps it has.
    #[verifier::type_invariant]
    spec fn closed(self) -> bool {
        closed_over(node_steps(self.steps@), self.entry)
    }

    /// Name the node is declared and jumped to under.
    pub fn name(&self) -> (r: &NodeName)
        ensures
            r.0@ == self@.name,
    {
        &self.name
    }

    /// Step the node starts on, one of its steps.
    pub fn entry(&self) -> (r: StepId)
        ensures
            r == self@.entry,
            closed_over(self@.steps, self@.entry),
    {
        proof {
            use_type_invariant(self);
        }
        self.entry
    }

    /// Every step of the node, indexed by [`StepId`].
    pub fn steps(&self) -> (r: &[Step])
        ensures
            node_steps(r@) == self@.steps,
    {
        self.steps.as_slice()
    }

    /// Step with this id.
    pub fn get_step(&self, id: &StepId) -> (r: &Step)
        requires
            (id.0 as int) < self@.steps.len(),
        ensures
            step_view(r.kind) == self@.steps[id.0 as int],
            closed_over(self@.steps, self@.entry),
    {
        proof {
            use_type_invariant(self);
        }
        &self.steps[id.0 as usize]
    }
}

/// Collects the steps of one node until it can be closed. Ids are handed
/// out as steps are pushed.
pub struct DialogueNodeBuilder {
    steps: Vec<StepKind>,
}

impl DialogueNodeBuilder {
    /// What the steps pushed so far hold, in the order they were pushed.
    pub closed spec fn view(&self) -> Seq<StepView> {
        steps_view(self.steps@)
    }

    /// Number of steps pushed so far.
    pub fn len(&self) -> (r: usize)
        ensures
            r == self@.len(),
    {
        self.steps.len()
    }

    /// Add a step and return the id it can now be reached by.
    pub fn push(&mut self, kind: StepKind) -> (r: StepId)
        requires
            old(self)@.len() < u32::MAX,
        ensures
            r.0 == old(self)@.len(),
            final(self)@ == old(self)@.push(step_view(kind)),
    {
        let ghost before = self.steps@;
        let id = self.steps.len() as u32;
        self.steps.push(kind);
        proof {
            assert(steps_view(self.steps@) =~= steps_view(before).push(step_view(kind)));
        }
        StepId(id)
    }

    /// Point the branch `id`, pushed before its body, at the first step of
    /// that body, now that it is known.
    fn set_then(&mut self, id: StepId, then: StepId)
        requires
            (id.0 as int) < old(self)@.len(),
            old(self)@[id.0 as int] is Branch,
        ensures
            final(self)@ == old(self)@.update(
                id.0 as int,
                StepView::Branch(old(self)@[id.0 as int]->Branch_0, then, old(self)@[id.0 as int]->Branch_2),
            ),
    {
        let ghost before = self.steps@;
        let i = id.0 as usize;
        let old_step = self.steps.remove(i);
        let step = match old_step {
            StepKind::Branch { condition, then: _, otherwise } => StepKind::Branch { condition, then, otherwise },
            other => other,
        };
        self.steps.insert(i, step);
        proof {
            let after = self.steps@;
            before.remove(i as int).insert_ensures(i as int, step);
            assert(after =~= before.update(i as int, step));
            assert(steps_view(after) =~= steps_view(before).update(i as int, step_view(step)));
        }
    }

    /// Close the node, starting on `entry`, once every step is checked: a
    /// node that exists is one whose steps all point at steps it has.
    pub fn build(self, name: NodeName, entry: StepId) -> (r: Result<DialogueNode, BuildError>)
        ensures
            match build_fault(self@, entry) {
                None => r matches Ok(node) && node@.name == name.0@ && node@.entry == entry && node@.steps
                    == self@,
                Some(f) => r matches Err(e) && fault_of(e) == Some(f),
            },
    {
        let ghost v = self@;
        let n = self.steps.len();
        if n == 0 {
            return Err(BuildError::EmptyNode);
        }
        #[verifier::truncate]
        let max_id = (n - 1) as u32;
        if entry.0 > max_id {
            return Err(BuildError::DanglingEntry);
        }
        let mut i: usize = 0;
        while i < n
            invariant
                n == self.steps@.len(),
                v == self@,
                v.len() == n,
                max_id == (n - 1) as u32,
                !(entry.0 > max_id),
                i <= n,
                first_fault(v, max_id, 0) == first_fault(v, max_id, i as int),
            decreases n - i,
        {
            #[verifier::truncate]
            let id = i as u32;
            proof {
                assert(v[i as int] == step_view(self.steps@[i as int]));
            }
            if self_ref(&self.steps[i], id) {
                proof {
                    assert(first_fault(v, max_id, i as int) == Some(BuildFault::SelfReferencing(StepId(id))));
                    assert(first_fault(v, max_id, 0) == Some(BuildFault::SelfReferencing(StepId(id))));
                    assert(!(entry.0 > (v.len() - 1) as u32));
                    assert(build_fault(v, entry) == Some(BuildFault::SelfReferencing(StepId(id))));
                    assert(build_fault(self@, entry) == Some(BuildFault::SelfReferencing(StepId(id))));
                }
                return Err(BuildError::SelfReferencing(StepId(id)));
            }
            match dangling(&self.steps[i], max_id) {
                Some(t) => {
                    proof {
                        assert(first_fault(v, max_id, i as int) == Some(BuildFault::DanglingTarget(StepId(id), t)));
                    }
                    return Err(BuildError::DanglingTarget { from: StepId(id), to: t });
                },
                None => {},
            }
            i = i + 1;
        }
        let mut kinds = self.steps;
        let mut reversed: Vec<StepKind> = Vec::new();
        while kinds.len() > 0
            invariant
                steps_view(kinds@) + steps_view(reversed@).reverse() == v,
            decreases kinds@.len(),
        {
            let ghost k0 = kinds@;
            let ghost r0 = reversed@;
            let k = kinds.pop().unwrap();
            reversed.push(k);
            proof {
                assert(steps_view(k0) =~= steps_view(kinds@).push(step_view(k)));
                assert(steps_view(reversed@) =~= steps_view(r0).push(step_view(k)));
                assert(steps_view(reversed@).reverse() =~= seq![step_view(k)] + steps_view(r0).reverse());
                assert(steps_view(kinds@) + steps_view(reversed@).reverse() =~= steps_view(k0) + steps_view(r0).reverse());
            }
        }
        let mut steps: Vec<Step> = Vec::new();
        proof {
            assert(steps_view(kinds@) =~= Seq::<StepView>::empty());
            assert(node_steps(steps@) =~= Seq::<StepView>::empty());
        }
        while reversed.len() > 0
            invariant
                node_steps(steps@) + steps_view(reversed@).reverse() == v,
            decreases reversed@.len(),
        {
            let ghost r0 = reversed@;
            let ghost s0 = steps@;
            let k = reversed.pop().unwrap();
            steps.push(Step { kind: k });
            proof {
                assert(steps_view(r0) =~= steps_view(reversed@).push(step_view(k)));
                assert(steps_view(r0).reverse() =~= seq![step_view(k)] + steps_view(reversed@).reverse());
                assert(node_steps(steps@) =~= node_steps(s0).push(step_view(k)));
                assert(node_steps(steps@) + steps_view(reversed@).reverse() =~= node_steps(s0) + steps_view(r0).reverse());
            }
        }
        proof {
            assert(steps_view(reversed@).reverse() =~= Seq::<StepView>::empty());
            assert(node_steps(steps@) =~= v);
            assert(build_fault(v, entry) is None);
            lemma_closed(v, entry);
        }
        Ok(DialogueNode { name, entry, steps })
    }
}

/// Whether the step `id` leads straight back to itself, as
/// [`self_referencing`] says.
fn self_ref(kind: &StepKind, id: u32) -> (r: bool)
    ensures
        r == self_referencing(step_view(*kind), id),
{
    match kind {
        StepKind::Say { next, .. } => next.0 == id,
        StepKind::Command { next, .. } => next.0 == id,
        StepKind::Choice { choices } => {
            let ghost d = defs_of(choices@);
            let mut k: usize = 0;
            while k < choices.len()
                invariant
                    k <= choices@.len(),
                    d == defs_of(choices@),
                    step_view(*kind) == StepView::Choice(d),
                    forall|j: int| 0 <= j < k ==> d[j].1.0 != id,
                decreases choices@.len() - k,
            {
                if choices[k].target.0 == id {
                    proof {
                        assert(d.len() == choices@.len());
                        assert(d[k as int] == (parts_of(choices@[k as int].text@), choices@[k as int].target));
                        assert(d[k as int].1.0 == id);
                        assert(step_view(*kind) == StepView::Choice(d));
                        assert(0 <= k < d.len() && d[k as int].1.0 == id);
                        let w = k as int;
                        assert(leads_to(d, id)) by {
                            assert(0 <= w < d.len() && d[w].1.0 == id);
                        }
                    }
                    return true;
                }
                k = k + 1;
            }
            false
        },
        _ => false,
    }
}

/// The first target of the step past `max`, as [`dangling_from`] says.
fn dangling(kind: &StepKind, max: u32) -> (r: Option<StepId>)
    ensures
        r == dangling_from(targets(step_view(*kind)), max, 0),
{
    match kind {
        StepKind::Say { next, .. } | StepKind::Command { next, .. } | StepKind::Let { next, .. } => {
            proof {
                reveal_with_fuel(dangling_from, 2);
            }
            if next.0 > max {
                Some(*next)
            } else {
                None
            }
        },
        StepKind::Branch { then, otherwise, .. } => {
            proof {
                reveal_with_fuel(dangling_from, 3);
            }
            if then.0 > max {
                Some(*then)
            } else if otherwise.0 > max {
                Some(*otherwise)
            } else {
                None
            }
        },
        StepKind::Choice { choices } => {
            let ghost ts = targets(step_view(*kind));
            let mut k: usize = 0;
            while k < choices.len()
                invariant
                    k <= choices@.len(),
                    ts == targets(step_view(*kind)),
                    ts == defs_of(choices@).map_values(|d: (Seq<DPart>, StepId)| d.1),
                    ts.len() == choices@.len(),
                    dangling_from(ts, max, 0) == dangling_from(ts, max, k as int),
                decreases choices@.len() - k,
            {
                proof {
                    let d = defs_of(choices@);
                    assert(d[k as int] == (parts_of(choices@[k as int].text@), choices@[k as int].target));
                    assert(ts[k as int] == choices@[k as int].target);
                }
                if choices[k].target.0 > max {
                    return Some(choices[k].target);
                }
                k = k + 1;
            }
            None
        },
        _ => None,
    }
}

impl Default for DialogueNodeBuilder {
    fn default() -> (r: Self)
        ensures
            r@ == Seq::<StepView>::empty(),
    {
        let r = DialogueNodeBuilder { steps: Vec::new() };
        proof {
            assert(steps_view(r.steps@) =~= Seq::<StepView>::empty());
        }
        r
    }
}

/// The steps once `s` is pushed after them, and the id it takes: `None`
/// past the ids a node can hand out.
pub open spec fn push_step(steps: Seq<StepView>, s: StepView) -> Option<(Seq<StepView>, StepId)> {
    if steps.len() < u32::MAX {
        Some((steps.push(s), StepId(steps.len() as u32)))
    } else {
        None
    }
}

/// Where a `[break]` and a `[continue]` of the innermost loop lead.
pub type Exits = Option<(StepId, StepId)>;

/// The steps of `body`, pushed after `steps` in reverse, each leading to
/// the next and the last to `after`, and the id the block starts on (the
/// one of `after` for an empty block). `None` when a statement cannot be
/// compiled.
pub open spec fn c_block(steps: Seq<StepView>, body: Seq<StmtView>, after: StepId, exits: Exits) -> Option<(Seq<StepView>, StepId)>
    decreases body,
{
    if body.len() == 0 {
        Some((steps, after))
    } else {
        match c_stmt(steps, body[body.len() - 1], after, exits) {
            Some(r) => c_block(r.0, body.subrange(0, body.len() - 1), r.1, exits),
            None => None,
        }
    }
}

/// The steps of `st`, pushed after `steps`, leading to `after`, and the id
/// it starts on. `=> END` ends the dialogue. A condition group is a chain of
/// branches, each body leading to `after`; a loop is a branch pushed before
/// its body, whose end leads back to it, and whose first step it is pointed
/// at once pushed. A `[break]` or a `[continue]` pushes nothing: it is the
/// step after its loop, or the test of it.
pub open spec fn c_stmt(steps: Seq<StepView>, st: StmtView, after: StepId, exits: Exits) -> Option<(Seq<StepView>, StepId)>
    decreases st,
{
    match st.kind {
        StmtKindView::Say(speaker, parts) => match lower_parts(parts) {
            Some(ps) => push_step(
                steps,
                StepView::Say(
                    match speaker {
                        Some(n) => Some(n.0),
                        None => None,
                    },
                    ps,
                    after,
                ),
            ),
            None => None,
        },
        StmtKindView::Command(name, args) => match lower_args(args) {
            Some(a) => push_step(steps, StepView::Command(name.0, a, after)),
            None => None,
        },
        StmtKindView::Let(name, attrs, value) => match lower(value.expr) {
            Some(v) => push_step(steps, StepView::Let(name.0, names_only(attrs), v, after)),
            None => None,
        },
        StmtKindView::If(branches, otherwise) => match match otherwise {
            Some(b) => c_block(steps, b, after, exits),
            None => Some((steps, after)),
        } {
            Some(r) => c_branches(r.0, branches, after, r.1, exits),
            None => None,
        },
        StmtKindView::Jump(n) => if n.0 == end_node_name() {
            push_step(steps, StepView::End)
        } else {
            push_step(steps, StepView::Jump(n.0))
        },
        StmtKindView::Choice(cs) => match c_choices(steps, cs, after, exits) {
            Some(r) => push_step(r.0, StepView::Choice(r.1)),
            None => None,
        },
        StmtKindView::While(cond, body) => match lower(cond.expr) {
            Some(c) => match push_step(steps, StepView::Branch(c, after, after)) {
                Some(t) => match c_block(t.0, body, t.1, Some((after, t.1))) {
                    Some(b) => Some((b.0.update(t.1.0 as int, StepView::Branch(c, b.1, after)), t.1)),
                    None => None,
                },
                None => None,
            },
            None => None,
        },
        StmtKindView::Break => match exits {
            Some(e) => Some((steps, e.0)),
            None => None,
        },
        StmtKindView::Continue => match exits {
            Some(e) => Some((steps, e.1)),
            None => None,
        },
    }
}

/// The branches of a condition group, the last first, each a test leading
/// to its body when it holds and to `next`, the branch after it, when not.
pub open spec fn c_branches(steps: Seq<StepView>, bs: Seq<BranchView>, after: StepId, next: StepId, exits: Exits) -> Option<(Seq<StepView>, StepId)>
    decreases bs,
{
    if bs.len() == 0 {
        Some((steps, next))
    } else {
        let b = bs[bs.len() - 1];
        match c_block(steps, b.body, after, exits) {
            Some(r) => match lower(b.condition.expr) {
                Some(c) => match push_step(r.0, StepView::Branch(c, r.1, next)) {
                    Some(t) => c_branches(t.0, bs.subrange(0, bs.len() - 1), after, t.1, exits),
                    None => None,
                },
                None => None,
            },
            None => None,
        }
    }
}

/// The bodies of the options of a choice, in order, each leading to
/// `after`, and the entry of each: its text and where its body starts.
pub open spec fn c_choices(steps: Seq<StepView>, cs: Seq<ChoiceView>, after: StepId, exits: Exits) -> Option<(Seq<StepView>, Seq<(Seq<DPart>, StepId)>)>
    decreases cs,
{
    if cs.len() == 0 {
        Some((steps, Seq::empty()))
    } else {
        match c_choices(steps, cs.subrange(0, cs.len() - 1), after, exits) {
            Some(r) => {
                let c = cs[cs.len() - 1];
                match c_block(r.0, c.body, after, exits) {
                    Some(b) => match lower_parts(c.text) {
                        Some(ps) => Some((b.0, r.1.push((ps, b.1)))),
                        None => None,
                    },
                    None => None,
                }
            },
            None => None,
        }
    }
}

/// Whether `s` holds the steps `steps`, then maybe more.
pub open spec fn extends(s: Seq<StepView>, steps: Seq<StepView>) -> bool {
    s.len() >= steps.len() && forall|i: int| 0 <= i < steps.len() ==> #[trigger] s[i] == steps[i]
}

/// Compiling a block only adds steps after those already there.
proof fn lemma_block_extends(steps: Seq<StepView>, body: Seq<StmtView>, after: StepId, exits: Exits)
    ensures
        c_block(steps, body, after, exits) matches Some(r) ==> extends(r.0, steps),
    decreases body,
{
    if body.len() > 0 {
        lemma_stmt_extends(steps, body[body.len() - 1], after, exits);
        match c_stmt(steps, body[body.len() - 1], after, exits) {
            Some(r) => lemma_block_extends(r.0, body.subrange(0, body.len() - 1), r.1, exits),
            None => {},
        }
    }
}

/// Compiling a statement only adds steps after those already there.
proof fn lemma_stmt_extends(steps: Seq<StepView>, st: StmtView, after: StepId, exits: Exits)
    ensures
        c_stmt(steps, st, after, exits) matches Some(r) ==> extends(r.0, steps),
    decreases st,
{
    match st.kind {
        StmtKindView::If(branches, otherwise) => {
            match otherwise {
                Some(b) => {
                    lemma_block_extends(steps, b, after, exits);
                    match c_block(steps, b, after, exits) {
                        Some(r) => lemma_branches_extends(r.0, branches, after, r.1, exits),
                        None => {},
                    }
                },
                None => lemma_branches_extends(steps, branches, after, after, exits),
            }
        },
        StmtKindView::Choice(cs) => {
            lemma_choices_extends(steps, cs, after, exits);
        },
        StmtKindView::While(cond, body) => {
            match lower(cond.expr) {
                Some(c) => match push_step(steps, StepView::Branch(c, after, after)) {
                    Some(t) => {
                        lemma_block_extends(t.0, body, t.1, Some((after, t.1)));
                    },
                    None => {},
                },
                None => {},
            }
        },
        _ => {},
    }
}

/// Compiling the branches of a group only adds steps.
proof fn lemma_branches_extends(steps: Seq<StepView>, bs: Seq<BranchView>, after: StepId, next: StepId, exits: Exits)
    ensures
        c_branches(steps, bs, after, next, exits) matches Some(r) ==> extends(r.0, steps),
    decreases bs,
{
    if bs.len() > 0 {
        let b = bs[bs.len() - 1];
        lemma_block_extends(steps, b.body, after, exits);
        match c_block(steps, b.body, after, exits) {
            Some(r) => match lower(b.condition.expr) {
                Some(c) => match push_step(r.0, StepView::Branch(c, r.1, next)) {
                    Some(t) => lemma_branches_extends(t.0, bs.subrange(0, bs.len() - 1), after, t.1, exits),
                    None => {},
                },
                None => {},
            },
            None => {},
        }
    }
}

/// Compiling the bodies of a choice only adds steps.
proof fn lemma_choices_extends(steps: Seq<StepView>, cs: Seq<ChoiceView>, after: StepId, exits: Exits)
    ensures
        c_choices(steps, cs, after, exits) matches Some(r) ==> extends(r.0, steps),
    decreases cs,
{
    if cs.len() > 0 {
        lemma_choices_extends(steps, cs.subrange(0, cs.len() - 1), after, exits);
        match c_choices(steps, cs.subrange(0, cs.len() - 1), after, exits) {
            Some(r) => lemma_block_extends(r.0, cs[cs.len() - 1].body, after, exits),
            None => {},
        }
    }
}

/// The views of branches are one per branch.
proof fn lemma_branches_count(v: Seq<Branch>)
    ensures
        branches_view(v).len() == v.len(),
    decreases v.len(),
{
    if v.len() > 0 {
        lemma_branches_count(v.subrange(0, v.len() - 1));
    }
}

/// A compilation that fails at a prefix of the options fails.
proof fn lemma_choices_fail(steps: Seq<StepView>, cs: Seq<ChoiceView>, after: StepId, exits: Exits, i: int)
    requires
        0 <= i <= cs.len(),
        c_choices(steps, cs.take(i), after, exits) is None,
    ensures
        c_choices(steps, cs, after, exits) is None,
    decreases cs.len() - i,
{
    if i < cs.len() {
        assert(cs.take(i + 1).subrange(0, i) =~= cs.take(i));
        lemma_choices_fail(steps, cs, after, exits, i + 1);
    } else {
        assert(cs.take(i) =~= cs);
    }
}

/// Pushes the steps of `body` after those of `builder`, as [`c_block`]
/// says, and gives the id the block starts on.
fn build_block(builder: &mut DialogueNodeBuilder, body: Vec<Stmt>, after: StepId, exits: Option<(StepId, StepId)>) -> (r: Result<StepId, BuildError>)
    ensures
        match c_block(old(builder)@, stmts_view(body@), after, exits) {
            Some(x) => r == Ok::<StepId, BuildError>(x.1) && final(builder)@ == x.0,
            None => r is Err,
        },
    decreases body@,
{
    let ghost all = body@;
    let ghost b0 = builder@;
    let mut rest = body;
    let mut current = after;
    while rest.len() > 0
        invariant
            all == body@,
            b0 == old(builder)@,
            rest@.len() <= all.len(),
            rest@ == all.take(rest@.len() as int),
            c_block(b0, stmts_view(all), after, exits) == c_block(builder@, stmts_view(rest@), current, exits),
        decreases rest@.len(),
    {
        let ghost r0 = rest@;
        let stmt = rest.pop().unwrap();
        proof {
            assert(r0.subrange(0, r0.len() - 1) =~= rest@);
            assert(stmt == all[r0.len() - 1]);
            assert(decreases_to!(all => all[r0.len() - 1]));
            assert(rest@ =~= all.take(rest@.len() as int));
            crate::parser::tree::lemma_stmts_len(r0);
            crate::parser::tree::lemma_stmts_len(rest@);
            assert(stmts_view(r0)[r0.len() - 1] == crate::parser::ast::stmt_view(stmt));
            assert(stmts_view(r0).subrange(0, r0.len() - 1) =~= stmts_view(rest@));
        }
        match build_stmt(builder, stmt, current, exits) {
            Ok(id) => {
                current = id;
            },
            Err(e) => {
                return Err(e);
            },
        }
    }
    Ok(current)
}

/// Pushes the steps of `stmt` after those of `builder`, as [`c_stmt`] says,
/// and gives the id it starts on.
fn build_stmt(builder: &mut DialogueNodeBuilder, stmt: Stmt, after: StepId, exits: Option<(StepId, StepId)>) -> (r: Result<StepId, BuildError>)
    ensures
        match c_stmt(old(builder)@, crate::parser::ast::stmt_view(stmt), after, exits) {
            Some(x) => r == Ok::<StepId, BuildError>(x.1) && final(builder)@ == x.0,
            None => r is Err,
        },
    decreases stmt,
{
    let ghost st = stmt;
    let ghost b0 = builder@;
    let kind = stmt.kind;
    proof {
        assert(decreases_to!(st => st.kind));
    }
    match kind {
        StmtKind::Say { speaker, text } => {
            let parts = match lower_text(text) {
                Ok(p) => p,
                Err(e) => {
                    return Err(e);
                },
            };
            let speaker = match speaker {
                Some(sp) => Some(sp.value),
                None => None,
            };
            if builder.len() >= 0xffff_ffff {
                return Err(BuildError::TooManySteps);
            }
            Ok(builder.push(StepKind::Say { line: TextLine { speaker, text: parts }, next: after }))
        },
        StmtKind::Command { name, args } => {
            let args = match lower_list(args) {
                Ok(a) => a,
                Err(e) => {
                    return Err(e);
                },
            };
            if builder.len() >= 0xffff_ffff {
                return Err(BuildError::TooManySteps);
            }
            Ok(builder.push(StepKind::Command { command: Command { name: name.value, args }, next: after }))
        },
        StmtKind::Let { name, attrs, value } => {
            let attrs = names_of(attrs);
            let value = match lower_expr(value.value) {
                Ok(v) => v,
                Err(e) => {
                    return Err(e);
                },
            };
            if builder.len() >= 0xffff_ffff {
                return Err(BuildError::TooManySteps);
            }
            Ok(builder.push(StepKind::Let { name: name.value, attrs, value, next: after }))
        },
        StmtKind::Jump(name) => {
            proof {
                reveal_strlit("END");
            }
            if builder.len() >= 0xffff_ffff {
                return Err(BuildError::TooManySteps);
            }
            if text::chars_eq(name.value.as_str(), END_NODE_NAME) {
                Ok(builder.push(StepKind::End))
            } else {
                Ok(builder.push(StepKind::Jump(NodeName::from_spanned(name))))
            }
        },
        StmtKind::Break => match exits {
            Some(e) => Ok(e.0),
            None => Err(BuildError::OutsideLoop),
        },
        StmtKind::Continue => match exits {
            Some(e) => Ok(e.1),
            None => Err(BuildError::OutsideLoop),
        },
        StmtKind::If { branches, otherwise } => {
            let ghost ob = otherwise;
            let ghost allb = branches@;
            let next0 = match otherwise {
                Some(body) => {
                    proof {
                        assert(decreases_to!(st.kind => ob));
                        assert(decreases_to!(ob => body));
                        assert(decreases_to!(body => body@));
                    }
                    match build_block(builder, body, after, exits) {
                        Ok(id) => id,
                        Err(e) => {
                            return Err(e);
                        },
                    }
                },
                None => after,
            };
            let ghost b1 = builder@;
            let mut bs = branches;
            let mut next = next0;
            while bs.len() > 0
                invariant
                    st == stmt,
                    b0 == old(builder)@,
                    allb == st.kind->branches@,
                    st.kind is If,
                    decreases_to!(st => st.kind),
                    bs@.len() <= allb.len(),
                    bs@ == allb.take(bs@.len() as int),
                    c_stmt(b0, crate::parser::ast::stmt_view(st), after, exits) == c_branches(
                        b1,
                        branches_view(allb),
                        after,
                        next0,
                        exits,
                    ),
                    c_branches(b1, branches_view(allb), after, next0, exits) == c_branches(
                        builder@,
                        branches_view(bs@),
                        after,
                        next,
                        exits,
                    ),
                decreases bs@.len(),
            {
                let ghost r0 = bs@;
                let br = bs.pop().unwrap();
                proof {
                    let k = r0.len() - 1;
                    let vb = st.kind->branches;
                    assert(r0.subrange(0, k) =~= bs@);
                    assert(br == allb[k]);
                    assert(decreases_to!(st.kind => vb));
                    assert(decreases_to!(vb => vb@));
                    assert(decreases_to!(vb@ => vb@[k]));
                    assert(decreases_to!(vb@[k] => vb@[k].body));
                    assert(decreases_to!(vb@[k].body => vb@[k].body@));
                    assert(bs@ =~= allb.take(bs@.len() as int));
                    lemma_branches_count(r0);
                    lemma_branches_count(bs@);
                    assert(branches_view(r0).subrange(0, k) =~= branches_view(bs@));
                }
                let Branch { condition, body, span: _ } = br;
                let then = match build_block(builder, body, after, exits) {
                    Ok(id) => id,
                    Err(e) => {
                        return Err(e);
                    },
                };
                let c = match lower_expr(condition.value) {
                    Ok(c) => c,
                    Err(e) => {
                        return Err(e);
                    },
                };
                if builder.len() >= 0xffff_ffff {
                    return Err(BuildError::TooManySteps);
                }
                next = builder.push(StepKind::Branch { condition: c, then, otherwise: next });
            }
            Ok(next)
        },
        StmtKind::Choice { choices } => {
            let ghost allc = choices@;
            let ghost cv = choices_view(allc);
            let ghost b1 = builder@;
            let _n = choices.len();
            let mut rest = choices;
            let mut defs: Vec<ChoiceDef> = Vec::new();
            let mut i: usize = 0;
            proof {
                crate::parser::tree::lemma_choices_len(allc);
                assert(cv.take(0) =~= Seq::<ChoiceView>::empty());
                assert(defs_of(defs@) =~= Seq::<(Seq<DPart>, StepId)>::empty());
            }
            while rest.len() > 0
                invariant
                    st == stmt,
                    b0 == old(builder)@,
                    allc == st.kind->choices@,
                    st.kind is Choice,
                    decreases_to!(st => st.kind),
                    allc.len() <= usize::MAX,
                    cv == choices_view(allc),
                    cv.len() == allc.len(),
                    forall|m: int| 0 <= m < allc.len() ==> #[trigger] cv[m] == (ChoiceView {
                        text: parts_view(allc[m].text@),
                        body: stmts_view(allc[m].body@),
                        span: allc[m].span,
                    }),
                    i + rest@.len() == allc.len(),
                    rest@ == allc.skip(i as int),
                    c_choices(b1, cv.take(i as int), after, exits) == Some((builder@, defs_of(defs@))),
                    c_stmt(b0, crate::parser::ast::stmt_view(st), after, exits) == match c_choices(b1, cv, after, exits) {
                        Some(r) => push_step(r.0, StepView::Choice(r.1)),
                        None => None,
                    },
                decreases rest@.len(),
            {
                let c = rest.remove(0);
                proof {
                    let vc = st.kind->choices;
                    assert(c == allc[i as int]);
                    assert(decreases_to!(st.kind => vc));
                    assert(decreases_to!(vc => vc@));
                    assert(decreases_to!(vc@ => vc@[i as int]));
                    assert(decreases_to!(vc@[i as int] => vc@[i as int].body));
                    assert(decreases_to!(vc@[i as int].body => vc@[i as int].body@));
                    assert(rest@ =~= allc.skip(i + 1));
                    assert(cv.take(i + 1).subrange(0, i as int) =~= cv.take(i as int));
                    assert(cv.take(i + 1)[i as int] == cv[i as int]);
                }
                let Choice { text, body, span: _ } = c;
                let target = match build_block(builder, body, after, exits) {
                    Ok(id) => id,
                    Err(e) => {
                        proof {
                            lemma_choices_fail(b1, cv, after, exits, i + 1);
                        }
                        return Err(e);
                    },
                };
                let parts = match lower_text(text) {
                    Ok(p) => p,
                    Err(e) => {
                        proof {
                            lemma_choices_fail(b1, cv, after, exits, i + 1);
                        }
                        return Err(e);
                    },
                };
                let ghost d0 = defs@;
                let def = ChoiceDef { text: parts, target };
                defs.push(def);
                proof {
                    assert(defs_of(defs@) =~= defs_of(d0).push((parts_of(def.text@), target)));
                }
                i = i + 1;
            }
            proof {
                assert(cv.take(i as int) =~= cv);
            }
            if builder.len() >= 0xffff_ffff {
                return Err(BuildError::TooManySteps);
            }
            Ok(builder.push(StepKind::Choice { choices: defs }))
        },
        StmtKind::While { condition, body } => {
            let ghost vbody = body;
            let c = match lower_expr(condition.value) {
                Ok(c) => c,
                Err(e) => {
                    return Err(e);
                },
            };
            if builder.len() >= 0xffff_ffff {
                return Err(BuildError::TooManySteps);
            }
            let ghost dc = dview(c);
            let test = builder.push(StepKind::Branch { condition: c, then: after, otherwise: after });
            let ghost b1 = builder@;
            proof {
                assert(decreases_to!(st.kind => vbody));
                assert(decreases_to!(vbody => vbody@));
            }
            let start = match build_block(builder, body, test, Some((after, test))) {
                Ok(id) => id,
                Err(e) => {
                    return Err(e);
                },
            };
            proof {
                lemma_block_extends(b1, stmts_view(vbody@), test, Some((after, test)));
                assert(builder@[test.0 as int] == b1[test.0 as int]);
            }
            builder.set_then(test, start);
            Ok(test)
        },
    }
}

/// The steps of a node whose body is `body`, and the step it starts on: its
/// end is pushed first, and the body is threaded back from it.
pub open spec fn c_node(body: Seq<StmtView>) -> Option<(Seq<StepView>, StepId)> {
    c_block(seq![StepView::End], body, StepId(0), None)
}

/// Whether the node declared as `nd` compiles, and closes.
pub open spec fn node_compiles(nd: NodeView) -> bool {
    match c_node(nd.body) {
        Some(x) => build_fault(x.0, x.1) is None,
        None => false,
    }
}

/// Whether `n` is the node that `nd` compiles into: its name, the steps of
/// its body and the step it starts on.
pub open spec fn compiled_from(n: DialogueNode, nd: NodeView) -> bool {
    match c_node(nd.body) {
        Some(x) => n@.name == nd.name.0 && n@.entry == x.1 && n@.steps == x.0,
        None => false,
    }
}

/// Compile one node declaration: its end, then its body threaded back from
/// it, then the node closed on the step the body starts on.
pub fn compile_node(node: NodeDecl) -> (r: Result<DialogueNode, BuildError>)
    ensures
        match c_node(node_view(node).body) {
            Some(x) => match build_fault(x.0, x.1) {
                None => r matches Ok(n) && compiled_from(n, node_view(node)),
                Some(f) => r matches Err(e) && fault_of(e) == Some(f),
            },
            None => r is Err,
        },
{
    let ghost nv = node_view(node);
    let mut builder = DialogueNodeBuilder::default();
    let end = builder.push(StepKind::End);
    proof {
        assert(builder@ =~= seq![StepView::End]);
        assert(step_view(StepKind::End) == StepView::End);
    }
    let NodeDecl { name, body, full_span: _ } = node;
    let start = match build_block(&mut builder, body, end, None) {
        Ok(id) => id,
        Err(e) => {
            return Err(e);
        },
    };
    builder.build(NodeName::from_spanned(name), start)
}

/// The index of the last of `nodes` called `name`, if one is.
pub open spec fn last_named(nodes: Seq<DialogueNode>, name: Seq<char>) -> Option<int>
    decreases nodes.len(),
{
    if nodes.len() == 0 {
        None
    } else if nodes.last()@.name == name {
        Some(nodes.len() - 1)
    } else {
        last_named(nodes.drop_last(), name)
    }
}

/// All the nodes of a dialogue file, looked up by name. Jumps travel
/// between the nodes of one dialogue, and cannot leave it.
#[derive(Debug)]
pub struct Dialogue {
    nodes: Vec<DialogueNode>,
}

impl Dialogue {
    /// The nodes, in the order they were collected.
    pub closed spec fn nodes(self) -> Seq<DialogueNode> {
        self.nodes@
    }

    /// Collect nodes into a dialogue. Two nodes of one name are no error
    /// here: the last one is the one found.
    pub fn new(nodes: Vec<DialogueNode>) -> (r: Self)
        ensures
            r.nodes() == nodes@,
    {
        Dialogue { nodes }
    }

    /// The node called `name`, the last one of that name; `None` if there
    /// is none.
    pub fn get_node(&self, name: &NodeName) -> (r: Option<&DialogueNode>)
        ensures
            match last_named(self.nodes(), name.0@) {
                Some(i) => r matches Some(n) && *n == self.nodes()[i],
                None => r is None,
            },
    {
        let ghost all = self.nodes@;
        let mut i: usize = self.nodes.len();
        proof {
            assert(all.take(i as int) =~= all);
        }
        while i > 0
            invariant
                all == self.nodes@,
                i <= all.len(),
                last_named(all, name.0@) == last_named(all.take(i as int), name.0@),
            decreases i,
        {
            let k = i - 1;
            proof {
                assert(all.take(i as int).drop_last() =~= all.take(k as int));
                assert(all.take(i as int).last() == all[k as int]);
            }
            if text::chars_eq(self.nodes[k].name().0.as_str(), name.0.as_str()) {
                return Some(&self.nodes[k]);
            }
            i = k;
        }
        None
    }
}

/// What compiling a parsed file gives: the dialogue, when there is one, and
/// everything the parser found, handed over either way.
pub struct Compiled {
    /// The runnable dialogue, or `None` when the source had errors.
    pub dialogue: Option<Dialogue>,
    /// Every diagnostic of the source, errors and warnings alike.
    pub diagnostics: Diagnostics,
}

/// Whether every node of `nodes` compiles and closes.
pub open spec fn all_compile(nodes: Seq<NodeView>) -> bool {
    forall|i: int| 0 <= i < nodes.len() ==> node_compiles(#[trigger] nodes[i])
}

/// Compile a parsed file. One error among its diagnostics is enough to give
/// up: no dialogue comes out, and the diagnostics are handed over untouched.
/// Warnings stop nothing. No dialogue comes out either of a node that cannot
/// be closed, which only a file with errors, or past the ids a node can hand
/// out, has.
pub fn compile(parsed: Parsed) -> (r: Compiled)
    ensures
        r.diagnostics == parsed.diagnostics,
        r.dialogue is Some <==> count_severity(parsed.diagnostics.items(), Severity::Error) == 0
            && all_compile(nodes_view(parsed.nodes@)),
        r.dialogue matches Some(d) ==> d.nodes().len() == parsed.nodes@.len() && forall|i: int|
            0 <= i < d.nodes().len() ==> compiled_from(#[trigger] d.nodes()[i], node_view(parsed.nodes@[i])),
{
    let Parsed { nodes, diagnostics } = parsed;
    if diagnostics.errors() > 0 {
        return Compiled { dialogue: None, diagnostics };
    }
    let ghost all = nodes@;
    let ghost nv = nodes_view(all);
    let _n = nodes.len();
    let mut rest = nodes;
    let mut out: Vec<DialogueNode> = Vec::new();
    let mut i: usize = 0;
    while rest.len() > 0
        invariant
            diagnostics == parsed.diagnostics,
            all == parsed.nodes@,
            count_severity(parsed.diagnostics.items(), Severity::Error) == 0,
            all.len() <= usize::MAX,
            all.len() == nv.len(),
            nv == nodes_view(all),
            i + rest@.len() == all.len(),
            rest@ == all.skip(i as int),
            out@.len() == i,
            forall|j: int| 0 <= j < i ==> node_compiles(#[trigger] nv[j]),
            forall|j: int| 0 <= j < i ==> compiled_from(#[trigger] out@[j], node_view(all[j])),
        decreases rest@.len(),
    {
        let nd = rest.remove(0);
        proof {
            assert(rest@ =~= all.skip(i + 1));
            assert(nd == all[i as int]);
            assert(nv[i as int] == node_view(nd));
        }
        match compile_node(nd) {
            Ok(n) => {
                out.push(n);
            },
            Err(_) => {
                proof {
                    assert(!node_compiles(nv[i as int]));
                }
                return Compiled { dialogue: None, diagnostics };
            },
        }
        i = i + 1;
    }
    Compiled { dialogue: Some(Dialogue::new(out)), diagnostics }
}

/// Whether `entry` and every step that `steps` lead to are steps of
/// `steps`, and no line, command or choice leads straight back to itself.
pub open spec fn closed_over(steps: Seq<StepView>, entry: StepId) -> bool {
    &&& (entry.0 as int) < steps.len()
    &&& forall|i: int, k: int|
        0 <= i < steps.len() && 0 <= k < targets(steps[i]).len() ==> ((#[trigger] targets(steps[i])[k]).0 as int)
            < steps.len()
    &&& forall|i: int| 0 <= i < steps.len() ==> !self_referencing(#[trigger] steps[i], i as u32)
}

/// No target of `ts` from the `k`-th on is past `max` when none is found.
proof fn lemma_no_dangling(ts: Seq<StepId>, max: u32, k: int)
    requires
        0 <= k,
        dangling_from(ts, max, k) is None,
    ensures
        forall|m: int| k <= m < ts.len() ==> ts[m].0 <= max,
    decreases ts.len() - k,
{
    if k < ts.len() {
        lemma_no_dangling(ts, max, k + 1);
    }
}

/// No step from the `i`-th on is at fault when none is found.
proof fn lemma_no_fault(steps: Seq<StepView>, max: u32, i: int)
    requires
        0 <= i,
        first_fault(steps, max, i) is None,
    ensures
        forall|j: int|
            i <= j < steps.len() ==> !self_referencing(#[trigger] steps[j], j as u32) && dangling_from(
                targets(steps[j]),
                max,
                0,
            ) is None,
    decreases steps.len() - i,
{
    if i < steps.len() {
        lemma_no_fault(steps, max, i + 1);
    }
}

/// A node that closes holds only ids of its own steps: its entry and every
/// step that one of its steps leads to are steps it has, so looking a step
/// up by an id the node handed out never misses; and none of its lines,
/// commands or choices leads straight back to itself.
pub proof fn lemma_closed(steps: Seq<StepView>, entry: StepId)
    requires
        build_fault(steps, entry) is None,
    ensures
        closed_over(steps, entry),
{
    let max = (steps.len() - 1) as u32;
    lemma_no_fault(steps, max, 0);
    assert forall|i: int, k: int|
        0 <= i < steps.len() && 0 <= k < targets(steps[i]).len() implies ((#[trigger] targets(steps[i])[k]).0 as int)
        < steps.len() by {
        lemma_no_dangling(targets(steps[i]), max, 0);
    }
}

/// Each node of a compiled dialogue holds only ids of its own steps.
pub proof fn lemma_compiled_closed(n: DialogueNode, nd: NodeView)
    requires
        compiled_from(n, nd),
        node_compiles(nd),
    ensures
        closed_over(n@.steps, n@.entry),
{
    let x = c_node(nd.body).unwrap();
    lemma_closed(x.0, x.1);
}

/// Whether the step `s`, at index `i`, leads only to steps pushed before
/// it, for a line, a command or a choice.
pub open spec fn backward(s: StepView, i: int) -> bool {
    match s {
        StepView::Say(_, _, next) => (next.0 as int) < i,
        StepView::Command(_, _, next) => (next.0 as int) < i,
        StepView::Choice(defs) => forall|k: int| 0 <= k < defs.len() ==> ((#[trigger] defs[k]).1.0 as int) < i,
        _ => true,
    }
}

/// Whether every step of `steps` leads only to steps of `steps`, and every
/// line, command and choice only to steps pushed before it.
pub open spec fn linked(steps: Seq<StepView>) -> bool {
    &&& steps.len() <= u32::MAX
    &&& forall|i: int, k: int|
        0 <= i < steps.len() && 0 <= k < targets(steps[i]).len() ==> ((#[trigger] targets(steps[i])[k]).0 as int)
            < steps.len()
    &&& forall|i: int| 0 <= i < steps.len() ==> backward(#[trigger] steps[i], i)
}

/// Whether the exits of a loop, if any, are steps of a node of `len` steps.
pub open spec fn exits_within(exits: Exits, len: int) -> bool {
    exits matches Some(e) ==> (e.0.0 as int) < len && (e.1.0 as int) < len
}

/// Pushing a step whose targets are steps, and which leads back only, keeps
/// the steps linked.
proof fn lemma_push_linked(steps: Seq<StepView>, s: StepView)
    requires
        linked(steps),
        steps.len() < u32::MAX,
        forall|k: int| 0 <= k < targets(s).len() ==> ((#[trigger] targets(s)[k]).0 as int) < steps.len() + 1,
        backward(s, steps.len() as int),
    ensures
        linked(steps.push(s)),
{
    let n = steps.push(s);
    assert forall|i: int, k: int| 0 <= i < n.len() && 0 <= k < targets(n[i]).len() implies ((#[trigger] targets(
        n[i],
    )[k]).0 as int) < n.len() by {
        if i < steps.len() {
            assert(n[i] == steps[i]);
        }
    }
    assert forall|i: int| 0 <= i < n.len() implies backward(#[trigger] n[i], i) by {
        if i < steps.len() {
            assert(n[i] == steps[i]);
        }
    }
}

/// Linked steps stay linked when a branch among them is pointed at one of
/// them.
proof fn lemma_update_linked(steps: Seq<StepView>, i: int, c: DExpr, then: StepId, otherwise: StepId)
    requires
        linked(steps),
        0 <= i < steps.len(),
        (then.0 as int) < steps.len(),
        (otherwise.0 as int) < steps.len(),
    ensures
        linked(steps.update(i, StepView::Branch(c, then, otherwise))),
{
    let n = steps.update(i, StepView::Branch(c, then, otherwise));
    assert forall|j: int, k: int| 0 <= j < n.len() && 0 <= k < targets(n[j]).len() implies ((#[trigger] targets(
        n[j],
    )[k]).0 as int) < n.len() by {
        if j != i {
            assert(n[j] == steps[j]);
        }
    }
    assert forall|j: int| 0 <= j < n.len() implies backward(#[trigger] n[j], j) by {
        if j != i {
            assert(n[j] == steps[j]);
        }
    }
}

/// Compiling a block onto linked steps, with what follows it and the exits
/// among them, gives linked steps and a start among them.
proof fn lemma_block_linked(steps: Seq<StepView>, body: Seq<StmtView>, after: StepId, exits: Exits)
    requires
        linked(steps),
        (after.0 as int) < steps.len(),
        exits_within(exits, steps.len() as int),
    ensures
        c_block(steps, body, after, exits) matches Some(r) ==> linked(r.0) && (r.1.0 as int) < r.0.len(),
    decreases body,
{
    if body.len() > 0 {
        lemma_stmt_linked(steps, body[body.len() - 1], after, exits);
        lemma_stmt_extends(steps, body[body.len() - 1], after, exits);
        match c_stmt(steps, body[body.len() - 1], after, exits) {
            Some(r) => lemma_block_linked(r.0, body.subrange(0, body.len() - 1), r.1, exits),
            None => {},
        }
    }
}

/// Compiling a statement onto linked steps gives linked steps and a start
/// among them.
proof fn lemma_stmt_linked(steps: Seq<StepView>, st: StmtView, after: StepId, exits: Exits)
    requires
        linked(steps),
        (after.0 as int) < steps.len(),
        exits_within(exits, steps.len() as int),
    ensures
        c_stmt(steps, st, after, exits) matches Some(r) ==> linked(r.0) && (r.1.0 as int) < r.0.len(),
    decreases st,
{
    match st.kind {
        StmtKindView::Say(speaker, parts) => match lower_parts(parts) {
            Some(ps) => {
                let s = StepView::Say(
                    match speaker {
                        Some(n) => Some(n.0),
                        None => None,
                    },
                    ps,
                    after,
                );
                if steps.len() < u32::MAX {
                    lemma_push_linked(steps, s);
                }
            },
            None => {},
        },
        StmtKindView::Command(name, args) => match lower_args(args) {
            Some(a) => {
                if steps.len() < u32::MAX {
                    lemma_push_linked(steps, StepView::Command(name.0, a, after));
                }
            },
            None => {},
        },
        StmtKindView::Let(name, attrs, value) => match lower(value.expr) {
            Some(v) => {
                if steps.len() < u32::MAX {
                    lemma_push_linked(steps, StepView::Let(name.0, names_only(attrs), v, after));
                }
            },
            None => {},
        },
        StmtKindView::Jump(n) => {
            if steps.len() < u32::MAX {
                lemma_push_linked(steps, StepView::End);
                lemma_push_linked(steps, StepView::Jump(n.0));
            }
        },
        StmtKindView::If(branches, otherwise) => {
            match otherwise {
                Some(b) => {
                    lemma_block_linked(steps, b, after, exits);
                    lemma_block_extends(steps, b, after, exits);
                    match c_block(steps, b, after, exits) {
                        Some(r) => lemma_branches_linked(r.0, branches, after, r.1, exits),
                        None => {},
                    }
                },
                None => lemma_branches_linked(steps, branches, after, after, exits),
            }
        },
        StmtKindView::Choice(cs) => {
            lemma_choices_linked(steps, cs, after, exits);
            match c_choices(steps, cs, after, exits) {
                Some(r) => {
                    if r.0.len() < u32::MAX {
                        lemma_push_linked(r.0, StepView::Choice(r.1));
                    }
                },
                None => {},
            }
        },
        StmtKindView::While(cond, body) => match lower(cond.expr) {
            Some(c) => {
                if steps.len() < u32::MAX {
                    let t0 = StepView::Branch(c, after, after);
                    lemma_push_linked(steps, t0);
                    let t = push_step(steps, t0).unwrap();
                    lemma_block_linked(t.0, body, t.1, Some((after, t.1)));
                    lemma_block_extends(t.0, body, t.1, Some((after, t.1)));
                    match c_block(t.0, body, t.1, Some((after, t.1))) {
                        Some(b) => lemma_update_linked(b.0, t.1.0 as int, c, b.1, after),
                        None => {},
                    }
                }
            },
            None => {},
        },
        _ => {},
    }
}

/// Compiling the branches of a group onto linked steps gives linked steps
/// and a first test among them.
proof fn lemma_branches_linked(steps: Seq<StepView>, bs: Seq<BranchView>, after: StepId, next: StepId, exits: Exits)
    requires
        linked(steps),
        (after.0 as int) < steps.len(),
        (next.0 as int) < steps.len(),
        exits_within(exits, steps.len() as int),
    ensures
        c_branches(steps, bs, after, next, exits) matches Some(r) ==> linked(r.0) && (r.1.0 as int) < r.0.len(),
    decreases bs,
{
    if bs.len() > 0 {
        let b = bs[bs.len() - 1];
        lemma_block_linked(steps, b.body, after, exits);
        lemma_block_extends(steps, b.body, after, exits);
        match c_block(steps, b.body, after, exits) {
            Some(r) => match lower(b.condition.expr) {
                Some(c) => {
                    if r.0.len() < u32::MAX {
                        lemma_push_linked(r.0, StepView::Branch(c, r.1, next));
                        let t = push_step(r.0, StepView::Branch(c, r.1, next)).unwrap();
                        lemma_branches_linked(t.0, bs.subrange(0, bs.len() - 1), after, t.1, exits);
                    }
                },
                None => {},
            },
            None => {},
        }
    }
}

/// Compiling the bodies of a choice onto linked steps gives linked steps,
/// and entries that lead among them.
proof fn lemma_choices_linked(steps: Seq<StepView>, cs: Seq<ChoiceView>, after: StepId, exits: Exits)
    requires
        linked(steps),
        (after.0 as int) < steps.len(),
        exits_within(exits, steps.len() as int),
    ensures
        c_choices(steps, cs, after, exits) matches Some(r) ==> linked(r.0) && forall|k: int|
            0 <= k < r.1.len() ==> ((#[trigger] r.1[k]).1.0 as int) < r.0.len(),
    decreases cs,
{
    if cs.len() > 0 {
        let pre = cs.subrange(0, cs.len() - 1);
        lemma_choices_linked(steps, pre, after, exits);
        lemma_choices_extends(steps, pre, after, exits);
        match c_choices(steps, pre, after, exits) {
            Some(r) => {
                let c = cs[cs.len() - 1];
                lemma_block_linked(r.0, c.body, after, exits);
                lemma_block_extends(r.0, c.body, after, exits);
            },
            None => {},
        }
    }
}

/// No target of `ts` from the `k`-th on is past `max` when all are within.
proof fn lemma_none_dangling(ts: Seq<StepId>, max: u32, k: int)
    requires
        0 <= k,
        forall|m: int| 0 <= m < ts.len() ==> (#[trigger] ts[m]).0 <= max,
    ensures
        dangling_from(ts, max, k) is None,
    decreases ts.len() - k,
{
    if k < ts.len() {
        lemma_none_dangling(ts, max, k + 1);
    }
}

/// Linked steps have no fault from the `i`-th on.
proof fn lemma_linked_fault_free(steps: Seq<StepView>, i: int)
    requires
        linked(steps),
        steps.len() > 0,
        0 <= i,
    ensures
        first_fault(steps, (steps.len() - 1) as u32, i) is None,
    decreases steps.len() - i,
{
    if i < steps.len() {
        let max = (steps.len() - 1) as u32;
        let s = steps[i];
        assert(backward(s, i));
        assert((i as u32) as int == i);
        assert(!self_referencing(s, i as u32));
        let ts = targets(s);
        assert forall|m: int| 0 <= m < ts.len() implies (#[trigger] ts[m]).0 <= max by {
            assert((targets(steps[i])[m].0 as int) < steps.len());
        }
        lemma_none_dangling(ts, max, 0);
        lemma_linked_fault_free(steps, i + 1);
    }
}

/// A body that compiles gives a node that closes: what the compiler pushes
/// only ever points at steps of the node, and no line, command or choice at
/// itself, so closing the node finds nothing wrong. Compiling a node fails
/// only where compiling its body does.
pub proof fn lemma_compiled_body_closes(body: Seq<StmtView>)
    ensures
        c_node(body) matches Some(x) ==> build_fault(x.0, x.1) is None,
{
    let start = seq![StepView::End];
    assert(linked(start)) by {
        assert forall|i: int, k: int| 0 <= i < start.len() && 0 <= k < targets(start[i]).len() implies ((
        #[trigger] targets(start[i])[k]).0 as int) < start.len() by {
            assert(targets(start[i]) =~= Seq::<StepId>::empty());
        }
    }
    lemma_block_linked(start, body, StepId(0), None);
    match c_node(body) {
        Some(x) => {
            lemma_block_extends(start, body, StepId(0), None);
            lemma_linked_fault_free(x.0, 0);
        },
        None => {},
    }
}

} // verus!
