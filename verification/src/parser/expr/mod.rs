//! Expressions: the tokens they are made of, how they are read, and the
//! types their operators accept.

use vstd::prelude::*;

use crate::parser::diagnostic::{plain, reported, DiagnosticKind, Diagnostics, Label, Report};
use crate::parser::{Span, Spanned};
use crate::text;

pub mod lexer;
pub mod pratt;

verus! {

broadcast use vstd::seq_lib::group_seq_properties;

/// A literal value of the language.
///
/// A float keeps the text it was written with: reading it as a number is
/// left to whoever runs the dialogue.
#[derive(Debug, Clone, PartialEq)]
pub enum Value {
    Bool(bool),
    String(String),
    Float(String),
    Int(i64),
}

/// The text between the quotes of a string, its escapes read: a `\\`
/// stands for the character after it; `None` for a bare `"`, or a `\\`
/// with nothing after it.
pub open spec fn unescaped(s: Seq<char>) -> Option<Seq<char>>
    decreases s.len(),
{
    if s.len() == 0 {
        Some(Seq::empty())
    } else if s[0] == '\\' {
        if s.len() < 2 {
            None
        } else {
            match unescaped(s.skip(2)) {
                Some(r) => Some(seq![s[1]] + r),
                None => None,
            }
        }
    } else if s[0] == '"' {
        None
    } else {
        match unescaped(s.skip(1)) {
            Some(r) => Some(seq![s[0]] + r),
            None => None,
        }
    }
}

impl Value {
    /// The text between the quotes of a string, its escapes read.
    pub fn unescape(inner: &str) -> (r: Option<String>)
        ensures
            match r {
                Some(t) => unescaped(inner@) == Some(t@),
                None => unescaped(inner@) is None,
            },
    {
        let cs = text::to_chars(inner);
        let ghost s = inner@;
        let mut out = String::new();
        let mut i: usize = 0;
        proof {
            assert(cs@.skip(0) =~= s);
        }
        while i < cs.len()
            invariant
                s == inner@,
                cs@ == s,
                i <= cs@.len(),
                unescaped(s) == match unescaped(cs@.skip(i as int)) {
                    Some(r) => Some(out@ + r),
                    None => None::<Seq<char>>,
                },
            decreases cs@.len() - i,
        {
            let ghost rest = cs@.skip(i as int);
            let c = cs[i];
            if c == '\\' {
                if i + 1 >= cs.len() {
                    proof {
                        assert(rest.len() == 1 && rest[0] == '\\');
                    }
                    return None;
                }
                proof {
                    assert(rest.skip(2) =~= cs@.skip(i + 2));
                    assert(rest[1] == cs@[i + 1]);
                    match unescaped(rest.skip(2)) {
                        Some(r) => {
                            assert(out@ + (seq![rest[1]] + r) =~= out@.push(rest[1]) + r);
                        },
                        None => {},
                    }
                }
                text::push_char(&mut out, cs[i + 1]);
                i = i + 2;
            } else if c == '"' {
                proof {
                    assert(rest.len() > 0 && rest[0] == '"');
                }
                return None;
            } else {
                proof {
                    assert(rest.skip(1) =~= cs@.skip(i + 1));
                    match unescaped(rest.skip(1)) {
                        Some(r) => {
                            assert(out@ + (seq![c] + r) =~= out@.push(c) + r);
                        },
                        None => {},
                    }
                }
                text::push_char(&mut out, c);
                i = i + 1;
            }
        }
        proof {
            assert(cs@.skip(i as int) =~= Seq::<char>::empty());
            assert(out@ + Seq::<char>::empty() =~= out@);
        }
        Some(out)
    }
}

/// Type of the value an expression evaluates to.
#[derive(Debug, Clone, Copy, PartialEq, Eq, Structural)]
pub enum ValueType {
    Bool,
    Float,
    Int,
    String,
    Dict,
    /// Used for [Expr::Var] and [Expr::Function] which are unknown at compilation
    Unknown,
}

/// Whether `t` is a number.
pub open spec fn is_number_type(t: ValueType) -> bool {
    t == ValueType::Float || t == ValueType::Int
}

/// Type of a literal value.
pub open spec fn type_of_value(v: Value) -> ValueType {
    match v {
        Value::Bool(_) => ValueType::Bool,
        Value::String(_) => ValueType::String,
        Value::Float(_) => ValueType::Float,
        Value::Int(_) => ValueType::Int,
    }
}

/// Whether two types can be compared: the same type, two numbers, or
/// anything at all as soon as one side is only known at run time.
pub open spec fn compatible(a: ValueType, b: ValueType) -> bool {
    a == ValueType::Unknown || b == ValueType::Unknown || a == b || (is_number_type(a)
        && is_number_type(b))
}

/// Name of a type, as the diagnostics write it.
pub open spec fn vtype_name(t: ValueType) -> Seq<char> {
    match t {
        ValueType::Bool => "bool"@,
        ValueType::Float => "float"@,
        ValueType::Int => "int"@,
        ValueType::String => "string"@,
        ValueType::Dict => "dict"@,
        ValueType::Unknown => "unknown"@,
    }
}

impl ValueType {
    pub fn is_number(&self) -> (r: bool)
        ensures
            r == is_number_type(*self),
    {
        match self {
            ValueType::Float | ValueType::Int => true,
            _ => false,
        }
    }

    /// Type of a literal value.
    pub fn type_of(value: &Value) -> (r: Self)
        ensures
            r == type_of_value(*value),
    {
        match value {
            Value::Bool(_) => ValueType::Bool,
            Value::String(_) => ValueType::String,
            Value::Float(_) => ValueType::Float,
            Value::Int(_) => ValueType::Int,
        }
    }

    /// Whether two values can be compared: the same type, two numbers, or
    /// anything at all as soon as one side is only known at run time.
    pub fn compatible_with(self, other: &Self) -> (r: bool)
        ensures
            r == compatible(self, *other),
    {
        self == ValueType::Unknown || *other == ValueType::Unknown || self == *other || (
        self.is_number() && other.is_number())
    }

    /// Name of the type: `bool`, `float`, `int`, `string`, `dict` or `unknown`.
    pub fn as_str(&self) -> (r: &'static str)
        ensures
            r@ == vtype_name(*self),
    {
        match self {
            ValueType::Bool => "bool",
            ValueType::Float => "float",
            ValueType::Int => "int",
            ValueType::String => "string",
            ValueType::Dict => "dict",
            ValueType::Unknown => "unknown",
        }
    }

    /// Name of the type, owned.
    pub fn to_string(&self) -> (r: String)
        ensures
            r@ == vtype_name(*self),
    {
        text::owned(self.as_str())
    }
}

/// An operator with one operand.
#[derive(Debug, Clone, Copy, PartialEq, Eq, Structural)]
pub enum UnaryOp {
    Not,
    Neg,
}

/// Type `op` gives back for an operand of type `t`, if it accepts it.
pub open spec fn unary_type(op: UnaryOp, t: ValueType) -> Option<ValueType> {
    match op {
        UnaryOp::Not => if t == ValueType::Bool || t == ValueType::Unknown {
            Some(ValueType::Bool)
        } else {
            None
        },
        UnaryOp::Neg => if t == ValueType::Unknown {
            Some(ValueType::Unknown)
        } else if is_number_type(t) {
            Some(t)
        } else {
            None
        },
    }
}

/// Symbol of a unary operator.
pub open spec fn unary_text(op: UnaryOp) -> Seq<char> {
    match op {
        UnaryOp::Not => "not"@,
        UnaryOp::Neg => "-"@,
    }
}

/// What a unary operator accepts, as the diagnostics say it.
pub open spec fn unary_expects(op: UnaryOp) -> Seq<char> {
    match op {
        UnaryOp::Not => "bool"@,
        UnaryOp::Neg => "int or float"@,
    }
}

impl UnaryOp {
    /// Type this operator gives back for that operand, or `None` if it does
    /// not accept it.
    pub fn type_of(&self, rhs: &ValueType) -> (r: Option<ValueType>)
        ensures
            r == unary_type(*self, *rhs),
    {
        match self {
            UnaryOp::Not => {
                if *rhs == ValueType::Bool || *rhs == ValueType::Unknown {
                    Some(ValueType::Bool)
                } else {
                    None
                }
            },
            UnaryOp::Neg => {
                if *rhs == ValueType::Unknown {
                    Some(ValueType::Unknown)
                } else if rhs.is_number() {
                    Some(*rhs)
                } else {
                    None
                }
            },
        }
    }

    /// What this operator does accept, for the diagnostic.
    pub fn expects(&self) -> (r: &'static str)
        ensures
            r@ == unary_expects(*self),
    {
        match self {
            UnaryOp::Not => "bool",
            UnaryOp::Neg => "int or float",
        }
    }

    /// Symbol of the operator: `not` or `-`.
    pub fn to_string(&self) -> (r: String)
        ensures
            r@ == unary_text(*self),
    {
        match self {
            UnaryOp::Not => text::owned("not"),
            UnaryOp::Neg => text::owned("-"),
        }
    }
}

/// An operator with two operands.
#[derive(Debug, Clone, Copy, PartialEq, Eq, Structural)]
pub enum BinaryOp {
    Or,
    And,
    Eq,
    Ne,
    Lt,
    Le,
    Gt,
    Ge,
    Add,
    Sub,
    Mul,
    Div,
}

/// Whether `op` always gives a bool.
pub open spec fn gives_bool(op: BinaryOp) -> bool {
    match op {
        BinaryOp::Add | BinaryOp::Sub | BinaryOp::Mul | BinaryOp::Div => false,
        _ => true,
    }
}

/// Type `op` gives back for operands of types `l` and `r`, if it accepts
/// them. An operator that always gives a bool keeps saying so when an
/// operand is only known at run time; arithmetic is for numbers only, an int
/// when both are ints, and a division is always a float.
pub open spec fn binary_type(op: BinaryOp, l: ValueType, r: ValueType) -> Option<ValueType> {
    if gives_bool(op) {
        let known = match op {
            BinaryOp::Or | BinaryOp::And => compatible(l, ValueType::Bool) && compatible(
                r,
                ValueType::Bool,
            ),
            BinaryOp::Eq | BinaryOp::Ne => compatible(l, r),
            _ => compatible(l, ValueType::Int) && compatible(r, ValueType::Int),
        };
        if known {
            Some(ValueType::Bool)
        } else {
            None
        }
    } else if l == ValueType::Unknown || r == ValueType::Unknown {
        Some(ValueType::Unknown)
    } else if is_number_type(l) && is_number_type(r) {
        if op == BinaryOp::Div {
            Some(ValueType::Float)
        } else if l == ValueType::Int && r == ValueType::Int {
            Some(ValueType::Int)
        } else {
            Some(ValueType::Float)
        }
    } else {
        None
    }
}

/// Which operand stands on which side never changes the type an operator
/// gives, nor whether it accepts its operands.
pub proof fn lemma_binary_type_symmetric(op: BinaryOp, l: ValueType, r: ValueType)
    ensures
        binary_type(op, l, r) == binary_type(op, r, l),
{
}

/// Arithmetic on two numbers gives an int when both are ints and a float as
/// soon as one is a float; a division of two numbers always gives a float,
/// and a comparison of two numbers a bool.
pub proof fn lemma_arithmetic_result(op: BinaryOp, l: ValueType, r: ValueType)
    requires
        is_number_type(l),
        is_number_type(r),
    ensures
        (op == BinaryOp::Add || op == BinaryOp::Sub || op == BinaryOp::Mul) ==> (binary_type(op, l, r)
            == Some(ValueType::Int) <==> (l == ValueType::Int && r == ValueType::Int)),
        (op == BinaryOp::Add || op == BinaryOp::Sub || op == BinaryOp::Mul) && (l == ValueType::Float
            || r == ValueType::Float) ==> binary_type(op, l, r) == Some(ValueType::Float),
        op == BinaryOp::Div ==> binary_type(op, l, r) == Some(ValueType::Float),
        !(op == BinaryOp::Add || op == BinaryOp::Sub || op == BinaryOp::Mul || op == BinaryOp::Div
            || op == BinaryOp::And || op == BinaryOp::Or) ==> binary_type(op, l, r) == Some(
            ValueType::Bool,
        ),
{
}

/// Symbol of a binary operator.
pub open spec fn binary_text(op: BinaryOp) -> Seq<char> {
    match op {
        BinaryOp::Or => "or"@,
        BinaryOp::And => "and"@,
        BinaryOp::Eq => "=="@,
        BinaryOp::Ne => "!="@,
        BinaryOp::Lt => "<"@,
        BinaryOp::Le => "<="@,
        BinaryOp::Gt => ">"@,
        BinaryOp::Ge => ">="@,
        BinaryOp::Add => "+"@,
        BinaryOp::Sub => "-"@,
        BinaryOp::Mul => "*"@,
        BinaryOp::Div => "/"@,
    }
}

impl BinaryOp {
    /// Type this operator gives back for those two operands, or `None` if it
    /// does not accept them.
    pub fn type_of(&self, lhs: &ValueType, rhs: &ValueType) -> (r: Option<ValueType>)
        ensures
            r == binary_type(*self, *lhs, *rhs),
    {
        match self {
            BinaryOp::Or | BinaryOp::And | BinaryOp::Eq | BinaryOp::Ne | BinaryOp::Lt
            | BinaryOp::Le | BinaryOp::Gt | BinaryOp::Ge => {
                let known = match self {
                    BinaryOp::Or | BinaryOp::And => lhs.compatible_with(&ValueType::Bool)
                        && rhs.compatible_with(&ValueType::Bool),
                    BinaryOp::Eq | BinaryOp::Ne => lhs.compatible_with(rhs),
                    _ => lhs.compatible_with(&ValueType::Int) && rhs.compatible_with(
                        &ValueType::Int,
                    ),
                };
                if known {
                    Some(ValueType::Bool)
                } else {
                    None
                }
            },
            _ => {
                if *lhs == ValueType::Unknown || *rhs == ValueType::Unknown {
                    return Some(ValueType::Unknown);
                }
                if lhs.is_number() && rhs.is_number() {
                    if *self == BinaryOp::Div {
                        Some(ValueType::Float)
                    } else if *lhs == ValueType::Int && *rhs == ValueType::Int {
                        Some(ValueType::Int)
                    } else {
                        Some(ValueType::Float)
                    }
                } else {
                    None
                }
            },
        }
    }

    /// Symbol of the operator.
    pub fn to_string(&self) -> (r: String)
        ensures
            r@ == binary_text(*self),
    {
        let s = match self {
            BinaryOp::Or => "or",
            BinaryOp::And => "and",
            BinaryOp::Eq => "==",
            BinaryOp::Ne => "!=",
            BinaryOp::Lt => "<",
            BinaryOp::Le => "<=",
            BinaryOp::Gt => ">",
            BinaryOp::Ge => ">=",
            BinaryOp::Add => "+",
            BinaryOp::Sub => "-",
            BinaryOp::Mul => "*",
            BinaryOp::Div => "/",
        };
        text::owned(s)
    }
}

/// An expression, as read from the source.
#[derive(Debug, PartialEq)]
pub enum Expr {
    Var { name: String },
    Function { name: Spanned<String>, args: Vec<Spanned<Expr>> },
    Attr { base: Box<Spanned<Expr>>, attrs: Vec<Spanned<String>> },
    Litteral { value: Value },
    /// To represent `{name: Alan, hp: $base + 2}` we need HashMap of [`Expr`]
    LitteralDict(Vec<(Spanned<String>, Spanned<Expr>)>),
    Unary { op: Spanned<UnaryOp>, rhs: Box<Spanned<Expr>> },
    Binary { op: Spanned<BinaryOp>, lhs: Box<Spanned<Expr>>, rhs: Box<Spanned<Expr>> },
    Error,
}

/// What a literal value holds.
pub enum ValueView {
    Bool(bool),
    String(Seq<char>),
    Float(Seq<char>),
    Int(int),
}

/// What a literal value holds, its texts seen as characters.
pub open spec fn value_view(v: Value) -> ValueView {
    match v {
        Value::Bool(b) => ValueView::Bool(b),
        Value::String(s) => ValueView::String(s@),
        Value::Float(s) => ValueView::Float(s@),
        Value::Int(n) => ValueView::Int(n as int),
    }
}

/// An expression and where it stands, as the contracts see a
/// `Spanned<Expr>`.
pub struct SExpr {
    pub expr: ExprView,
    pub span: Span,
}

/// What an [`Expr`] holds, its texts seen as characters.
pub enum ExprView {
    Var(Seq<char>),
    Function(Seq<char>, Span, Seq<SExpr>),
    Attr(Box<SExpr>, Seq<(Seq<char>, Span)>),
    Lit(ValueView),
    Dict(Seq<((Seq<char>, Span), SExpr)>),
    Unary(UnaryOp, Span, Box<SExpr>),
    Binary(BinaryOp, Span, Box<SExpr>, Box<SExpr>),
    Error,
}

/// Names and where they stand.
pub open spec fn names_view(v: Seq<Spanned<String>>) -> Seq<(Seq<char>, Span)> {
    v.map_values(|n: Spanned<String>| (n.value@, n.span))
}

/// What an expression holds.
pub open spec fn expr_view(e: Expr) -> ExprView
    decreases e,
{
    match e {
        Expr::Var { name } => ExprView::Var(name@),
        Expr::Function { name, args } => ExprView::Function(name.value@, name.span, args_view(args@)),
        Expr::Attr { base, attrs } => ExprView::Attr(
            Box::new(SExpr { expr: expr_view(base.value), span: base.span }),
            names_view(attrs@),
        ),
        Expr::Litteral { value } => ExprView::Lit(value_view(value)),
        Expr::LitteralDict(attrs) => ExprView::Dict(entries_view(attrs@)),
        Expr::Unary { op, rhs } => ExprView::Unary(
            op.value,
            op.span,
            Box::new(SExpr { expr: expr_view(rhs.value), span: rhs.span }),
        ),
        Expr::Binary { op, lhs, rhs } => ExprView::Binary(
            op.value,
            op.span,
            Box::new(SExpr { expr: expr_view(lhs.value), span: lhs.span }),
            Box::new(SExpr { expr: expr_view(rhs.value), span: rhs.span }),
        ),
        Expr::Error => ExprView::Error,
    }
}

/// What every argument holds.
pub open spec fn args_view(args: Seq<Spanned<Expr>>) -> Seq<SExpr>
    decreases args,
{
    if args.len() == 0 {
        Seq::empty()
    } else {
        args_view(args.subrange(0, args.len() - 1)).push(
            SExpr { expr: expr_view(args[args.len() - 1].value), span: args[args.len() - 1].span },
        )
    }
}

/// What every entry holds.
pub open spec fn entries_view(attrs: Seq<(Spanned<String>, Spanned<Expr>)>) -> Seq<
    ((Seq<char>, Span), SExpr),
>
    decreases attrs,
{
    if attrs.len() == 0 {
        Seq::empty()
    } else {
        let last = attrs[attrs.len() - 1];
        entries_view(attrs.subrange(0, attrs.len() - 1)).push(
            ((last.0.value@, last.0.span), SExpr { expr: expr_view(last.1.value), span: last.1.span }),
        )
    }
}

/// What a spanned expression holds.
pub open spec fn sview(e: Spanned<Expr>) -> SExpr {
    SExpr { expr: expr_view(e.value), span: e.span }
}

/// Type `e` evaluates to, or `None` if an operator is applied to something
/// it does not accept. [`ValueType::Unknown`] is an answer, not a failure: it
/// says the type depends on what the host puts in a variable or gives back
/// from a call.
pub open spec fn value_type_spec(e: ExprView) -> Option<ValueType>
    decreases e,
{
    match e {
        ExprView::Var(..) | ExprView::Function(..) | ExprView::Attr(..) | ExprView::Error => Some(
            ValueType::Unknown,
        ),
        ExprView::Lit(v) => Some(view_type(v)),
        ExprView::Dict(_) => Some(ValueType::Dict),
        ExprView::Unary(op, _, rhs) => match value_type_spec(rhs.expr) {
            Some(t) => unary_type(op, t),
            None => None,
        },
        ExprView::Binary(op, _, lhs, rhs) => match (value_type_spec(lhs.expr), value_type_spec(rhs.expr)) {
            (Some(l), Some(r)) => binary_type(op, l, r),
            _ => None,
        },
    }
}

/// Type of a literal, seen through its view.
pub open spec fn view_type(v: ValueView) -> ValueType {
    match v {
        ValueView::Bool(_) => ValueType::Bool,
        ValueView::String(_) => ValueType::String,
        ValueView::Float(_) => ValueType::Float,
        ValueView::Int(_) => ValueType::Int,
    }
}

/// The report of `op`, standing at `op_span`, applied to an operand of type
/// `t` at `rhs`.
pub open spec fn unary_report(op: UnaryOp, op_span: Span, rhs: Span, t: ValueType) -> Report {
    (
        crate::parser::join_spec(op_span, rhs),
        "invalid-unary-operand"@,
        "operator `"@ + unary_text(op) + "` expects "@ + unary_expects(op) + ", received `"@
            + vtype_name(t) + "`"@,
        seq![(rhs, vtype_name(t))],
    )
}

/// The report of `op` applied to operands of types `l` and `r`, at `lhs` and
/// `rhs`.
pub open spec fn binary_report(op: BinaryOp, lhs: Span, rhs: Span, l: ValueType, r: ValueType) -> Report {
    (
        crate::parser::join_spec(lhs, rhs),
        "invalid-binary-operands"@,
        "operator `"@ + binary_text(op) + "` cannot be applied to `"@ + vtype_name(l) + "` and `"@
            + vtype_name(r) + "`"@,
        seq![(lhs, vtype_name(l)), (rhs, vtype_name(r))],
    )
}

/// Whether every operator of `e` accepts its operands, and the report of
/// each one that does not, in the order they are checked: operands before
/// their operator, left before right, arguments and entries in order. An
/// operator whose operands are already at fault is not reported again.
pub open spec fn check_spec(e: ExprView) -> (bool, Seq<Report>)
    decreases e,
{
    match e {
        ExprView::Var(..) | ExprView::Lit(..) | ExprView::Error => (true, Seq::empty()),
        ExprView::Attr(base, _) => check_spec(base.expr),
        ExprView::Dict(entries) => check_entries(entries),
        ExprView::Function(_, _, args) => check_args(args),
        ExprView::Unary(op, op_span, rhs) => {
            let inner = check_spec(rhs.expr);
            if !inner.0 {
                inner
            } else {
                let t = value_type_spec(rhs.expr)->0;
                if unary_type(op, t) is Some {
                    inner
                } else {
                    (false, inner.1.push(unary_report(op, op_span, rhs.span, t)))
                }
            }
        },
        ExprView::Binary(op, _, lhs, rhs) => {
            let l = check_spec(lhs.expr);
            let r = check_spec(rhs.expr);
            if !(l.0 && r.0) {
                (false, l.1 + r.1)
            } else {
                let lt = value_type_spec(lhs.expr)->0;
                let rt = value_type_spec(rhs.expr)->0;
                if binary_type(op, lt, rt) is Some {
                    (true, l.1 + r.1)
                } else {
                    (false, (l.1 + r.1).push(binary_report(op, lhs.span, rhs.span, lt, rt)))
                }
            }
        },
    }
}

/// [`check_spec`] of every argument, in order.
pub open spec fn check_args(args: Seq<SExpr>) -> (bool, Seq<Report>)
    decreases args,
{
    if args.len() == 0 {
        (true, Seq::empty())
    } else {
        let before = check_args(args.subrange(0, args.len() - 1));
        let last = check_spec(args[args.len() - 1].expr);
        (before.0 && last.0, before.1 + last.1)
    }
}

/// [`check_spec`] of every entry, in order.
pub open spec fn check_entries(entries: Seq<((Seq<char>, Span), SExpr)>) -> (bool, Seq<Report>)
    decreases entries,
{
    if entries.len() == 0 {
        (true, Seq::empty())
    } else {
        let before = check_entries(entries.subrange(0, entries.len() - 1));
        let last = check_spec(entries[entries.len() - 1].1.expr);
        (before.0 && last.0, before.1 + last.1)
    }
}

/// An expression checks out exactly when nothing is reported, and then it
/// has a type.
pub proof fn lemma_valid_iff_silent(e: ExprView)
    ensures
        check_spec(e).0 <==> check_spec(e).1.len() == 0,
        check_spec(e).0 ==> value_type_spec(e) is Some,
    decreases e,
{
    match e {
        ExprView::Attr(base, _) => {
            lemma_valid_iff_silent(base.expr);
        },
        ExprView::Dict(entries) => {
            lemma_entries_valid_iff_silent(entries);
        },
        ExprView::Function(_, _, args) => {
            lemma_args_valid_iff_silent(args);
        },
        ExprView::Unary(_, _, rhs) => {
            lemma_valid_iff_silent(rhs.expr);
        },
        ExprView::Binary(_, _, lhs, rhs) => {
            lemma_valid_iff_silent(lhs.expr);
            lemma_valid_iff_silent(rhs.expr);
        },
        _ => {},
    }
}

/// Arguments check out exactly when nothing is reported.
pub proof fn lemma_args_valid_iff_silent(args: Seq<SExpr>)
    ensures
        check_args(args).0 <==> check_args(args).1.len() == 0,
    decreases args,
{
    if args.len() > 0 {
        lemma_args_valid_iff_silent(args.subrange(0, args.len() - 1));
        lemma_valid_iff_silent(args[args.len() - 1].expr);
    }
}

/// Entries check out exactly when nothing is reported.
pub proof fn lemma_entries_valid_iff_silent(entries: Seq<((Seq<char>, Span), SExpr)>)
    ensures
        check_entries(entries).0 <==> check_entries(entries).1.len() == 0,
    decreases entries,
{
    if entries.len() > 0 {
        lemma_entries_valid_iff_silent(entries.subrange(0, entries.len() - 1));
        lemma_valid_iff_silent(entries[entries.len() - 1].1.expr);
    }
}

/// Number of operators of `e` that reject operands holding no such operator
/// themselves: an operator applied to an operand that is already at fault is
/// not counted.
pub open spec fn fault_count(e: ExprView) -> nat
    decreases e,
{
    match e {
        ExprView::Var(..) | ExprView::Lit(..) | ExprView::Error => 0,
        ExprView::Attr(base, _) => fault_count(base.expr),
        ExprView::Dict(entries) => fault_count_entries(entries),
        ExprView::Function(_, _, args) => fault_count_args(args),
        ExprView::Unary(op, _, rhs) => fault_count(rhs.expr) + if fault_count(rhs.expr) == 0
            && unary_type(op, value_type_spec(rhs.expr)->0) is None {
            1nat
        } else {
            0nat
        },
        ExprView::Binary(op, _, lhs, rhs) => fault_count(lhs.expr) + fault_count(rhs.expr) + if
            fault_count(lhs.expr) == 0 && fault_count(rhs.expr) == 0 && binary_type(
            op,
            value_type_spec(lhs.expr)->0,
            value_type_spec(rhs.expr)->0,
        ) is None {
            1nat
        } else {
            0nat
        },
    }
}

/// [`fault_count`] summed over the arguments.
pub open spec fn fault_count_args(args: Seq<SExpr>) -> nat
    decreases args,
{
    if args.len() == 0 {
        0
    } else {
        fault_count_args(args.subrange(0, args.len() - 1)) + fault_count(args[args.len() - 1].expr)
    }
}

/// [`fault_count`] summed over the entries.
pub open spec fn fault_count_entries(entries: Seq<((Seq<char>, Span), SExpr)>) -> nat
    decreases entries,
{
    if entries.len() == 0 {
        0
    } else {
        fault_count_entries(entries.subrange(0, entries.len() - 1)) + fault_count(
            entries[entries.len() - 1].1.expr,
        )
    }
}

/// The type check reports each operator that rejects its operands exactly
/// once, and none whose operand is already at fault: it makes one report per
/// such operator, and passes exactly when there is none.
pub proof fn lemma_each_fault_reported_once(e: ExprView)
    ensures
        check_spec(e).1.len() == fault_count(e),
        check_spec(e).0 <==> fault_count(e) == 0,
    decreases e,
{
    lemma_valid_iff_silent(e);
    match e {
        ExprView::Attr(base, _) => {
            lemma_each_fault_reported_once(base.expr);
        },
        ExprView::Dict(entries) => {
            lemma_entries_faults_reported_once(entries);
        },
        ExprView::Function(_, _, args) => {
            lemma_args_faults_reported_once(args);
        },
        ExprView::Unary(_, _, rhs) => {
            lemma_each_fault_reported_once(rhs.expr);
            lemma_valid_iff_silent(rhs.expr);
        },
        ExprView::Binary(_, _, lhs, rhs) => {
            lemma_each_fault_reported_once(lhs.expr);
            lemma_each_fault_reported_once(rhs.expr);
            lemma_valid_iff_silent(lhs.expr);
            lemma_valid_iff_silent(rhs.expr);
        },
        _ => {},
    }
}

/// One report per faulty operator, over arguments.
proof fn lemma_args_faults_reported_once(args: Seq<SExpr>)
    ensures
        check_args(args).1.len() == fault_count_args(args),
        check_args(args).0 <==> fault_count_args(args) == 0,
    decreases args,
{
    if args.len() > 0 {
        lemma_args_faults_reported_once(args.subrange(0, args.len() - 1));
        lemma_each_fault_reported_once(args[args.len() - 1].expr);
    }
}

/// One report per faulty operator, over entries.
proof fn lemma_entries_faults_reported_once(entries: Seq<((Seq<char>, Span), SExpr)>)
    ensures
        check_entries(entries).1.len() == fault_count_entries(entries),
        check_entries(entries).0 <==> fault_count_entries(entries) == 0,
    decreases entries,
{
    if entries.len() > 0 {
        lemma_entries_faults_reported_once(entries.subrange(0, entries.len() - 1));
        lemma_each_fault_reported_once(entries[entries.len() - 1].1.expr);
    }
}

impl Expr {
    /// Type the expression evaluates to, or `None` if an operator is applied
    /// to something it does not accept.
    pub fn value_type(&self) -> (r: Option<ValueType>)
        ensures
            r == value_type_spec(expr_view(*self)),
        decreases self,
    {
        match self {
            Expr::Var { .. } | Expr::Function { .. } | Expr::Attr { .. } | Expr::Error => Some(
                ValueType::Unknown,
            ),
            Expr::Litteral { value } => Some(ValueType::type_of(value)),
            Expr::LitteralDict(_) => Some(ValueType::Dict),
            Expr::Unary { op, rhs } => match rhs.value.value_type() {
                Some(t) => op.value.type_of(&t),
                None => None,
            },
            Expr::Binary { op, lhs, rhs } => {
                let l = lhs.value.value_type();
                let r = rhs.value.value_type();
                match (l, r) {
                    (Some(l), Some(r)) => op.value.type_of(&l, &r),
                    _ => None,
                }
            },
        }
    }

    /// Checks every operator of the expression against the types it accepts,
    /// reporting each one that does not fit.
    pub fn is_type_valid(&self, diags: &mut Diagnostics) -> (r: bool)
        ensures
            r == check_spec(expr_view(*self)).0,
            reported(old(diags).items(), final(diags).items(), check_spec(expr_view(*self)).1),
            final(diags).index() == old(diags).index(),
            final(diags).path() == old(diags).path(),
        decreases self,
    {
        match self {
            Expr::Var { .. } | Expr::Litteral { .. } | Expr::Error => {
                proof {
                    crate::parser::diagnostic::lemma_reported_nothing(diags.items());
                }
                true
            },
            Expr::Attr { base, .. } => base.value.is_type_valid(diags),
            Expr::LitteralDict(attrs) => {
                let mut valid = true;
                let mut i: usize = 0;
                let ghost mut rep: Seq<Report> = Seq::empty();
                proof {
                    crate::parser::diagnostic::lemma_reported_nothing(diags.items());
                    assert(attrs@.subrange(0, 0) =~= Seq::<(Spanned<String>, Spanned<Expr>)>::empty());
                    assert(entries_view(attrs@.subrange(0, 0)) =~= Seq::<((Seq<char>, Span), SExpr)>::empty());
                }
                while i < attrs.len()
                    invariant
                        i <= attrs@.len(),
                        (valid, rep) == check_entries(entries_view(attrs@.subrange(0, i as int))),
                        *self == Expr::LitteralDict(*attrs),
                        reported(old(diags).items(), diags.items(), rep),
                        diags.index() == old(diags).index(),
                        diags.path() == old(diags).path(),
                    decreases attrs@.len() - i,
                {
                    let ghost before = diags.items();
                    proof {
                        assert((*self)->0 == *attrs);
                        assert(decreases_to!(*self => (*self)->0));
                        assert(decreases_to!(*attrs => attrs@));
                        assert(decreases_to!(attrs@ => attrs@[i as int]));
                        assert(decreases_to!(attrs@[i as int] => attrs@[i as int].1));
                        assert(decreases_to!(attrs@[i as int].1 => attrs@[i as int].1.value));
                        assert(decreases_to!(*self => attrs@[i as int].1.value));
                    }
                    let v = attrs[i].1.value.is_type_valid(diags);
                    proof {
                        crate::parser::diagnostic::lemma_reported_chain(
                            old(diags).items(),
                            before,
                            diags.items(),
                            rep,
                            check_spec(expr_view(attrs@[i as int].1.value)).1,
                        );
                        rep = rep + check_spec(expr_view(attrs@[i as int].1.value)).1;
                        assert(attrs@.subrange(0, i + 1).subrange(0, i as int) =~= attrs@.subrange(
                            0,
                            i as int,
                        ));
                        assert(attrs@.subrange(0, i + 1)[i as int] == attrs@[i as int]);
                        let ev = entries_view(attrs@.subrange(0, i + 1));
                        let prev = entries_view(attrs@.subrange(0, i as int));
                        assert(ev.subrange(0, ev.len() - 1) =~= prev);
                        assert(ev[ev.len() - 1].1.expr == expr_view(attrs@[i as int].1.value));
                    }
                    valid = valid && v;
                    i = i + 1;
                }
                proof {
                    assert(attrs@.subrange(0, i as int) =~= attrs@);
                }
                valid
            },
            Expr::Function { name, args } => {
                // Every argument is checked, and not just up to the first
                // faulty one, so a call is reported in a single pass.
                let mut valid = true;
                let mut i: usize = 0;
                let ghost mut rep: Seq<Report> = Seq::empty();
                proof {
                    crate::parser::diagnostic::lemma_reported_nothing(diags.items());
                    assert(args@.subrange(0, 0) =~= Seq::<Spanned<Expr>>::empty());
                    assert(args_view(args@.subrange(0, 0)) =~= Seq::<SExpr>::empty());
                }
                while i < args.len()
                    invariant
                        i <= args@.len(),
                        (valid, rep) == check_args(args_view(args@.subrange(0, i as int))),
                        *self == (Expr::Function { name: *name, args: *args }),
                        reported(old(diags).items(), diags.items(), rep),
                        diags.index() == old(diags).index(),
                        diags.path() == old(diags).path(),
                    decreases args@.len() - i,
                {
                    let ghost before = diags.items();
                    proof {
                        assert((*self)->args == *args);
                        assert(decreases_to!(*self => (*self)->args));
                        assert(decreases_to!(*args => args@));
                        assert(decreases_to!(args@ => args@[i as int]));
                        assert(decreases_to!(args@[i as int] => args@[i as int].value));
                        assert(decreases_to!(*self => args@[i as int].value));
                    }
                    let v = args[i].value.is_type_valid(diags);
                    proof {
                        crate::parser::diagnostic::lemma_reported_chain(
                            old(diags).items(),
                            before,
                            diags.items(),
                            rep,
                            check_spec(expr_view(args@[i as int].value)).1,
                        );
                        rep = rep + check_spec(expr_view(args@[i as int].value)).1;
                        assert(args@.subrange(0, i + 1).subrange(0, i as int) =~= args@.subrange(
                            0,
                            i as int,
                        ));
                        assert(args@.subrange(0, i + 1)[i as int] == args@[i as int]);
                        let av = args_view(args@.subrange(0, i + 1));
                        let prev = args_view(args@.subrange(0, i as int));
                        assert(av == prev.push(sview(args@[i as int])));
                        assert(av.subrange(0, av.len() - 1) =~= prev);
                        assert(av[av.len() - 1].expr == expr_view(args@[i as int].value));
                    }
                    valid = valid && v;
                    i = i + 1;
                }
                proof {
                    assert(args@.subrange(0, i as int) =~= args@);
                }
                valid
            },
            Expr::Unary { op, rhs } => {
                if !rhs.value.is_type_valid(diags) {
                    return false;
                }
                proof {
                    lemma_valid_iff_silent(expr_view(rhs.value));
                }
                let rhs_type = match rhs.value.value_type() {
                    Some(t) => t,
                    None => {
                        return false;
                    },
                };
                if op.value.type_of(&rhs_type).is_some() {
                    return true;
                }
                let ghost before = diags.items();
                let kind = DiagnosticKind::InvalidUnaryOperand {
                    op: op.value.to_string(),
                    expected: text::owned(op.value.expects()),
                    received: rhs_type.to_string(),
                };
                let labels = vec![Label { span: rhs.span, message: rhs_type.to_string() }];
                diags.report_labeled(op.span.join(rhs.span), kind, labels);
                proof {
                    assert(label_views_of(labels@) =~= seq![(rhs.span, vtype_name(rhs_type))]);
                    crate::parser::diagnostic::lemma_reported_chain(
                        old(diags).items(),
                        before,
                        diags.items(),
                        check_spec(expr_view(rhs.value)).1,
                        seq![unary_report(op.value, op.span, rhs.span, rhs_type)],
                    );
                }
                false
            },
            Expr::Binary { op, lhs, rhs } => {
                let ghost start = diags.items();
                let mut valid = lhs.value.is_type_valid(diags);
                let ghost mid = diags.items();
                let v = rhs.value.is_type_valid(diags);
                proof {
                    crate::parser::diagnostic::lemma_reported_chain(
                        start,
                        mid,
                        diags.items(),
                        check_spec(expr_view(lhs.value)).1,
                        check_spec(expr_view(rhs.value)).1,
                    );
                }
                valid = valid && v;
                if !valid {
                    return false;
                }
                proof {
                    lemma_valid_iff_silent(expr_view(lhs.value));
                    lemma_valid_iff_silent(expr_view(rhs.value));
                }
                let (lhs_type, rhs_type) = match (lhs.value.value_type(), rhs.value.value_type()) {
                    (Some(l), Some(r)) => (l, r),
                    _ => {
                        return false;
                    },
                };
                if op.value.type_of(&lhs_type, &rhs_type).is_some() {
                    return true;
                }
                let ghost before = diags.items();
                let kind = DiagnosticKind::InvalidBinaryOperands {
                    op: op.value.to_string(),
                    lhs: lhs_type.to_string(),
                    rhs: rhs_type.to_string(),
                };
                let labels = vec![
                    Label { span: lhs.span, message: lhs_type.to_string() },
                    Label { span: rhs.span, message: rhs_type.to_string() },
                ];
                diags.report_labeled(lhs.span.join(rhs.span), kind, labels);
                proof {
                    assert(label_views_of(labels@) =~= seq![
                        (lhs.span, vtype_name(lhs_type)),
                        (rhs.span, vtype_name(rhs_type)),
                    ]);
                    crate::parser::diagnostic::lemma_reported_chain(
                        start,
                        before,
                        diags.items(),
                        check_spec(expr_view(lhs.value)).1 + check_spec(expr_view(rhs.value)).1,
                        seq![binary_report(op.value, lhs.span, rhs.span, lhs_type, rhs_type)],
                    );
                }
                false
            },
        }
    }
}

/// Where and what the labels say.
pub open spec fn label_views_of(ls: Seq<Label>) -> Seq<(Span, Seq<char>)> {
    crate::parser::diagnostic::label_views(ls)
}

} // verus!
