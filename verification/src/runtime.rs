//! The names, ids and errors a running dialogue deals in, and the answer a
//! suspended dialogue expects.
//!
//! The values a dialogue computes with hold floats, so their evaluation is
//! not here: what is here is what the rest of the library decides about a
//! run without looking inside a value.

use vstd::prelude::*;

use crate::parser::expr::lexer::{debug_quoted, debug_string};
use crate::parser::Spanned;
use crate::text;

verus! {

/// Type of a value at run time.
#[derive(Debug, Clone, Copy, PartialEq, Eq, Structural)]
pub enum ValueType {
    Bool,
    Int,
    Float,
    String,
    Dict,
}

/// How a type is named to the writer.
pub open spec fn value_type_name(t: ValueType) -> Seq<char> {
    match t {
        ValueType::Bool => "bool"@,
        ValueType::Int => "int"@,
        ValueType::Float => "float"@,
        ValueType::String => "string"@,
        ValueType::Dict => "dict"@,
    }
}

impl ValueType {
    /// Whether values of this type take part in arithmetic and comparisons.
    pub fn is_number(&self) -> (r: bool)
        ensures
            r == (*self == ValueType::Int || *self == ValueType::Float),
    {
        match self {
            ValueType::Int | ValueType::Float => true,
            _ => false,
        }
    }

    /// How the type is named to the writer.
    pub fn to_string(&self) -> (r: String)
        ensures
            r@ == value_type_name(*self),
    {
        match self {
            ValueType::Bool => text::owned("bool"),
            ValueType::Int => text::owned("int"),
            ValueType::Float => text::owned("float"),
            ValueType::String => text::owned("string"),
            ValueType::Dict => text::owned("dict"),
        }
    }
}

/// Name of a node, as written after `:=`. Names are compared verbatim, so
/// `start` and `Start` are two nodes.
#[derive(PartialEq, Eq, Hash, Clone, Debug)]
pub struct NodeName(pub String);

impl NodeName {
    /// The name `name`.
    pub fn new(name: &str) -> (r: Self)
        ensures
            r.0@ == name@,
    {
        NodeName(text::owned(name))
    }

    /// The name a node is declared under, without the span the parser
    /// attached to it.
    pub fn from_spanned(value: Spanned<String>) -> (r: Self)
        ensures
            r.0@ == value.value@,
    {
        NodeName(value.value)
    }

    /// The name, as written.
    pub fn to_string(&self) -> (r: String)
        ensures
            r@ == self.0@,
    {
        text::owned(self.0.as_str())
    }
}

/// Id of a step of one node: an index into its steps.
#[derive(Clone, Copy, PartialEq, Eq, Debug, Default, Structural)]
pub struct StepId(pub u32);

impl StepId {
    /// The raw index, for bound checks and error messages.
    pub fn id(&self) -> (r: u32)
        ensures
            r == self.0,
    {
        self.0
    }
}

/// The answer the host gives a dialogue it runs.
#[derive(Debug, Clone, Copy, PartialEq, Eq, Structural)]
pub enum ResumeEvent {
    /// Advance to the next step.
    Advance,
    /// Take the choice at this index among those offered.
    Select(usize),
}

/// How many arguments a builtin takes.
#[derive(Debug, Clone, Copy, PartialEq, Eq, Structural)]
pub enum Arity {
    Exact(usize),
    Range(usize, usize),
    AtLeast(usize),
}

/// Whether `arity` takes `got` arguments.
pub open spec fn arity_accepts(arity: Arity, got: int) -> bool {
    match arity {
        Arity::Exact(n) => got == n,
        Arity::Range(low, high) => low <= got <= high,
        Arity::AtLeast(n) => got >= n,
    }
}

/// How an arity reads.
pub open spec fn arity_text(arity: Arity) -> Seq<char> {
    match arity {
        Arity::Exact(n) => if n == 1 {
            "1 argument"@
        } else {
            text::decimal(n as nat) + " arguments"@
        },
        Arity::Range(low, high) => text::decimal(low as nat) + " to "@ + text::decimal(high as nat) + " arguments"@,
        Arity::AtLeast(n) => "at least "@ + text::decimal(n as nat) + " arguments"@,
    }
}

/// `a` followed by `b`.
fn concat(a: &str, b: &str) -> (r: String)
    ensures
        r@ == a@ + b@,
{
    let mut out = text::owned(a);
    text::push_str(&mut out, b);
    out
}

/// `a`, `b` and `c`, one after the other.
fn concat3(a: &str, b: &str, c: &str) -> (r: String)
    ensures
        r@ == a@ + b@ + c@,
{
    let mut out = text::owned(a);
    text::push_str(&mut out, b);
    text::push_str(&mut out, c);
    out
}

impl Arity {
    /// Whether the builtin takes `got` arguments.
    pub fn accepts(&self, got: usize) -> (r: bool)
        ensures
            r == arity_accepts(*self, got as int),
    {
        match *self {
            Arity::Exact(n) => got == n,
            Arity::Range(low, high) => low <= got && got <= high,
            Arity::AtLeast(n) => got >= n,
        }
    }

    /// How the arity reads: `1 argument`, `2 to 3 arguments`, ...
    pub fn to_string(&self) -> (r: String)
        ensures
            r@ == arity_text(*self),
    {
        match *self {
            Arity::Exact(n) => if n == 1 {
                text::owned("1 argument")
            } else {
                concat(text::usize_to_string(n).as_str(), " arguments")
            },
            Arity::Range(low, high) => {
                let mut out = text::usize_to_string(low);
                text::push_str(&mut out, " to ");
                text::push_str(&mut out, text::usize_to_string(high).as_str());
                text::push_str(&mut out, " arguments");
                out
            },
            Arity::AtLeast(n) => concat3("at least ", text::usize_to_string(n).as_str(), " arguments"),
        }
    }
}

/// An error in the call of a builtin.
#[derive(Debug, Clone, PartialEq)]
pub enum BuiltinError {
    Arity { expected: Arity, got: usize },
    Type {
        index: usize,
        /// The type as the dialogue names it, `"a number"` covering both.
        expected: &'static str,
        got: ValueType,
    },
    Mixed { index: usize },
    Overflow,
}

/// What a builtin error says.
pub open spec fn builtin_error_text(e: BuiltinError) -> Seq<char> {
    match e {
        BuiltinError::Arity { expected, got } => "expected "@ + arity_text(expected) + ", got "@ + text::decimal(
            got as nat,
        ),
        BuiltinError::Type { index, expected, got } => "argument "@ + text::decimal(index as nat) + " expected "@
            + expected@ + ", got "@ + value_type_name(got),
        BuiltinError::Mixed { index } => "argument "@ + text::decimal(index as nat)
            + " and argument 0 are not of the same type"@,
        BuiltinError::Overflow => "integer overflow"@,
    }
}

impl BuiltinError {
    /// What the error says.
    pub fn to_string(&self) -> (r: String)
        ensures
            r@ == builtin_error_text(*self),
    {
        match self {
            BuiltinError::Arity { expected, got } => {
                let mut out = concat("expected ", expected.to_string().as_str());
                text::push_str(&mut out, ", got ");
                text::push_str(&mut out, text::usize_to_string(*got).as_str());
                out
            },
            BuiltinError::Type { index, expected, got } => {
                let mut out = concat("argument ", text::usize_to_string(*index).as_str());
                text::push_str(&mut out, " expected ");
                text::push_str(&mut out, expected);
                text::push_str(&mut out, ", got ");
                text::push_str(&mut out, got.to_string().as_str());
                out
            },
            BuiltinError::Mixed { index } => concat3(
                "argument ",
                text::usize_to_string(*index).as_str(),
                " and argument 0 are not of the same type",
            ),
            BuiltinError::Overflow => text::owned("integer overflow"),
        }
    }
}

/// Why the host could not answer a call.
#[derive(Debug)]
pub enum HostError {
    UnknownFunction(String),
    Failed { name: String, message: String },
    BuiltinFailed { name: String, message: String },
}

/// What a host error says.
pub open spec fn host_error_text(e: HostError) -> Seq<char> {
    match e {
        HostError::UnknownFunction(name) => "unknown function `"@ + name@ + "`"@,
        HostError::Failed { name, message } => "`"@ + name@ + "`: `"@ + message@ + "`"@,
        HostError::BuiltinFailed { name, message } => "builtin `"@ + name@ + "`: `"@ + message@ + "`"@,
    }
}

impl HostError {
    /// What the error says.
    pub fn to_string(&self) -> (r: String)
        ensures
            r@ == host_error_text(*self),
    {
        match self {
            HostError::UnknownFunction(name) => concat3("unknown function `", name.as_str(), "`"),
            HostError::Failed { name, message } => {
                let mut out = concat3("`", name.as_str(), "`: `");
                text::push_str(&mut out, message.as_str());
                text::push_str(&mut out, "`");
                out
            },
            HostError::BuiltinFailed { name, message } => {
                let mut out = concat3("builtin `", name.as_str(), "`: `");
                text::push_str(&mut out, message.as_str());
                text::push_str(&mut out, "`");
                out
            },
        }
    }
}

/// The host a dialogue runs against when the game registers no function of
/// its own. Builtins are still there.
pub struct NoHost;

impl NoHost {
    /// Every call is to a function this host does not know.
    pub fn call(&mut self, name: &str) -> (r: Result<(), HostError>)
        ensures
            r matches Err(HostError::UnknownFunction(n)) && n@ == name@,
    {
        Err(HostError::UnknownFunction(text::owned(name)))
    }
}

/// Why the evaluation of an expression failed.
#[derive(Debug)]
pub enum EvalError {
    UnknownVariable(String),
    /// A call the host has no answer for.
    UnknownFunction(String),
    /// The condition of an `[if]` evaluated to something else than a `bool`.
    NotACondition(String),
    TypeMismatch { op: String, expected: String, received: String },
    DivisionByZero,
    Overflow { op: String },
    DictHasNoAttr(String),
    AttrExpectedDict { name: String, received: String },
    HostError(HostError),
}

/// What an evaluation error says.
pub open spec fn eval_error_text(e: EvalError) -> Seq<char> {
    match e {
        EvalError::UnknownVariable(n) => "Uknown variable "@ + n@,
        EvalError::UnknownFunction(n) => "Uknown function "@ + n@,
        EvalError::NotACondition(t) => "A condition must be a bool, received "@ + t@,
        EvalError::TypeMismatch { op, expected, received } => "Type mismatch for operator "@ + op@
            + ": expected "@ + expected@ + " and received "@ + received@,
        EvalError::DivisionByZero => "Division by zero"@,
        EvalError::Overflow { op } => "Integer overflow for operator "@ + op@,
        EvalError::DictHasNoAttr(a) => "Dict has no attribute "@ + a@,
        EvalError::AttrExpectedDict { name, received } => "Attribute "@ + name@ + " expected Dict and received "@
            + received@,
        EvalError::HostError(h) => "Host error: "@ + host_error_text(h),
    }
}

impl EvalError {
    /// What the error says.
    pub fn to_string(&self) -> (r: String)
        ensures
            r@ == eval_error_text(*self),
    {
        match self {
            EvalError::UnknownVariable(n) => concat("Uknown variable ", n.as_str()),
            EvalError::UnknownFunction(n) => concat("Uknown function ", n.as_str()),
            EvalError::NotACondition(t) => concat("A condition must be a bool, received ", t.as_str()),
            EvalError::TypeMismatch { op, expected, received } => {
                let mut out = concat3("Type mismatch for operator ", op.as_str(), ": expected ");
                text::push_str(&mut out, expected.as_str());
                text::push_str(&mut out, " and received ");
                text::push_str(&mut out, received.as_str());
                out
            },
            EvalError::DivisionByZero => text::owned("Division by zero"),
            EvalError::Overflow { op } => concat("Integer overflow for operator ", op.as_str()),
            EvalError::DictHasNoAttr(a) => concat("Dict has no attribute ", a.as_str()),
            EvalError::AttrExpectedDict { name, received } => {
                let mut out = concat3("Attribute ", name.as_str(), " expected Dict and received ");
                text::push_str(&mut out, received.as_str());
                out
            },
            EvalError::HostError(h) => concat("Host error: ", h.to_string().as_str()),
        }
    }
}

/// Why the virtual machine refused a call.
#[derive(Debug)]
pub enum VmError {
    /// A resume came before the dialogue was started.
    DialogueNotStarted,
    /// A start came while a dialogue is still running.
    DialogueNotFinished,
    /// A resume came after the dialogue finished.
    DialogueAlreadyFinished,
    /// No node answers to the name asked for.
    DialogueNodeNotFound(NodeName),
    /// A selection carried an index no choice has.
    ChoiceOutOfRange { index: usize, count: usize },
    /// The answer does not fit what the dialogue is suspended on.
    WrongResumeEvent,
    /// Too many steps were walked without anything to hand back to the host.
    StepLimitExceeded,
    /// An expression failed to evaluate.
    ExprEvalError(EvalError),
}

/// What a virtual machine error says.
pub open spec fn vm_error_text(e: VmError) -> Seq<char> {
    match e {
        VmError::DialogueNotStarted => "Dialogue not started"@,
        VmError::DialogueNotFinished => "Dialogue not finished"@,
        VmError::DialogueAlreadyFinished => "Dialogue already finished"@,
        VmError::DialogueNodeNotFound(n) => "DialogueNode not found with name NodeName("@ + debug_quoted(n.0@) + ")"@,
        VmError::ChoiceOutOfRange { index, count } => "Choice is out of range: "@ + text::decimal(index as nat)
            + " > "@ + text::decimal(count as nat),
        VmError::WrongResumeEvent => "Wrong ResumeEvent"@,
        VmError::StepLimitExceeded => "Step limit exceeded"@,
        VmError::ExprEvalError(ev) => "EvalError: "@ + eval_error_text(ev),
    }
}

impl VmError {
    /// What the error says.
    pub fn to_string(&self) -> (r: String)
        ensures
            r@ == vm_error_text(*self),
    {
        match self {
            VmError::DialogueNotStarted => text::owned("Dialogue not started"),
            VmError::DialogueNotFinished => text::owned("Dialogue not finished"),
            VmError::DialogueAlreadyFinished => text::owned("Dialogue already finished"),
            VmError::DialogueNodeNotFound(n) => concat3(
                "DialogueNode not found with name NodeName(",
                debug_string(n.0.as_str()).as_str(),
                ")",
            ),
            VmError::ChoiceOutOfRange { index, count } => {
                let mut out = concat3("Choice is out of range: ", text::usize_to_string(*index).as_str(), " > ");
                text::push_str(&mut out, text::usize_to_string(*count).as_str());
                out
            },
            VmError::WrongResumeEvent => text::owned("Wrong ResumeEvent"),
            VmError::StepLimitExceeded => text::owned("Step limit exceeded"),
            VmError::ExprEvalError(ev) => concat("EvalError: ", ev.to_string().as_str()),
        }
    }
}

/// What a dialogue is suspended on, and where each answer leads.
pub enum SuspendedAt {
    Line { next: StepId },
    Command { next: StepId },
    Choice { targets: Vec<StepId> },
}

impl SuspendedAt {
    /// The step to run next for this answer: after a line or a command, the
    /// step that follows it, on an advance; at a choice, the target of the
    /// choice selected. A selection past the choices is out of range, and
    /// any other answer is the wrong one.
    pub fn resolve(&self, resume: &ResumeEvent) -> (r: Result<StepId, VmError>)
        ensures
            match (*self, *resume) {
                (SuspendedAt::Line { next }, ResumeEvent::Advance) => r == Ok::<StepId, VmError>(next),
                (SuspendedAt::Command { next }, ResumeEvent::Advance) => r == Ok::<StepId, VmError>(next),
                (SuspendedAt::Choice { targets }, ResumeEvent::Select(i)) => if i < targets@.len() {
                    r == Ok::<StepId, VmError>(targets@[i as int])
                } else {
                    r matches Err(VmError::ChoiceOutOfRange { index, count }) && index == i && count == targets@.len()
                },
                _ => r matches Err(VmError::WrongResumeEvent),
            },
    {
        match (self, resume) {
            (SuspendedAt::Line { next }, ResumeEvent::Advance) => Ok(*next),
            (SuspendedAt::Command { next }, ResumeEvent::Advance) => Ok(*next),
            (SuspendedAt::Choice { targets }, ResumeEvent::Select(i)) => {
                if *i < targets.len() {
                    Ok(targets[*i])
                } else {
                    Err(VmError::ChoiceOutOfRange { index: *i, count: targets.len() })
                }
            },
            _ => Err(VmError::WrongResumeEvent),
        }
    }
}

} // verus!
