//! Problems found in a source file, and how to show them to the user.
//!
//! A [`Diagnostic`] pairs a [`DiagnosticKind`] with the [`Span`] it applies to.
//! The parser collects them into [`Diagnostics`], which owns the [`LineIndex`]
//! needed to turn those spans back into line and column numbers, and knows how
//! to render the whole batch.
//!
//! Two renderings are available, both on the individual diagnostic and on the
//! collection: `render_short` emits one `path:line:col` line per diagnostic,
//! meant for editors and terse output, while `render` draws the offending
//! source lines in the `rustc` style, meant for humans reading a terminal.
//!
//! ANSI colors are opt-in: a rendering is colored only when asked for, so
//! snapshots and log files stay free of escape codes.

use vstd::prelude::*;

use crate::parser::styled::escape_free;
use crate::parser::{line_of_spec, line_text_spec, LineIndex, Span};
use crate::text;

verus! {

broadcast use vstd::seq_lib::group_seq_properties;

/// How bad a diagnostic is.
#[derive(Debug, Clone, Copy, PartialEq, Eq, PartialOrd, Ord, Structural)]
pub enum Severity {
    /// Something suspicious that does not prevent the source from being parsed.
    Warning,
    /// Something that must be fixed before the source can be used.
    Error,
}

/// Name of a severity, as the renderings print it.
pub open spec fn severity_name(s: Severity) -> Seq<char> {
    match s {
        Severity::Warning => "warning"@,
        Severity::Error => "error"@,
    }
}

impl Severity {
    /// Name of the severity: `warning` or `error`.
    pub fn as_str(&self) -> (r: &'static str)
        ensures
            r@ == severity_name(*self),
    {
        match self {
            Severity::Warning => "warning",
            Severity::Error => "error",
        }
    }

    /// Name of the severity, owned.
    pub fn to_string(&self) -> (r: String)
        ensures
            r@ == severity_name(*self),
    {
        text::owned(self.as_str())
    }
}

/// What is wrong with the source.
///
/// Each variant carries its own [`severity`](Self::severity), its stable
/// [`code`](Self::code), and, through [`to_string`](Self::to_string), the
/// message shown to the user. The span it applies to lives in the
/// [`Diagnostic`].
#[derive(Debug, Clone, PartialEq)]
pub enum DiagnosticKind {
    /// Indentation of line with \t
    TabIndentation,
    /// Indentation is not complete
    IrregularIndentation,
    /// `---` missing before the next `:=` or before EOF.
    UnclosedNode(String),
    /// `---` while no node is open.
    StrayNodeEnd,
    /// Content outside of any node.
    ContentOutsideNode,
    /// `:=` without a name.
    EmptyNodeName,
    /// Node name that is not `[A-Za-z_][A-Za-z0-9_]*`.
    InvalidNodeName(String),
    /// `=>` without a target.
    EmptyJump,
    /// `->` without a text.
    EmptyChoiceText,
    /// `----`, `==>`, `:==`, ...
    MalformedMarker(String),
    /// A node without any statement.
    EmptyNode,
    /// A choice group with a single option.
    SingleChoice,
    /// A line indented deeper than the block it belongs to.
    UnexpectedIndentation,
    /// `:=` at an indentation level > 0.
    IndentedNodeStart,
    /// `---` at an indentation level > 0.
    IndentedNodeEnd,
    /// Duplicate node found with name
    DuplicateNodeFound(String),
    /// Jump to unknown node
    JumpToUnknownNode(String),
    /// Node name is reserved
    ReservedNodeName(String),
    /// `>>` without a name.
    EmptyCommand,
    /// `>>` followed by something that is not a call: `>> $gold + 1`.
    ExpectedCommand,
    /// Command name that is not `[A-Za-z_][A-Za-z0-9_]*`.
    InvalidCommandName(String),
    /// Command name that the language keeps for itself: `>> await()`.
    ReservedCommandName(String),
    /// `(` never closed.
    UnclosedCall,
    /// An argument that is not a value: `1..2`, `"oups`, ...
    InvalidCommandArgument(String),
    /// Text left after the `)`: `>> command() some text`.
    TrailingAfterCommand,
    /// A `"` opened a string that the line never closes.
    UnterminatedString,
    /// `$` without a name after it.
    EmptyVariableName,
    /// Digits that do not make a number: `1..2`, `1.2.3`, ...
    InvalidNumber(String),
    /// A character that starts no token of an expression.
    UnknownExpressionCharacter(char),
    /// An expression is missing where one is required: `1 +`, `$gold and`, ...
    ExpectedExpression,
    /// `(` never closed inside an expression.
    UnclosedParenthesis,
    /// Two arguments of a function with no `,` between them: `max(1 2)`.
    ExpectedSeparator,
    /// An operator applied to a type it does not take: `not 1`.
    InvalidUnaryOperand { op: String, expected: String, received: String },
    /// An operator applied to two types it does not take: `"a" - 1`.
    InvalidBinaryOperands { op: String, lhs: String, rhs: String },
    /// A bracketed marker never closed: `[let $gold = 1`.
    UnclosedBracket(String),
    /// `[let` followed by something that does not assign: `[let $gold + 1]`.
    ExpectedAssignment,
    /// Text left inside a bracketed marker: `[let $gold = 1 2]`, `[else oups]`.
    UnexpectedTextInBracket,
    /// A condition that is not a `bool`: `[if $gold + 1]`.
    ConditionIsNotABool(String),
    /// `[elif]` or `[else]` while no `[if]` is open.
    StrayBranch(String),
    /// `[elif]` or a second `[else]` after an `[else]`.
    BranchAfterElse(String),
    /// `.attr` on non Var or Func
    AttributeOnNonVariable,
    /// Dict is not closed by `}`
    UnclosedDict,
    /// A dict with colon between key and value `{name "Léon"}`
    ExpectedColon,
    /// A dict with no valid key `{: "Léon"}`
    ExpectedKey,
    /// A dict naming the same key twice `{hp: 1, hp: 2}`
    DuplicateKey(String),
    /// `[break]` or `[continue]` while no `[while]` is open.
    StrayLoopControl(String),
}

/// Severity of a kind of diagnostic: a handful are warnings, the rest errors.
pub open spec fn kind_severity(k: DiagnosticKind) -> Severity {
    match k {
        DiagnosticKind::EmptyNode
        | DiagnosticKind::SingleChoice
        | DiagnosticKind::UnexpectedIndentation
        | DiagnosticKind::IndentedNodeStart
        | DiagnosticKind::IndentedNodeEnd
        | DiagnosticKind::TrailingAfterCommand
        | DiagnosticKind::DuplicateKey(_) => Severity::Warning,
        _ => Severity::Error,
    }
}

/// Stable code of a kind of diagnostic.
pub open spec fn kind_code(k: DiagnosticKind) -> Seq<char> {
    match k {
        DiagnosticKind::TabIndentation => "tab-indentation"@,
        DiagnosticKind::IrregularIndentation => "irregular-indentation"@,
        DiagnosticKind::UnclosedNode(_) => "unclosed-node"@,
        DiagnosticKind::StrayNodeEnd => "stray-node-end"@,
        DiagnosticKind::ContentOutsideNode => "content-outside-node"@,
        DiagnosticKind::EmptyNodeName => "empty-node-name"@,
        DiagnosticKind::InvalidNodeName(_) => "invalid-node-name"@,
        DiagnosticKind::EmptyJump => "empty-jump"@,
        DiagnosticKind::EmptyChoiceText => "empty-choice-text"@,
        DiagnosticKind::MalformedMarker(_) => "malformed-marker"@,
        DiagnosticKind::EmptyNode => "empty-node"@,
        DiagnosticKind::SingleChoice => "single-choice"@,
        DiagnosticKind::UnexpectedIndentation => "unexpected-indentation"@,
        DiagnosticKind::IndentedNodeStart => "indented-node-start"@,
        DiagnosticKind::IndentedNodeEnd => "indented-node-end"@,
        DiagnosticKind::DuplicateNodeFound(_) => "duplicate-node-found"@,
        DiagnosticKind::JumpToUnknownNode(_) => "jump-unknown-node"@,
        DiagnosticKind::ReservedNodeName(_) => "reserved-node-name"@,
        DiagnosticKind::EmptyCommand => "empty-command"@,
        DiagnosticKind::ExpectedCommand => "expected-command"@,
        DiagnosticKind::InvalidCommandName(_) => "invalid-command-name"@,
        DiagnosticKind::ReservedCommandName(_) => "reserved-command-name"@,
        DiagnosticKind::UnclosedCall => "unclosed-call"@,
        DiagnosticKind::InvalidCommandArgument(_) => "invalid-command-argument"@,
        DiagnosticKind::TrailingAfterCommand => "trailing-after-command"@,
        DiagnosticKind::UnterminatedString => "unterminated-string"@,
        DiagnosticKind::EmptyVariableName => "empty-variable-name"@,
        DiagnosticKind::InvalidNumber(_) => "invalid-number"@,
        DiagnosticKind::UnknownExpressionCharacter(_) => "unknown-expression-character"@,
        DiagnosticKind::ExpectedExpression => "expected-expression"@,
        DiagnosticKind::UnclosedParenthesis => "unclosed-parenthesis"@,
        DiagnosticKind::ExpectedSeparator => "expected-arg-separator"@,
        DiagnosticKind::InvalidUnaryOperand { .. } => "invalid-unary-operand"@,
        DiagnosticKind::InvalidBinaryOperands { .. } => "invalid-binary-operands"@,
        DiagnosticKind::UnclosedBracket(_) => "unclosed-bracket"@,
        DiagnosticKind::ExpectedAssignment => "expected-assignment"@,
        DiagnosticKind::UnexpectedTextInBracket => "unexpected-text-in-bracket"@,
        DiagnosticKind::ConditionIsNotABool(_) => "condition-not-a-bool"@,
        DiagnosticKind::StrayBranch(_) => "stray-branch"@,
        DiagnosticKind::BranchAfterElse(_) => "branch-after-else"@,
        DiagnosticKind::AttributeOnNonVariable => "attribute-on-non-variable"@,
        DiagnosticKind::UnclosedDict => "unclosed-dict"@,
        DiagnosticKind::ExpectedColon => "expected-colon"@,
        DiagnosticKind::ExpectedKey => "expected-key"@,
        DiagnosticKind::DuplicateKey(_) => "duplicate-key"@,
        DiagnosticKind::StrayLoopControl(_) => "stray-loop-control"@,
    }
}

/// Which kind `k` is, by its place in the declaration, whatever it holds.
pub open spec fn kind_index(k: DiagnosticKind) -> nat {
    match k {
        DiagnosticKind::TabIndentation => 0,
        DiagnosticKind::IrregularIndentation => 1,
        DiagnosticKind::UnclosedNode(_) => 2,
        DiagnosticKind::StrayNodeEnd => 3,
        DiagnosticKind::ContentOutsideNode => 4,
        DiagnosticKind::EmptyNodeName => 5,
        DiagnosticKind::InvalidNodeName(_) => 6,
        DiagnosticKind::EmptyJump => 7,
        DiagnosticKind::EmptyChoiceText => 8,
        DiagnosticKind::MalformedMarker(_) => 9,
        DiagnosticKind::EmptyNode => 10,
        DiagnosticKind::SingleChoice => 11,
        DiagnosticKind::UnexpectedIndentation => 12,
        DiagnosticKind::IndentedNodeStart => 13,
        DiagnosticKind::IndentedNodeEnd => 14,
        DiagnosticKind::DuplicateNodeFound(_) => 15,
        DiagnosticKind::JumpToUnknownNode(_) => 16,
        DiagnosticKind::ReservedNodeName(_) => 17,
        DiagnosticKind::EmptyCommand => 18,
        DiagnosticKind::ExpectedCommand => 19,
        DiagnosticKind::InvalidCommandName(_) => 20,
        DiagnosticKind::ReservedCommandName(_) => 21,
        DiagnosticKind::UnclosedCall => 22,
        DiagnosticKind::InvalidCommandArgument(_) => 23,
        DiagnosticKind::TrailingAfterCommand => 24,
        DiagnosticKind::UnterminatedString => 25,
        DiagnosticKind::EmptyVariableName => 26,
        DiagnosticKind::InvalidNumber(_) => 27,
        DiagnosticKind::UnknownExpressionCharacter(_) => 28,
        DiagnosticKind::ExpectedExpression => 29,
        DiagnosticKind::UnclosedParenthesis => 30,
        DiagnosticKind::ExpectedSeparator => 31,
        DiagnosticKind::InvalidUnaryOperand { .. } => 32,
        DiagnosticKind::InvalidBinaryOperands { .. } => 33,
        DiagnosticKind::UnclosedBracket(_) => 34,
        DiagnosticKind::ExpectedAssignment => 35,
        DiagnosticKind::UnexpectedTextInBracket => 36,
        DiagnosticKind::ConditionIsNotABool(_) => 37,
        DiagnosticKind::StrayBranch(_) => 38,
        DiagnosticKind::BranchAfterElse(_) => 39,
        DiagnosticKind::AttributeOnNonVariable => 40,
        DiagnosticKind::UnclosedDict => 41,
        DiagnosticKind::ExpectedColon => 42,
        DiagnosticKind::ExpectedKey => 43,
        DiagnosticKind::DuplicateKey(_) => 44,
        DiagnosticKind::StrayLoopControl(_) => 45,
    }
}

/// The code of the kind at place `i`.
spec fn code_at(i: nat) -> Seq<char> {
    if i == 0 {
        "tab-indentation"@
    } else if i == 1 {
        "irregular-indentation"@
    } else if i == 2 {
        "unclosed-node"@
    } else if i == 3 {
        "stray-node-end"@
    } else if i == 4 {
        "content-outside-node"@
    } else if i == 5 {
        "empty-node-name"@
    } else if i == 6 {
        "invalid-node-name"@
    } else if i == 7 {
        "empty-jump"@
    } else if i == 8 {
        "empty-choice-text"@
    } else if i == 9 {
        "malformed-marker"@
    } else if i == 10 {
        "empty-node"@
    } else if i == 11 {
        "single-choice"@
    } else if i == 12 {
        "unexpected-indentation"@
    } else if i == 13 {
        "indented-node-start"@
    } else if i == 14 {
        "indented-node-end"@
    } else if i == 15 {
        "duplicate-node-found"@
    } else if i == 16 {
        "jump-unknown-node"@
    } else if i == 17 {
        "reserved-node-name"@
    } else if i == 18 {
        "empty-command"@
    } else if i == 19 {
        "expected-command"@
    } else if i == 20 {
        "invalid-command-name"@
    } else if i == 21 {
        "reserved-command-name"@
    } else if i == 22 {
        "unclosed-call"@
    } else if i == 23 {
        "invalid-command-argument"@
    } else if i == 24 {
        "trailing-after-command"@
    } else if i == 25 {
        "unterminated-string"@
    } else if i == 26 {
        "empty-variable-name"@
    } else if i == 27 {
        "invalid-number"@
    } else if i == 28 {
        "unknown-expression-character"@
    } else if i == 29 {
        "expected-expression"@
    } else if i == 30 {
        "unclosed-parenthesis"@
    } else if i == 31 {
        "expected-arg-separator"@
    } else if i == 32 {
        "invalid-unary-operand"@
    } else if i == 33 {
        "invalid-binary-operands"@
    } else if i == 34 {
        "unclosed-bracket"@
    } else if i == 35 {
        "expected-assignment"@
    } else if i == 36 {
        "unexpected-text-in-bracket"@
    } else if i == 37 {
        "condition-not-a-bool"@
    } else if i == 38 {
        "stray-branch"@
    } else if i == 39 {
        "branch-after-else"@
    } else if i == 40 {
        "attribute-on-non-variable"@
    } else if i == 41 {
        "unclosed-dict"@
    } else if i == 42 {
        "expected-colon"@
    } else if i == 43 {
        "expected-key"@
    } else if i == 44 {
        "duplicate-key"@
    } else if i == 45 {
        "stray-loop-control"@
    } else {
        Seq::empty()
    }
}

/// The place of the kind whose code is `c`, told by its length, its first
/// character and its tenth.
spec fn code_place(c: Seq<char>) -> int {
    if c.len() == 15 && c[0] == 't' && c[9] == 't' {
        0
    } else if c.len() == 21 && c[0] == 'i' && c[9] == '-' {
        1
    } else if c.len() == 13 && c[0] == 'u' && c[9] == 'n' {
        2
    } else if c.len() == 14 && c[0] == 's' && c[9] == 'e' {
        3
    } else if c.len() == 20 && c[0] == 'c' && c[9] == 'u' {
        4
    } else if c.len() == 15 && c[0] == 'e' && c[9] == 'e' {
        5
    } else if c.len() == 17 && c[0] == 'i' && c[9] == 'o' {
        6
    } else if c.len() == 10 && c[0] == 'e' && c[9] == 'p' {
        7
    } else if c.len() == 17 && c[0] == 'e' && c[9] == 'i' {
        8
    } else if c.len() == 16 && c[0] == 'm' && c[9] == '-' {
        9
    } else if c.len() == 10 && c[0] == 'e' && c[9] == 'e' {
        10
    } else if c.len() == 13 && c[0] == 's' && c[9] == 'o' {
        11
    } else if c.len() == 22 && c[0] == 'u' && c[9] == 'd' {
        12
    } else if c.len() == 19 && c[0] == 'i' && c[9] == 'n' {
        13
    } else if c.len() == 17 && c[0] == 'i' && c[9] == 'n' {
        14
    } else if c.len() == 20 && c[0] == 'd' && c[9] == '-' {
        15
    } else if c.len() == 17 && c[0] == 'j' && c[9] == 'o' {
        16
    } else if c.len() == 18 && c[0] == 'r' && c[9] == 'n' {
        17
    } else if c.len() == 13 && c[0] == 'e' && c[9] == 'm' {
        18
    } else if c.len() == 16 && c[0] == 'e' && c[9] == 'c' {
        19
    } else if c.len() == 20 && c[0] == 'i' && c[9] == 'o' {
        20
    } else if c.len() == 21 && c[0] == 'r' && c[9] == 'c' {
        21
    } else if c.len() == 13 && c[0] == 'u' && c[9] == 'c' {
        22
    } else if c.len() == 24 && c[0] == 'i' && c[9] == 'o' {
        23
    } else if c.len() == 22 && c[0] == 't' && c[9] == 'a' {
        24
    } else if c.len() == 19 && c[0] == 'u' && c[9] == 't' {
        25
    } else if c.len() == 19 && c[0] == 'e' && c[9] == 'i' {
        26
    } else if c.len() == 14 && c[0] == 'i' && c[9] == 'u' {
        27
    } else if c.len() == 28 && c[0] == 'u' && c[9] == 'x' {
        28
    } else if c.len() == 19 && c[0] == 'e' && c[9] == 'e' {
        29
    } else if c.len() == 20 && c[0] == 'u' && c[9] == 'p' {
        30
    } else if c.len() == 22 && c[0] == 'e' && c[9] == 'a' {
        31
    } else if c.len() == 21 && c[0] == 'i' && c[9] == 'n' {
        32
    } else if c.len() == 23 && c[0] == 'i' && c[9] == 'i' {
        33
    } else if c.len() == 16 && c[0] == 'u' && c[9] == 'b' {
        34
    } else if c.len() == 19 && c[0] == 'e' && c[9] == 'a' {
        35
    } else if c.len() == 26 && c[0] == 'u' && c[9] == 'd' {
        36
    } else if c.len() == 20 && c[0] == 'c' && c[9] == '-' {
        37
    } else if c.len() == 12 && c[0] == 's' && c[9] == 'n' {
        38
    } else if c.len() == 17 && c[0] == 'b' && c[9] == 't' {
        39
    } else if c.len() == 25 && c[0] == 'a' && c[9] == '-' {
        40
    } else if c.len() == 13 && c[0] == 'u' && c[9] == 'd' {
        41
    } else if c.len() == 14 && c[0] == 'e' && c[9] == 'c' {
        42
    } else if c.len() == 12 && c[0] == 'e' && c[9] == 'k' {
        43
    } else if c.len() == 13 && c[0] == 'd' && c[9] == '-' {
        44
    } else if c.len() == 18 && c[0] == 's' && c[9] == 'p' {
        45
    } else {
        -1
    }
}

/// The code of `k` is the one of its place, and tells that place back; it
/// holds no escape character.
proof fn lemma_code_place(k: DiagnosticKind)
    ensures
        kind_code(k) == code_at(kind_index(k)),
        code_place(kind_code(k)) == kind_index(k),
        escape_free(kind_code(k)),
{
    match k {
        DiagnosticKind::TabIndentation => {
            reveal_strlit("tab-indentation");
        },
        DiagnosticKind::IrregularIndentation => {
            reveal_strlit("irregular-indentation");
        },
        DiagnosticKind::UnclosedNode(_) => {
            reveal_strlit("unclosed-node");
        },
        DiagnosticKind::StrayNodeEnd => {
            reveal_strlit("stray-node-end");
        },
        DiagnosticKind::ContentOutsideNode => {
            reveal_strlit("content-outside-node");
        },
        DiagnosticKind::EmptyNodeName => {
            reveal_strlit("empty-node-name");
        },
        DiagnosticKind::InvalidNodeName(_) => {
            reveal_strlit("invalid-node-name");
        },
        DiagnosticKind::EmptyJump => {
            reveal_strlit("empty-jump");
        },
        DiagnosticKind::EmptyChoiceText => {
            reveal_strlit("empty-choice-text");
        },
        DiagnosticKind::MalformedMarker(_) => {
            reveal_strlit("malformed-marker");
        },
        DiagnosticKind::EmptyNode => {
            reveal_strlit("empty-node");
        },
        DiagnosticKind::SingleChoice => {
            reveal_strlit("single-choice");
        },
        DiagnosticKind::UnexpectedIndentation => {
            reveal_strlit("unexpected-indentation");
        },
        DiagnosticKind::IndentedNodeStart => {
            reveal_strlit("indented-node-start");
        },
        DiagnosticKind::IndentedNodeEnd => {
            reveal_strlit("indented-node-end");
        },
        DiagnosticKind::DuplicateNodeFound(_) => {
            reveal_strlit("duplicate-node-found");
        },
        DiagnosticKind::JumpToUnknownNode(_) => {
            reveal_strlit("jump-unknown-node");
        },
        DiagnosticKind::ReservedNodeName(_) => {
            reveal_strlit("reserved-node-name");
        },
        DiagnosticKind::EmptyCommand => {
            reveal_strlit("empty-command");
        },
        DiagnosticKind::ExpectedCommand => {
            reveal_strlit("expected-command");
        },
        DiagnosticKind::InvalidCommandName(_) => {
            reveal_strlit("invalid-command-name");
        },
        DiagnosticKind::ReservedCommandName(_) => {
            reveal_strlit("reserved-command-name");
        },
        DiagnosticKind::UnclosedCall => {
            reveal_strlit("unclosed-call");
        },
        DiagnosticKind::InvalidCommandArgument(_) => {
            reveal_strlit("invalid-command-argument");
        },
        DiagnosticKind::TrailingAfterCommand => {
            reveal_strlit("trailing-after-command");
        },
        DiagnosticKind::UnterminatedString => {
            reveal_strlit("unterminated-string");
        },
        DiagnosticKind::EmptyVariableName => {
            reveal_strlit("empty-variable-name");
        },
        DiagnosticKind::InvalidNumber(_) => {
            reveal_strlit("invalid-number");
        },
        DiagnosticKind::UnknownExpressionCharacter(_) => {
            reveal_strlit("unknown-expression-character");
        },
        DiagnosticKind::ExpectedExpression => {
            reveal_strlit("expected-expression");
        },
        DiagnosticKind::UnclosedParenthesis => {
            reveal_strlit("unclosed-parenthesis");
        },
        DiagnosticKind::ExpectedSeparator => {
            reveal_strlit("expected-arg-separator");
        },
        DiagnosticKind::InvalidUnaryOperand { .. } => {
            reveal_strlit("invalid-unary-operand");
        },
        DiagnosticKind::InvalidBinaryOperands { .. } => {
            reveal_strlit("invalid-binary-operands");
        },
        DiagnosticKind::UnclosedBracket(_) => {
            reveal_strlit("unclosed-bracket");
        },
        DiagnosticKind::ExpectedAssignment => {
            reveal_strlit("expected-assignment");
        },
        DiagnosticKind::UnexpectedTextInBracket => {
            reveal_strlit("unexpected-text-in-bracket");
        },
        DiagnosticKind::ConditionIsNotABool(_) => {
            reveal_strlit("condition-not-a-bool");
        },
        DiagnosticKind::StrayBranch(_) => {
            reveal_strlit("stray-branch");
        },
        DiagnosticKind::BranchAfterElse(_) => {
            reveal_strlit("branch-after-else");
        },
        DiagnosticKind::AttributeOnNonVariable => {
            reveal_strlit("attribute-on-non-variable");
        },
        DiagnosticKind::UnclosedDict => {
            reveal_strlit("unclosed-dict");
        },
        DiagnosticKind::ExpectedColon => {
            reveal_strlit("expected-colon");
        },
        DiagnosticKind::ExpectedKey => {
            reveal_strlit("expected-key");
        },
        DiagnosticKind::DuplicateKey(_) => {
            reveal_strlit("duplicate-key");
        },
        DiagnosticKind::StrayLoopControl(_) => {
            reveal_strlit("stray-loop-control");
        },
    }
}

/// A code holds no escape character.
pub proof fn lemma_code_escape_free(k: DiagnosticKind)
    ensures
        escape_free(kind_code(k)),
{
    lemma_code_place(k);
}

/// Two kinds share a code exactly when they are the same kind, whatever
/// they hold: no two kinds have the same code.
pub proof fn lemma_codes_distinct(k1: DiagnosticKind, k2: DiagnosticKind)
    ensures
        kind_code(k1) == kind_code(k2) <==> kind_index(k1) == kind_index(k2),
{
    lemma_code_place(k1);
    lemma_code_place(k2);
}

/// `"{a}{x}{b}"`.
pub open spec fn around(a: Seq<char>, x: Seq<char>, b: Seq<char>) -> Seq<char> {
    a + x + b
}

/// Message shown to the user for a kind of diagnostic.
pub open spec fn kind_message(k: DiagnosticKind) -> Seq<char> {
    match k {
        DiagnosticKind::TabIndentation => "indentation uses a tab, use spaces instead"@,
        DiagnosticKind::IrregularIndentation => "indentation is not a multiple of the indentation width"@,
        DiagnosticKind::UnclosedNode(name) => around(
            "node `"@,
            name@,
            "` is never closed, expected `---`"@,
        ),
        DiagnosticKind::StrayNodeEnd => "`---` found while no node is open"@,
        DiagnosticKind::ContentOutsideNode => "content found outside of any node, expected `:= <name>` first"@,
        DiagnosticKind::EmptyNodeName => "`:=` is missing a node name"@,
        DiagnosticKind::InvalidNodeName(name) => around(
            "`"@,
            name@,
            "` is an invalid node name, expected a letter or `_` followed by letters, digits or `_`"@,
        ),
        DiagnosticKind::EmptyJump => "`=>` is missing a target node"@,
        DiagnosticKind::EmptyChoiceText => "`->` is missing a choice text"@,
        DiagnosticKind::MalformedMarker(marker) => around(
            "malformed marker `"@,
            marker@,
            "`, expected `:=`, `---`, `=>`, `->` or `>>`"@,
        ),
        DiagnosticKind::EmptyNode => "node has no statement"@,
        DiagnosticKind::SingleChoice => "choice group has a single option"@,
        DiagnosticKind::UnexpectedIndentation => "line is indented deeper than its block"@,
        DiagnosticKind::IndentedNodeStart => "`:=` must not be indented"@,
        DiagnosticKind::IndentedNodeEnd => "`---` must not be indented"@,
        DiagnosticKind::DuplicateNodeFound(name) => around(
            "node `"@,
            name@,
            "` is declared more than once"@,
        ),
        DiagnosticKind::JumpToUnknownNode(name) => around(
            "jump to unknown node `"@,
            name@,
            "`"@,
        ),
        DiagnosticKind::ReservedNodeName(name) => around("reserved node name `"@, name@, "`"@),
        DiagnosticKind::EmptyCommand => "`>>` is missing a command name"@,
        DiagnosticKind::ExpectedCommand => "expected a command, like `name()` or `name(1, \"two\")`"@,
        DiagnosticKind::InvalidCommandName(name) => around(
            "`"@,
            name@,
            "` is an invalid command name, expected a letter or `_` followed by letters, digits or `_`"@,
        ),
        DiagnosticKind::ReservedCommandName(name) => around(
            "`"@,
            name@,
            "` is a reserved word, expected a command name after it"@,
        ),
        DiagnosticKind::UnclosedCall => "`(` is never closed, expected `)` at the end of the line"@,
        DiagnosticKind::InvalidCommandArgument(arg) => around(
            "invalid command argument `"@,
            arg@,
            "`, expected a number, `true`, `false`, a word or a quoted string"@,
        ),
        DiagnosticKind::TrailingAfterCommand => "unexpected text after the end of the command, expected nothing after `)`"@,
        DiagnosticKind::UnterminatedString => "string is never closed, expected a `\"` before the end of the line"@,
        DiagnosticKind::EmptyVariableName => "`$` is missing a variable name"@,
        DiagnosticKind::InvalidNumber(t) => around(
            "`"@,
            t@,
            "` is an invalid number, expected digits with at most one `.`"@,
        ),
        DiagnosticKind::UnknownExpressionCharacter(c) => around(
            "unexpected character `"@,
            seq![c],
            "` in the expression"@,
        ),
        DiagnosticKind::ExpectedExpression => "expected an expression"@,
        DiagnosticKind::UnclosedParenthesis => "`(` is never closed, expected `)`"@,
        DiagnosticKind::ExpectedSeparator => "expected `,` or `)` after this function argument"@,
        DiagnosticKind::InvalidUnaryOperand { op, expected, received } => "operator `"@ + op@
            + "` expects "@ + expected@ + ", received `"@ + received@ + "`"@,
        DiagnosticKind::InvalidBinaryOperands { op, lhs, rhs } => "operator `"@ + op@
            + "` cannot be applied to `"@ + lhs@ + "` and `"@ + rhs@ + "`"@,
        DiagnosticKind::UnclosedBracket(marker) => around(
            "`"@,
            marker@,
            "` is never closed, expected `]` at the end of the line"@,
        ),
        DiagnosticKind::ExpectedAssignment => "expected `$name = <expression>` after `[let`"@,
        DiagnosticKind::UnexpectedTextInBracket => "unexpected text, expected `]` right after"@,
        DiagnosticKind::ConditionIsNotABool(received) => around(
            "a condition must be a `bool`, this one is a `"@,
            received@,
            "`"@,
        ),
        DiagnosticKind::StrayBranch(marker) => around(
            "`"@,
            marker@,
            "` found while no `[if]` is open"@,
        ),
        DiagnosticKind::BranchAfterElse(marker) => around(
            "`"@,
            marker@,
            "` found after `[else]`"@,
        ),
        DiagnosticKind::AttributeOnNonVariable => "found `.attr` on non variable or function"@,
        DiagnosticKind::UnclosedDict => "dict is never closed, expected `} at the end`"@,
        DiagnosticKind::ExpectedColon => "expected `:` after a key in dict definition"@,
        DiagnosticKind::ExpectedKey => "expected a str as a key in dict definition"@,
        DiagnosticKind::DuplicateKey(key) => around(
            "key `"@,
            key@,
            "` is given more than once, only the last value is kept"@,
        ),
        DiagnosticKind::StrayLoopControl(marker) => around(
            "`"@,
            marker@,
            "` while not `[while]` is open"@,
        ),
    }
}

/// A new string `a`, `x`, `b`.
fn around_exec(a: &str, x: &str, b: &str) -> (r: String)
    ensures
        r@ == around(a@, x@, b@),
{
    let mut out = text::owned(a);
    text::push_str(&mut out, x);
    text::push_str(&mut out, b);
    out
}

impl DiagnosticKind {
    /// Severity attached to this kind. It never depends on the source.
    pub fn severity(&self) -> (r: Severity)
        ensures
            r == kind_severity(*self),
    {
        match self {
            DiagnosticKind::EmptyNode
            | DiagnosticKind::SingleChoice
            | DiagnosticKind::UnexpectedIndentation
            | DiagnosticKind::IndentedNodeStart
            | DiagnosticKind::IndentedNodeEnd
            | DiagnosticKind::TrailingAfterCommand
            | DiagnosticKind::DuplicateKey(_) => Severity::Warning,
            _ => Severity::Error,
        }
    }

    /// Stable, machine readable code. Used by the tests or LSP.
    pub fn code(&self) -> (r: &'static str)
        ensures
            r@ == kind_code(*self),
    {
        match self {
            DiagnosticKind::TabIndentation => "tab-indentation",
            DiagnosticKind::IrregularIndentation => "irregular-indentation",
            DiagnosticKind::UnclosedNode(_) => "unclosed-node",
            DiagnosticKind::StrayNodeEnd => "stray-node-end",
            DiagnosticKind::ContentOutsideNode => "content-outside-node",
            DiagnosticKind::EmptyNodeName => "empty-node-name",
            DiagnosticKind::InvalidNodeName(_) => "invalid-node-name",
            DiagnosticKind::EmptyJump => "empty-jump",
            DiagnosticKind::EmptyChoiceText => "empty-choice-text",
            DiagnosticKind::MalformedMarker(_) => "malformed-marker",
            DiagnosticKind::EmptyNode => "empty-node",
            DiagnosticKind::SingleChoice => "single-choice",
            DiagnosticKind::UnexpectedIndentation => "unexpected-indentation",
            DiagnosticKind::IndentedNodeStart => "indented-node-start",
            DiagnosticKind::IndentedNodeEnd => "indented-node-end",
            DiagnosticKind::DuplicateNodeFound(_) => "duplicate-node-found",
            DiagnosticKind::JumpToUnknownNode(_) => "jump-unknown-node",
            DiagnosticKind::ReservedNodeName(_) => "reserved-node-name",
            DiagnosticKind::EmptyCommand => "empty-command",
            DiagnosticKind::ExpectedCommand => "expected-command",
            DiagnosticKind::InvalidCommandName(_) => "invalid-command-name",
            DiagnosticKind::ReservedCommandName(_) => "reserved-command-name",
            DiagnosticKind::UnclosedCall => "unclosed-call",
            DiagnosticKind::InvalidCommandArgument(_) => "invalid-command-argument",
            DiagnosticKind::TrailingAfterCommand => "trailing-after-command",
            DiagnosticKind::UnterminatedString => "unterminated-string",
            DiagnosticKind::EmptyVariableName => "empty-variable-name",
            DiagnosticKind::InvalidNumber(_) => "invalid-number",
            DiagnosticKind::UnknownExpressionCharacter(_) => "unknown-expression-character",
            DiagnosticKind::ExpectedExpression => "expected-expression",
            DiagnosticKind::UnclosedParenthesis => "unclosed-parenthesis",
            DiagnosticKind::ExpectedSeparator => "expected-arg-separator",
            DiagnosticKind::InvalidUnaryOperand { .. } => "invalid-unary-operand",
            DiagnosticKind::InvalidBinaryOperands { .. } => "invalid-binary-operands",
            DiagnosticKind::UnclosedBracket(_) => "unclosed-bracket",
            DiagnosticKind::ExpectedAssignment => "expected-assignment",
            DiagnosticKind::UnexpectedTextInBracket => "unexpected-text-in-bracket",
            DiagnosticKind::ConditionIsNotABool(_) => "condition-not-a-bool",
            DiagnosticKind::StrayBranch(_) => "stray-branch",
            DiagnosticKind::BranchAfterElse(_) => "branch-after-else",
            DiagnosticKind::AttributeOnNonVariable => "attribute-on-non-variable",
            DiagnosticKind::UnclosedDict => "unclosed-dict",
            DiagnosticKind::ExpectedColon => "expected-colon",
            DiagnosticKind::ExpectedKey => "expected-key",
            DiagnosticKind::DuplicateKey(_) => "duplicate-key",
            DiagnosticKind::StrayLoopControl(_) => "stray-loop-control",
        }
    }

    /// The message shown to the user.
    pub fn to_string(&self) -> (r: String)
        ensures
            r@ == kind_message(*self),
    {
        match self {
            DiagnosticKind::TabIndentation => text::owned("indentation uses a tab, use spaces instead"),
            DiagnosticKind::IrregularIndentation => text::owned(
                "indentation is not a multiple of the indentation width",
            ),
            DiagnosticKind::UnclosedNode(name) => around_exec(
                "node `",
                name.as_str(),
                "` is never closed, expected `---`",
            ),
            DiagnosticKind::StrayNodeEnd => text::owned("`---` found while no node is open"),
            DiagnosticKind::ContentOutsideNode => text::owned(
                "content found outside of any node, expected `:= <name>` first",
            ),
            DiagnosticKind::EmptyNodeName => text::owned("`:=` is missing a node name"),
            DiagnosticKind::InvalidNodeName(name) => around_exec(
                "`",
                name.as_str(),
                "` is an invalid node name, expected a letter or `_` followed by letters, digits or `_`",
            ),
            DiagnosticKind::EmptyJump => text::owned("`=>` is missing a target node"),
            DiagnosticKind::EmptyChoiceText => text::owned("`->` is missing a choice text"),
            DiagnosticKind::MalformedMarker(marker) => around_exec(
                "malformed marker `",
                marker.as_str(),
                "`, expected `:=`, `---`, `=>`, `->` or `>>`",
            ),
            DiagnosticKind::EmptyNode => text::owned("node has no statement"),
            DiagnosticKind::SingleChoice => text::owned("choice group has a single option"),
            DiagnosticKind::UnexpectedIndentation => text::owned(
                "line is indented deeper than its block",
            ),
            DiagnosticKind::IndentedNodeStart => text::owned("`:=` must not be indented"),
            DiagnosticKind::IndentedNodeEnd => text::owned("`---` must not be indented"),
            DiagnosticKind::DuplicateNodeFound(name) => around_exec(
                "node `",
                name.as_str(),
                "` is declared more than once",
            ),
            DiagnosticKind::JumpToUnknownNode(name) => around_exec(
                "jump to unknown node `",
                name.as_str(),
                "`",
            ),
            DiagnosticKind::ReservedNodeName(name) => around_exec(
                "reserved node name `",
                name.as_str(),
                "`",
            ),
            DiagnosticKind::EmptyCommand => text::owned("`>>` is missing a command name"),
            DiagnosticKind::ExpectedCommand => text::owned(
                "expected a command, like `name()` or `name(1, \"two\")`",
            ),
            DiagnosticKind::InvalidCommandName(name) => around_exec(
                "`",
                name.as_str(),
                "` is an invalid command name, expected a letter or `_` followed by letters, digits or `_`",
            ),
            DiagnosticKind::ReservedCommandName(name) => around_exec(
                "`",
                name.as_str(),
                "` is a reserved word, expected a command name after it",
            ),
            DiagnosticKind::UnclosedCall => text::owned(
                "`(` is never closed, expected `)` at the end of the line",
            ),
            DiagnosticKind::InvalidCommandArgument(arg) => around_exec(
                "invalid command argument `",
                arg.as_str(),
                "`, expected a number, `true`, `false`, a word or a quoted string",
            ),
            DiagnosticKind::TrailingAfterCommand => text::owned(
                "unexpected text after the end of the command, expected nothing after `)`",
            ),
            DiagnosticKind::UnterminatedString => text::owned(
                "string is never closed, expected a `\"` before the end of the line",
            ),
            DiagnosticKind::EmptyVariableName => text::owned("`$` is missing a variable name"),
            DiagnosticKind::InvalidNumber(t) => around_exec(
                "`",
                t.as_str(),
                "` is an invalid number, expected digits with at most one `.`",
            ),
            DiagnosticKind::UnknownExpressionCharacter(c) => {
                let mut out = text::owned("unexpected character `");
                text::push_char(&mut out, *c);
                text::push_str(&mut out, "` in the expression");
                proof {
                    assert(out@ =~= kind_message(*self));
                }
                out
            },
            DiagnosticKind::ExpectedExpression => text::owned("expected an expression"),
            DiagnosticKind::UnclosedParenthesis => text::owned("`(` is never closed, expected `)`"),
            DiagnosticKind::ExpectedSeparator => text::owned(
                "expected `,` or `)` after this function argument",
            ),
            DiagnosticKind::InvalidUnaryOperand { op, expected, received } => {
                let mut out = text::owned("operator `");
                text::push_str(&mut out, op.as_str());
                text::push_str(&mut out, "` expects ");
                text::push_str(&mut out, expected.as_str());
                text::push_str(&mut out, ", received `");
                text::push_str(&mut out, received.as_str());
                text::push_str(&mut out, "`");
                out
            },
            DiagnosticKind::InvalidBinaryOperands { op, lhs, rhs } => {
                let mut out = text::owned("operator `");
                text::push_str(&mut out, op.as_str());
                text::push_str(&mut out, "` cannot be applied to `");
                text::push_str(&mut out, lhs.as_str());
                text::push_str(&mut out, "` and `");
                text::push_str(&mut out, rhs.as_str());
                text::push_str(&mut out, "`");
                out
            },
            DiagnosticKind::UnclosedBracket(marker) => around_exec(
                "`",
                marker.as_str(),
                "` is never closed, expected `]` at the end of the line",
            ),
            DiagnosticKind::ExpectedAssignment => text::owned(
                "expected `$name = <expression>` after `[let`",
            ),
            DiagnosticKind::UnexpectedTextInBracket => text::owned(
                "unexpected text, expected `]` right after",
            ),
            DiagnosticKind::ConditionIsNotABool(received) => around_exec(
                "a condition must be a `bool`, this one is a `",
                received.as_str(),
                "`",
            ),
            DiagnosticKind::StrayBranch(marker) => around_exec(
                "`",
                marker.as_str(),
                "` found while no `[if]` is open",
            ),
            DiagnosticKind::BranchAfterElse(marker) => around_exec(
                "`",
                marker.as_str(),
                "` found after `[else]`",
            ),
            DiagnosticKind::AttributeOnNonVariable => text::owned(
                "found `.attr` on non variable or function",
            ),
            DiagnosticKind::UnclosedDict => text::owned("dict is never closed, expected `} at the end`"),
            DiagnosticKind::ExpectedColon => text::owned("expected `:` after a key in dict definition"),
            DiagnosticKind::ExpectedKey => text::owned("expected a str as a key in dict definition"),
            DiagnosticKind::DuplicateKey(key) => around_exec(
                "key `",
                key.as_str(),
                "` is given more than once, only the last value is kept",
            ),
            DiagnosticKind::StrayLoopControl(marker) => around_exec(
                "`",
                marker.as_str(),
                "` while not `[while]` is open",
            ),
        }
    }
}

/// A secondary span attached to a diagnostic, pointing at the related location.
#[derive(Debug, Clone, PartialEq, Eq)]
pub struct Label {
    /// Where the related location is, as a byte range in the source.
    pub span: Span,
    /// What to say about it, shown right after the `---` marker.
    pub message: String,
}

/// A single problem found in the source.
#[derive(Debug, Clone, PartialEq)]
pub struct Diagnostic {
    /// What is wrong.
    pub kind: DiagnosticKind,
    /// Where it is wrong, as a byte range in the source.
    pub span: Span,
    /// List of secondary informations
    pub labels: Vec<Label>,
}

/// Whether a rendering emits ANSI escape codes.
#[derive(Debug, Clone, Copy, Default, PartialEq, Eq, Structural)]
pub enum Color {
    /// Plain text: what tests, snapshots and log files want.
    #[default]
    Never,
    /// Always emit escape codes.
    Always,
    /// Emit escape codes when stderr is a terminal, unless `NO_COLOR` is set.
    /// `CLICOLOR_FORCE` overrides both.
    Auto,
}

/// What the environment says about colors: the values of `CLICOLOR_FORCE`
/// and `NO_COLOR`, and whether stderr is a terminal.
pub struct ColorEnv {
    pub clicolor_force: Option<String>,
    pub no_color: Option<String>,
    pub stderr_is_terminal: bool,
}

/// Whether a variable is set to something non-empty.
pub open spec fn set_non_empty(v: Option<String>) -> bool {
    match v {
        Some(s) => s@.len() > 0,
        None => false,
    }
}

/// Whether `color` asks for escape codes in the environment `env`.
pub open spec fn color_enabled(color: Color, env: ColorEnv) -> bool {
    match color {
        Color::Never => false,
        Color::Always => true,
        Color::Auto => set_non_empty(env.clicolor_force) || (!set_non_empty(env.no_color)
            && env.stderr_is_terminal),
    }
}

/// Executable [`set_non_empty`].
fn is_set_non_empty(v: &Option<String>) -> (r: bool)
    ensures
        r == set_non_empty(*v),
{
    match v {
        Some(s) => !s.as_str().is_empty(),
        None => false,
    }
}

impl Color {
    /// Resolve [`Auto`](Self::Auto) against the environment.
    pub fn enabled(self, env: &ColorEnv) -> (r: bool)
        ensures
            r == color_enabled(self, *env),
    {
        match self {
            Color::Never => false,
            Color::Always => true,
            Color::Auto => {
                if is_set_non_empty(&env.clicolor_force) {
                    return true;
                }
                !is_set_non_empty(&env.no_color) && env.stderr_is_terminal
            },
        }
    }
}

/// Escape code of a severity, its code and its primary carets.
pub open spec fn sev_style(s: Severity, colored: bool) -> Seq<char> {
    if !colored {
        Seq::empty()
    } else {
        match s {
            Severity::Error => "\x1b[1;31m"@,
            Severity::Warning => "\x1b[1;33m"@,
        }
    }
}

/// Escape code of the message of a diagnostic.
pub open spec fn msg_style(colored: bool) -> Seq<char> {
    if colored {
        "\x1b[1m"@
    } else {
        Seq::empty()
    }
}

/// Escape code of `-->`, `|`, and the line numbers.
pub open spec fn gutter_style(colored: bool) -> Seq<char> {
    if colored {
        "\x1b[1;34m"@
    } else {
        Seq::empty()
    }
}

/// Escape code of the markers and messages of the labels.
pub open spec fn label_style(colored: bool) -> Seq<char> {
    if colored {
        "\x1b[1;36m"@
    } else {
        Seq::empty()
    }
}

/// Escape code that ends a styled part.
pub open spec fn reset_style(colored: bool) -> Seq<char> {
    if colored {
        "\x1b[0m"@
    } else {
        Seq::empty()
    }
}

/// Escape codes of one rendered block, every field empty when color is off.
struct Style {
    /// Severity, its code, and the primary carets.
    severity: &'static str,
    /// Message of the diagnostic.
    message: &'static str,
    /// `-->`, `|`, and the line numbers.
    gutter: &'static str,
    /// Markers and messages of the labels.
    label: &'static str,
    reset: &'static str,
}

impl Style {
    fn new(severity: Severity, colored: bool) -> (r: Self)
        ensures
            r.severity@ == sev_style(severity, colored),
            r.message@ == msg_style(colored),
            r.gutter@ == gutter_style(colored),
            r.label@ == label_style(colored),
            r.reset@ == reset_style(colored),
    {
        if !colored {
            proof {
                reveal_strlit("");
            }
            return Style { severity: "", message: "", gutter: "", label: "", reset: "" };
        }
        Style {
            severity: match severity {
                Severity::Error => "\x1b[1;31m",
                Severity::Warning => "\x1b[1;33m",
            },
            message: "\x1b[1m",
            gutter: "\x1b[1;34m",
            label: "\x1b[1;36m",
            reset: "\x1b[0m",
        }
    }
}

/// Line of the byte `offset`, as `line_index` sees it.
pub open spec fn line_at(li: LineIndex, offset: int) -> int {
    line_of_spec(li.starts(), offset)
}

/// Text of the line of the byte `offset`, its end of line included.
pub open spec fn text_at(li: LineIndex, offset: int) -> Seq<char> {
    line_text_spec(li.source(), li.starts().len() as int, line_at(li, offset))
}

/// Byte column of `offset` in its line.
pub open spec fn byte_col_at(li: LineIndex, offset: int) -> int {
    offset - li.starts()[line_at(li, offset)]
}

/// Column of `offset` in its line, counted in characters.
pub open spec fn col_at(li: LineIndex, offset: int) -> nat {
    text::chars_before(text_at(li, offset), byte_col_at(li, offset))
}

/// Whether the byte `b` of `t` falls between two characters, or past its end.
pub open spec fn char_boundary(t: Seq<char>, b: int) -> bool {
    b >= text::blen(t) || exists|k: int| 0 <= k <= t.len() && text::blen(#[trigger] t.take(k)) == b
}

/// `"{path}:"`, or nothing without a path.
pub open spec fn path_prefix(path: Option<Seq<char>>) -> Seq<char> {
    match path {
        Some(p) => p + ":"@,
        None => Seq::empty(),
    }
}

/// The path as characters.
pub open spec fn path_view(path: Option<&str>) -> Option<Seq<char>> {
    match path {
        Some(p) => Some(p@),
        None => None,
    }
}

/// `severity[code]: message`, styled.
pub open spec fn headline(kind: DiagnosticKind, colored: bool) -> Seq<char> {
    sev_style(kind_severity(kind), colored) + severity_name(kind_severity(kind)) + "["@ + kind_code(
        kind,
    ) + "]"@ + reset_style(colored) + ": "@ + msg_style(colored) + kind_message(kind)
        + reset_style(colored)
}

/// `path:line:col: severity[code]: message` and an end of line, numbers
/// counted from 1.
pub open spec fn short_spec(
    d: Diagnostic,
    li: LineIndex,
    path: Option<Seq<char>>,
    colored: bool,
) -> Seq<char> {
    path_prefix(path) + text::decimal((line_at(li, d.span.start as int) + 1) as nat) + ":"@
        + text::decimal(col_at(li, d.span.start as int) + 1) + ": "@ + headline(d.kind, colored)
        + "\n"@
}

/// `end` kept between `start` and `limit`, as `usize::clamp` does.
pub open spec fn clamp_end(span: Span, limit: int) -> int {
    if span.end < span.start {
        span.start as int
    } else if span.end > limit {
        limit
    } else {
        span.end as int
    }
}

/// Whether a snippet can underline `span`: it starts within the trimmed text
/// of its line, and both ends of the underline fall between characters.
pub open spec fn drawable(li: LineIndex, span: Span) -> bool {
    let t = text::trim_end(text_at(li, span.start as int));
    let ls = li.starts()[line_at(li, span.start as int)] as int;
    &&& span.start <= ls + text::blen(t)
    &&& char_boundary(t, span.start - ls)
    &&& char_boundary(t, clamp_end(span, ls + text::blen(t)) - ls)
}

/// `s` aligned to the right in `width` characters.
pub open spec fn pad_left(s: Seq<char>, width: nat) -> Seq<char> {
    if s.len() < width {
        text::repeat(' ', (width - s.len()) as nat) + s
    } else {
        s
    }
}

/// `|` between its escape codes.
pub open spec fn bar_spec(colored: bool) -> Seq<char> {
    gutter_style(colored) + "|"@ + reset_style(colored)
}

/// An empty gutter: `   |`.
pub open spec fn gutter_line(colored: bool, width: nat) -> Seq<char> {
    text::repeat(' ', width) + " "@ + bar_spec(colored) + "\n"@
}

/// The gutter with the number of `line`, then `t`: `NN | <t>`.
pub open spec fn source_line(colored: bool, width: nat, line: int, t: Seq<char>) -> Seq<char> {
    gutter_style(colored) + pad_left(text::decimal((line + 1) as nat), width) + reset_style(colored)
        + " "@ + bar_spec(colored) + " "@ + t + "\n"@
}

/// End of the marker line: the message if any, then the end of the style.
pub open spec fn marker_tail(colored: bool, message: Option<Seq<char>>) -> Seq<char> {
    match message {
        Some(m) => " "@ + m + reset_style(colored) + "\n"@,
        None => reset_style(colored) + "\n"@,
    }
}

/// `   | ^^^ msg`: `mw` markers after `col` blanks.
pub open spec fn marker_line(
    colored: bool,
    width: nat,
    col: nat,
    marker: char,
    marker_style: Seq<char>,
    mw: nat,
    message: Option<Seq<char>>,
) -> Seq<char> {
    text::repeat(' ', width) + " "@ + bar_spec(colored) + " "@ + text::repeat(' ', col)
        + marker_style + text::repeat(marker, mw) + marker_tail(colored, message)
}

/// Trimmed text of the line of `span`.
pub open spec fn snippet_text(li: LineIndex, span: Span) -> Seq<char> {
    text::trim_end(text_at(li, span.start as int))
}

/// Column, in characters, where the markers of `span` start.
pub open spec fn snippet_col(li: LineIndex, span: Span) -> nat {
    text::chars_before(snippet_text(li, span), byte_col_at(li, span.start as int))
}

/// Number of markers under `span`: at least one, and none past the end of
/// its first line.
pub open spec fn snippet_width(li: LineIndex, span: Span) -> nat {
    let ls = li.starts()[line_at(li, span.start as int)] as int;
    let t = snippet_text(li, span);
    let upto = text::chars_before(t, clamp_end(span, ls + text::blen(t)) - ls);
    let col = snippet_col(li, span);
    if upto - col >= 1 {
        (upto - col) as nat
    } else {
        1
    }
}

/// The three lines showing `span`: an empty gutter, the line of the span
/// without its trailing blanks, and `marker` under the span, followed by
/// `message` if any.
pub open spec fn snippet_spec(
    li: LineIndex,
    colored: bool,
    width: nat,
    span: Span,
    marker: char,
    marker_style: Seq<char>,
    message: Option<Seq<char>>,
) -> Seq<char> {
    gutter_line(colored, width) + source_line(
        colored,
        width,
        line_at(li, span.start as int),
        snippet_text(li, span),
    ) + marker_line(
        colored,
        width,
        snippet_col(li, span),
        marker,
        marker_style,
        snippet_width(li, span),
        message,
    )
}

/// Widest line number of a block: that of `line` and of every label.
pub open spec fn block_width(li: LineIndex, labels: Seq<Label>, line: int) -> nat
    decreases labels.len(),
{
    if labels.len() == 0 {
        text::ndigits((line + 1) as nat)
    } else {
        let w = block_width(li, labels.drop_last(), line);
        let l = text::ndigits((line_at(li, labels.last().span.start as int) + 1) as nat);
        if l > w {
            l
        } else {
            w
        }
    }
}

/// The snippets of every label, in order.
pub open spec fn labels_spec(li: LineIndex, colored: bool, width: nat, labels: Seq<Label>) -> Seq<
    char,
>
    decreases labels.len(),
{
    if labels.len() == 0 {
        Seq::empty()
    } else {
        labels_spec(li, colored, width, labels.drop_last()) + snippet_spec(
            li,
            colored,
            width,
            labels.last().span,
            '-',
            label_style(colored),
            Some(labels.last().message@),
        )
    }
}

/// The full block of a diagnostic: its headline, where it is, the snippet
/// of its span, then one snippet per label.
pub open spec fn render_spec(
    d: Diagnostic,
    li: LineIndex,
    path: Option<Seq<char>>,
    colored: bool,
) -> Seq<char> {
    let line = line_at(li, d.span.start as int);
    let width = block_width(li, d.labels@, line);
    headline(d.kind, colored) + "\n"@ + text::repeat(' ', width) + gutter_style(colored)
        + " -->"@ + reset_style(colored) + " "@ + path_prefix(path) + text::decimal(
        (line + 1) as nat,
    ) + ":"@ + text::decimal(col_at(li, d.span.start as int) + 1) + "\n"@ + snippet_spec(
        li,
        colored,
        width,
        d.span,
        '^',
        sev_style(kind_severity(d.kind), colored),
        None,
    ) + labels_spec(li, colored, width, d.labels@)
}

/// Whether `d` can be rendered in full over the source of `li`: its span
/// ends inside the source, its start falls between characters of its line,
/// and its span and those of its labels can be drawn.
pub open spec fn renderable(d: Diagnostic, li: LineIndex) -> bool {
    &&& d.span.end <= text::blen(li.source())
    &&& char_boundary(text_at(li, d.span.start as int), byte_col_at(li, d.span.start as int))
    &&& drawable(li, d.span)
    &&& forall|i: int| 0 <= i < d.labels@.len() ==> drawable(li, #[trigger] d.labels@[i].span)
}

/// Number of decimal digits of `n`.
fn digits(n: usize) -> (r: usize)
    ensures
        r == text::ndigits(n as nat),
        1 <= r,
        n >= 1 ==> r <= n,
    decreases n,
{
    if n < 10 {
        1
    } else {
        proof {
            assert(n / 10 < n);
        }
        let d = digits(n / 10);
        proof {
            assert((n / 10) as nat == (n as nat) / 10);
        }
        d + 1
    }
}

/// `"{path}:"`, or nothing without a path.
fn path_prefix_exec(path: Option<&str>) -> (r: String)
    ensures
        r@ == path_prefix(path_view(path)),
{
    match path {
        Some(p) => {
            let mut r = text::owned(p);
            text::push_str(&mut r, ":");
            r
        },
        None => String::new(),
    }
}

/// `severity[code]: message`, styled by `style`.
fn headline_exec(kind: &DiagnosticKind, style: &Style, Ghost(colored): Ghost<bool>) -> (r: String)
    requires
        style.severity@ == sev_style(kind_severity(*kind), colored),
        style.message@ == msg_style(colored),
        style.reset@ == reset_style(colored),
    ensures
        r@ == headline(*kind, colored),
{
    let sev = kind.severity();
    let mut r = text::owned(style.severity);
    text::push_str(&mut r, sev.as_str());
    text::push_str(&mut r, "[");
    text::push_str(&mut r, kind.code());
    text::push_str(&mut r, "]");
    text::push_str(&mut r, style.reset);
    text::push_str(&mut r, ": ");
    text::push_str(&mut r, style.message);
    let message = kind.to_string();
    text::push_str(&mut r, message.as_str());
    text::push_str(&mut r, style.reset);
    r
}

/// `n` aligned to the right in `width` characters.
fn padded(n: usize, width: usize) -> (r: String)
    ensures
        r@ == pad_left(text::decimal(n as nat), width as nat),
{
    let shown = text::usize_to_string(n);
    let len = digits(n);
    proof {
        text::lemma_decimal_len(n as nat);
    }
    if len < width {
        let mut r = String::new();
        text::push_repeat(&mut r, ' ', width - len);
        text::push_str(&mut r, shown.as_str());
        proof {
            assert(Seq::<char>::empty() + text::repeat(' ', (width - len) as nat) =~= text::repeat(
                ' ',
                (width - len) as nat,
            ));
        }
        proof {
            assert(shown@.len() == len);
        }
        r
    } else {
        proof {
            assert(shown@.len() == len);
        }
        shown
    }
}

/// The text of `s` as a `String`, or nothing.
fn opt_owned(s: Option<&str>) -> (r: String)
    ensures
        r@ == match s {
            Some(m) => m@,
            None => Seq::<char>::empty(),
        },
{
    match s {
        Some(m) => text::owned(m),
        None => String::new(),
    }
}

/// `|` between the escape codes of `style`.
fn bar_exec(style: &Style, Ghost(colored): Ghost<bool>) -> (r: String)
    requires
        style.gutter@ == gutter_style(colored),
        style.reset@ == reset_style(colored),
    ensures
        r@ == bar_spec(colored),
{
    let mut bar = text::owned(style.gutter);
    text::push_str(&mut bar, "|");
    text::push_str(&mut bar, style.reset);
    bar
}

/// `width` blanks.
fn blanks(width: usize) -> (r: String)
    ensures
        r@ == text::repeat(' ', width as nat),
{
    let mut r = String::new();
    text::push_repeat(&mut r, ' ', width);
    proof {
        assert(Seq::<char>::empty() + text::repeat(' ', width as nat) =~= text::repeat(
            ' ',
            width as nat,
        ));
    }
    r
}

/// Executable [`gutter_line`].
fn gutter_line_exec(style: &Style, Ghost(colored): Ghost<bool>, width: usize) -> (r: String)
    requires
        style.gutter@ == gutter_style(colored),
        style.reset@ == reset_style(colored),
    ensures
        r@ == gutter_line(colored, width as nat),
{
    let mut r = blanks(width);
    text::push_str(&mut r, " ");
    let bar = bar_exec(style, Ghost(colored));
    text::push_str(&mut r, bar.as_str());
    text::push_str(&mut r, "\n");
    r
}

/// Executable [`source_line`].
fn source_line_exec(
    style: &Style,
    Ghost(colored): Ghost<bool>,
    width: usize,
    line: usize,
    t: &str,
) -> (r: String)
    requires
        style.gutter@ == gutter_style(colored),
        style.reset@ == reset_style(colored),
        line + 1 <= usize::MAX,
    ensures
        r@ == source_line(colored, width as nat, line as int, t@),
{
    let mut r = text::owned(style.gutter);
    let number = padded(line + 1, width);
    text::push_str(&mut r, number.as_str());
    text::push_str(&mut r, style.reset);
    text::push_str(&mut r, " ");
    let bar = bar_exec(style, Ghost(colored));
    text::push_str(&mut r, bar.as_str());
    text::push_str(&mut r, " ");
    text::push_str(&mut r, t);
    text::push_str(&mut r, "\n");
    r
}

/// Executable [`marker_tail`].
fn marker_tail_exec(style: &Style, Ghost(colored): Ghost<bool>, message: Option<&str>) -> (r:
    String)
    requires
        style.reset@ == reset_style(colored),
    ensures
        r@ == marker_tail(colored, path_view(message)),
{
    match message {
        Some(m) => {
            let mut r = text::owned(" ");
            text::push_str(&mut r, m);
            text::push_str(&mut r, style.reset);
            text::push_str(&mut r, "\n");
            r
        },
        None => {
            let mut r = text::owned(style.reset);
            text::push_str(&mut r, "\n");
            r
        },
    }
}

/// Executable [`marker_line`].
fn marker_line_exec(
    style: &Style,
    Ghost(colored): Ghost<bool>,
    width: usize,
    col: usize,
    marker: char,
    marker_style: &str,
    mw: usize,
    message: Option<&str>,
) -> (r: String)
    requires
        style.gutter@ == gutter_style(colored),
        style.reset@ == reset_style(colored),
    ensures
        r@ == marker_line(
            colored,
            width as nat,
            col as nat,
            marker,
            marker_style@,
            mw as nat,
            path_view(message),
        ),
{
    let mut r = blanks(width);
    text::push_str(&mut r, " ");
    let bar = bar_exec(style, Ghost(colored));
    text::push_str(&mut r, bar.as_str());
    text::push_str(&mut r, " ");
    text::push_repeat(&mut r, ' ', col);
    text::push_str(&mut r, marker_style);
    text::push_repeat(&mut r, marker, mw);
    let tail = marker_tail_exec(style, Ghost(colored), message);
    text::push_str(&mut r, tail.as_str());
    r
}

/// Where the markers of `span` go: its line, the trimmed text of that line,
/// the column of the first marker, and the number of markers.
fn snippet_place<'a>(src: &'a str, line_index: &LineIndex, span: Span) -> (r: (
    usize,
    &'a str,
    usize,
    usize,
))
    requires
        src@ == line_index.source(),
        drawable(*line_index, span),
    ensures
        r.0 == line_at(*line_index, span.start as int),
        r.0 + 1 <= usize::MAX,
        r.1@ == snippet_text(*line_index, span),
        r.2 == snippet_col(*line_index, span),
        r.3 == snippet_width(*line_index, span),
{
    let (line, byte_col) = line_index.line_col(span.start);
    let full = line_index.line_text(src, line);
    let text = text::trim_end_str(full);
    proof {
        text::lemma_trail_shape(full@);
        text::lemma_blen_prefix(full@, full@.len() - text::trail(full@));
    }
    let line_start = span.start - byte_col;
    let limit = line_start + text.len();
    let end = if span.end < span.start {
        span.start
    } else if span.end > limit {
        limit
    } else {
        span.end
    };
    let col = text::char_col(text, byte_col);
    let upto = text::char_col(text, end - line_start);
    proof {
        text::lemma_chars_before_mono(text@, byte_col as int, (end - line_start) as int);
    }
    let mw = if upto - col >= 1 {
        upto - col
    } else {
        1
    };
    (line, text, col, mw)
}

/// Push the `   |` / `NN | <line>` / `   | ^^^ msg` part of a block.
///
/// A zero-width span still gets one marker, and a span reaching the next lines
/// is cut at the end of its first line.
fn snippet(
    out: &mut String,
    src: &str,
    line_index: &LineIndex,
    style: &Style,
    Ghost(colored): Ghost<bool>,
    width: usize,
    span: Span,
    marker: char,
    marker_style: &str,
    message: Option<&str>,
)
    requires
        src@ == line_index.source(),
        drawable(*line_index, span),
        style.gutter@ == gutter_style(colored),
        style.reset@ == reset_style(colored),
    ensures
        final(out)@ == old(out)@ + snippet_spec(
            *line_index,
            colored,
            width as nat,
            span,
            marker,
            marker_style@,
            path_view(message),
        ),
{
    let (line, text, col, mw) = snippet_place(src, line_index, span);
    let first = gutter_line_exec(style, Ghost(colored), width);
    let second = source_line_exec(style, Ghost(colored), width, line, text);
    let third = marker_line_exec(style, Ghost(colored), width, col, marker, marker_style, mw, message);
    let ghost before = out@;
    text::push_str(out, first.as_str());
    text::push_str(out, second.as_str());
    text::push_str(out, third.as_str());
    proof {
        assert(out@ =~= before + snippet_spec(
            *line_index,
            colored,
            width as nat,
            span,
            marker,
            marker_style@,
            path_view(message),
        ));
    }
}

impl Diagnostic {
    /// Return the severity of the diagnostic
    pub fn severity(&self) -> (r: Severity)
        ensures
            r == kind_severity(self.kind),
    {
        self.kind.severity()
    }

    /// Render the diagnostic as a single line, ending with a newline.
    ///
    /// The [`labels`](Self::labels) are dropped; use [`render`](Self::render)
    /// for the full block.
    ///
    /// ```text
    /// file.rep:2:1: error[irregular-indentation]: indentation is not a multiple of the indentation width
    /// ```
    pub fn render_short(
        &self,
        src: &str,
        line_index: &LineIndex,
        path: Option<&str>,
        colored: bool,
    ) -> (r: String)
        requires
            src@ == line_index.source(),
            char_boundary(
                text_at(*line_index, self.span.start as int),
                byte_col_at(*line_index, self.span.start as int),
            ),
        ensures
            r@ == short_spec(*self, *line_index, path_view(path), colored),
    {
        let (line, byte_col) = line_index.line_col(self.span.start);
        let text = line_index.line_text(src, line);
        let col = text::char_col(text, byte_col);
        proof {
            text::lemma_blen_ge_len(src@);
        }
        let style = Style::new(self.severity(), colored);
        let mut out = path_prefix_exec(path);
        let line_no = text::usize_to_string(line + 1);
        text::push_str(&mut out, line_no.as_str());
        text::push_str(&mut out, ":");
        let col_no = text::usize_to_string(col + 1);
        text::push_str(&mut out, col_no.as_str());
        text::push_str(&mut out, ": ");
        let head = headline_exec(&self.kind, &style, Ghost(colored));
        text::push_str(&mut out, head.as_str());
        text::push_str(&mut out, "\n");
        out
    }

    /// Widest line number of the block of this diagnostic, whose own line
    /// is `line`.
    fn width(&self, line_index: &LineIndex, line: usize) -> (r: usize)
        requires
            line == line_at(*line_index, self.span.start as int),
            line + 1 <= usize::MAX,
        ensures
            r == block_width(*line_index, self.labels@, line as int),
    {
        let mut width = digits(line + 1);
        let mut i: usize = 0;
        proof {
            assert(self.labels@.take(0) =~= Seq::<Label>::empty());
        }
        while i < self.labels.len()
            invariant
                i <= self.labels@.len(),
                line + 1 <= usize::MAX,
                width == block_width(*line_index, self.labels@.take(i as int), line as int),
            decreases self.labels@.len() - i,
        {
            let l = line_index.line_of(self.labels[i].span.start);
            let w = digits(l + 1);
            if w > width {
                width = w;
            }
            proof {
                assert(self.labels@.take(i + 1).drop_last() =~= self.labels@.take(i as int));
            }
            i = i + 1;
        }
        proof {
            assert(self.labels@.take(i as int) =~= self.labels@);
        }
        width
    }

    /// Render the diagnostic over several lines, quoting the offending source
    /// line, underlining [`span`](Self::span) with `^`, then one snippet per
    /// [`Label`] underlined with `-`.
    ///
    /// Every gutter of the block is as wide as its widest line number.
    ///
    /// ```text
    /// error[duplicate-node-found]: node `start` is declared more than once
    ///    --> file.rep:24:1
    ///    |
    /// 24 | := start
    ///    | ^^^^^^^^
    ///    |
    ///  3 | := start
    ///    | -------- first definition here
    /// ```
    pub fn render(&self, src: &str, line_index: &LineIndex, path: Option<&str>, colored: bool) -> (r:
        String)
        requires
            src@ == line_index.source(),
            renderable(*self, *line_index),
        ensures
            r@ == render_spec(*self, *line_index, path_view(path), colored),
    {
        let ghost li = *line_index;
        let (line, byte_col) = line_index.line_col(self.span.start);
        let text = line_index.line_text(src, line);
        let col = text::char_col(text, byte_col);
        proof {
            text::lemma_blen_ge_len(src@);
        }
        let style = Style::new(self.severity(), colored);
        let width = self.width(line_index, line);
        let mut out = headline_exec(&self.kind, &style, Ghost(colored));
        text::push_str(&mut out, "\n");
        let gutter = blanks(width);
        text::push_str(&mut out, gutter.as_str());
        text::push_str(&mut out, style.gutter);
        text::push_str(&mut out, " -->");
        text::push_str(&mut out, style.reset);
        text::push_str(&mut out, " ");
        let prefix = path_prefix_exec(path);
        text::push_str(&mut out, prefix.as_str());
        let line_no = text::usize_to_string(line + 1);
        text::push_str(&mut out, line_no.as_str());
        text::push_str(&mut out, ":");
        let col_no = text::usize_to_string(col + 1);
        text::push_str(&mut out, col_no.as_str());
        text::push_str(&mut out, "\n");
        snippet(
            &mut out,
            src,
            line_index,
            &style,
            Ghost(colored),
            width,
            self.span,
            '^',
            style.severity,
            None,
        );
        let ghost base = out@;
        let mut i: usize = 0;
        proof {
            assert(self.labels@.take(0) =~= Seq::<Label>::empty());
            assert(base + labels_spec(li, colored, width as nat, Seq::<Label>::empty()) =~= base);
        }
        while i < self.labels.len()
            invariant
                i <= self.labels@.len(),
                src@ == line_index.source(),
                li == *line_index,
                renderable(*self, li),
                style.gutter@ == gutter_style(colored),
                style.reset@ == reset_style(colored),
                style.label@ == label_style(colored),
                out@ == base + labels_spec(li, colored, width as nat, self.labels@.take(i as int)),
            decreases self.labels@.len() - i,
        {
            let label = &self.labels[i];
            let ghost prev = out@;
            snippet(
                &mut out,
                src,
                line_index,
                &style,
                Ghost(colored),
                width,
                label.span,
                '-',
                style.label,
                Some(label.message.as_str()),
            );
            proof {
                let t = self.labels@.take(i + 1);
                assert(t.drop_last() =~= self.labels@.take(i as int));
                assert(t.last() == self.labels@[i as int]);
                vstd::seq_lib::lemma_concat_associative(
                    base,
                    labels_spec(li, colored, width as nat, self.labels@.take(i as int)),
                    snippet_spec(
                        li,
                        colored,
                        width as nat,
                        label.span,
                        '-',
                        label_style(colored),
                        Some(label.message@),
                    ),
                );
            }
            i = i + 1;
        }
        proof {
            assert(self.labels@.take(i as int) =~= self.labels@);
        }
        out
    }
}

/// Number of diagnostics of `ds` with severity `sev`.
pub open spec fn count_severity(ds: Seq<Diagnostic>, sev: Severity) -> nat
    decreases ds.len(),
{
    if ds.len() == 0 {
        0
    } else {
        count_severity(ds.drop_last(), sev) + if kind_severity(ds.last().kind) == sev {
            1nat
        } else {
            0nat
        }
    }
}

/// Every diagnostic of `ds` is either an error or a warning.
pub proof fn lemma_errors_and_warnings(ds: Seq<Diagnostic>)
    ensures
        count_severity(ds, Severity::Error) + count_severity(ds, Severity::Warning) == ds.len(),
        count_severity(ds, Severity::Error) <= ds.len(),
        count_severity(ds, Severity::Warning) <= ds.len(),
    decreases ds.len(),
{
    if ds.len() > 0 {
        lemma_errors_and_warnings(ds.drop_last());
    }
}

/// One short line per diagnostic, in order.
pub open spec fn shorts_spec(
    ds: Seq<Diagnostic>,
    li: LineIndex,
    path: Option<Seq<char>>,
    colored: bool,
) -> Seq<char>
    decreases ds.len(),
{
    if ds.len() == 0 {
        Seq::empty()
    } else {
        shorts_spec(ds.drop_last(), li, path, colored) + short_spec(ds.last(), li, path, colored)
    }
}

/// One block per diagnostic, in order, separated by a blank line.
pub open spec fn blocks_spec(
    ds: Seq<Diagnostic>,
    li: LineIndex,
    path: Option<Seq<char>>,
    colored: bool,
) -> Seq<char>
    decreases ds.len(),
{
    if ds.len() == 0 {
        Seq::empty()
    } else if ds.len() == 1 {
        render_spec(ds[0], li, path, colored)
    } else {
        blocks_spec(ds.drop_last(), li, path, colored) + "\n"@ + render_spec(
            ds.last(),
            li,
            path,
            colored,
        )
    }
}

/// Whether the start of `d` falls between characters of its line.
pub open spec fn starts_on_char(d: Diagnostic, li: LineIndex) -> bool {
    char_boundary(text_at(li, d.span.start as int), byte_col_at(li, d.span.start as int))
}

/// The path as characters.
pub open spec fn owned_path_view(path: Option<String>) -> Option<Seq<char>> {
    match path {
        Some(p) => Some(p@),
        None => None,
    }
}

/// Every [`Diagnostic`] reported on a single source, in the order they were found.
pub struct Diagnostics {
    diags: Vec<Diagnostic>,
    line_index: LineIndex,
    path: Option<String>,
}

impl Diagnostics {
    /// The diagnostics, in the order they were reported.
    pub closed spec fn items(self) -> Seq<Diagnostic> {
        self.diags@
    }

    /// The index of the source the diagnostics are about.
    pub closed spec fn index(self) -> LineIndex {
        self.line_index
    }

    /// The path shown by both renderings.
    pub closed spec fn path(self) -> Option<Seq<char>> {
        owned_path_view(self.path)
    }

    /// Create an empty collection for the source `line_index` was built from.
    pub fn new(line_index: LineIndex) -> (r: Self)
        ensures
            r.items() == Seq::<Diagnostic>::empty(),
            r.index() == line_index,
            r.path() is None,
    {
        Diagnostics { diags: Vec::new(), line_index, path: None }
    }

    /// Create an empty collection directly from the source. Create LineIndex on its own.
    pub fn from_src(src: &str) -> (r: Self)
        requires
            text::blen(src@) < usize::MAX,
        ensures
            r.items() == Seq::<Diagnostic>::empty(),
            r.index().source() == src@,
            r.path() is None,
    {
        Self::new(LineIndex::new(src))
    }

    /// Attach the path shown by both renderings. Without it, they start directly at the line number.
    pub fn with_path(self, path: &str) -> (r: Self)
        ensures
            r.items() == self.items(),
            r.index() == self.index(),
            r.path() == Some(path@),
    {
        Diagnostics { diags: self.diags, line_index: self.line_index, path: Some(text::owned(path)) }
    }

    /// Whether nothing was reported.
    pub fn is_empty(&self) -> (r: bool)
        ensures
            r == (self.items().len() == 0),
    {
        self.diags.len() == 0
    }

    /// Number of diagnostics reported.
    pub fn len(&self) -> (r: usize)
        ensures
            r == self.items().len(),
    {
        self.diags.len()
    }

    /// Report a new [`Diagnostic`] at `span`, with no label.
    pub fn push(&mut self, span: Span, kind: DiagnosticKind)
        ensures
            final(self).index() == old(self).index(),
            final(self).path() == old(self).path(),
            final(self).items().len() == old(self).items().len() + 1,
            final(self).items().drop_last() == old(self).items(),
            final(self).items().last().kind == kind,
            final(self).items().last().span == span,
            final(self).items().last().labels@ == Seq::<Label>::empty(),
    {
        self.push_labeled(span, kind, Vec::new());
    }

    /// Report a new [`Diagnostic`] at `span`, pointing at related locations.
    pub fn push_labeled(&mut self, span: Span, kind: DiagnosticKind, labels: Vec<Label>)
        ensures
            final(self).index() == old(self).index(),
            final(self).path() == old(self).path(),
            final(self).items() == old(self).items().push(Diagnostic { kind, span, labels }),
    {
        self.diags.push(Diagnostic { kind, span, labels });
    }

    /// Number of diagnostics of severity `sev`.
    fn count(&self, sev: Severity) -> (r: usize)
        ensures
            r == count_severity(self.items(), sev),
    {
        let mut n: usize = 0;
        let mut i: usize = 0;
        proof {
            assert(self.diags@.take(0) =~= Seq::<Diagnostic>::empty());
        }
        while i < self.diags.len()
            invariant
                i <= self.diags@.len(),
                n == count_severity(self.diags@.take(i as int), sev),
                n <= i,
            decreases self.diags@.len() - i,
        {
            proof {
                assert(self.diags@.take(i + 1).drop_last() =~= self.diags@.take(i as int));
            }
            if self.diags[i].severity() == sev {
                n = n + 1;
            }
            i = i + 1;
        }
        proof {
            assert(self.diags@.take(i as int) =~= self.diags@);
        }
        n
    }

    /// Number of [`Severity::Error`] diagnostics.
    pub fn errors(&self) -> (r: usize)
        ensures
            r == count_severity(self.items(), Severity::Error),
    {
        self.count(Severity::Error)
    }

    /// Number of [`Severity::Warning`] diagnostics.
    pub fn warnings(&self) -> (r: usize)
        ensures
            r == count_severity(self.items(), Severity::Warning),
    {
        self.count(Severity::Warning)
    }

    /// The diagnostics, in the order they were reported.
    pub fn as_slice(&self) -> (r: &[Diagnostic])
        ensures
            r@ == self.items(),
    {
        self.diags.as_slice()
    }

    /// Iterate over the diagnostics, in the order they were reported.
    pub fn iter(&self) -> (r: std::slice::Iter<'_, Diagnostic>)
        ensures
            vstd::std_specs::slice::into_iter_elts(r) == self.items(),
    {
        self.diags.as_slice().iter()
    }

    /// Render every diagnostic as a single line, one per line.
    ///
    /// Returns an empty string when there is nothing to report.
    ///
    /// ```text
    /// file.rep:2:1: error[irregular-indentation]: indentation is not a multiple of the indentation width
    /// file.rep:3:5: error[tab-indentation]: indentation uses a tab, use spaces instead
    /// ```
    pub fn render_short(&self, src: &str, colored: bool) -> (r: String)
        requires
            src@ == self.index().source(),
            forall|i: int|
                0 <= i < self.items().len() ==> starts_on_char(#[trigger] self.items()[i], self.index()),
        ensures
            r@ == shorts_spec(self.items(), self.index(), self.path(), colored),
    {
        let path = match &self.path {
            Some(p) => Some(p.as_str()),
            None => None,
        };
        let mut out = String::new();
        let mut i: usize = 0;
        proof {
            assert(self.diags@.take(0) =~= Seq::<Diagnostic>::empty());
        }
        while i < self.diags.len()
            invariant
                i <= self.diags@.len(),
                src@ == self.index().source(),
                path_view(path) == self.path(),
                forall|k: int|
                    0 <= k < self.items().len() ==> starts_on_char(#[trigger] self.items()[k], self.index()),
                out@ == shorts_spec(self.diags@.take(i as int), self.index(), self.path(), colored),
            decreases self.diags@.len() - i,
        {
            proof {
                assert(starts_on_char(self.items()[i as int], self.index()));
            }
            let line = self.diags[i].render_short(src, &self.line_index, path, colored);
            text::push_str(&mut out, line.as_str());
            proof {
                assert(self.diags@.take(i + 1).drop_last() =~= self.diags@.take(i as int));
            }
            i = i + 1;
        }
        proof {
            assert(self.diags@.take(i as int) =~= self.diags@);
        }
        out
    }

    /// Render every diagnostic in full, one block per diagnostic separated by
    /// a blank line.
    ///
    /// ```text
    /// error[irregular-indentation]: indentation is not a multiple of the indentation width
    ///   --> file.rep:2:1
    ///   |
    /// 2 |    Alice: Hi!
    ///   | ^^^
    /// ```
    pub fn render(&self, src: &str, colored: bool) -> (r: String)
        requires
            src@ == self.index().source(),
            forall|i: int|
                0 <= i < self.items().len() ==> renderable(#[trigger] self.items()[i], self.index()),
        ensures
            r@ == blocks_spec(self.items(), self.index(), self.path(), colored),
    {
        let path = match &self.path {
            Some(p) => Some(p.as_str()),
            None => None,
        };
        let mut out = String::new();
        let mut i: usize = 0;
        proof {
            assert(self.diags@.take(0) =~= Seq::<Diagnostic>::empty());
        }
        while i < self.diags.len()
            invariant
                i <= self.diags@.len(),
                src@ == self.index().source(),
                path_view(path) == self.path(),
                forall|k: int|
                    0 <= k < self.items().len() ==> renderable(#[trigger] self.items()[k], self.index()),
                out@ == blocks_spec(self.diags@.take(i as int), self.index(), self.path(), colored),
            decreases self.diags@.len() - i,
        {
            if i > 0 {
                text::push_str(&mut out, "\n");
            }
            proof {
                assert(renderable(self.items()[i as int], self.index()));
            }
            let block = self.diags[i].render(src, &self.line_index, path, colored);
            text::push_str(&mut out, block.as_str());
            proof {
                let t = self.diags@.take(i + 1);
                assert(t.drop_last() =~= self.diags@.take(i as int));
                if i == 0 {
                    assert(Seq::<char>::empty() + block@ =~= block@);
                }
            }
            i = i + 1;
        }
        proof {
            assert(self.diags@.take(i as int) =~= self.diags@);
        }
        out
    }
}

/// What one report adds, as the user sees it: where, the code and the
/// message of its kind, and where and what its labels say.
pub type Report = (Span, Seq<char>, Seq<char>, Seq<(Span, Seq<char>)>);

/// Where and what the labels say.
pub open spec fn label_views(ls: Seq<Label>) -> Seq<(Span, Seq<char>)> {
    ls.map_values(|l: Label| (l.span, l.message@))
}

/// What a diagnostic says.
pub open spec fn report_of(d: Diagnostic) -> Report {
    (d.span, kind_code(d.kind), kind_message(d.kind), label_views(d.labels@))
}

/// The report of `kind` at `span`, with no label.
pub open spec fn plain(span: Span, kind: DiagnosticKind) -> Report {
    (span, kind_code(kind), kind_message(kind), Seq::empty())
}

/// Whether `after` is `before` followed by one diagnostic per report of
/// `added`, in order.
pub open spec fn reported(
    before: Seq<Diagnostic>,
    after: Seq<Diagnostic>,
    added: Seq<Report>,
) -> bool {
    &&& after.len() == before.len() + added.len()
    &&& forall|j: int| 0 <= j < before.len() ==> after[j] == before[j]
    &&& forall|j: int|
        0 <= j < added.len() ==> report_of(#[trigger] after[before.len() + j]) == added[j]
}

/// Reporting nothing leaves the diagnostics as they are.
pub proof fn lemma_reported_nothing(ds: Seq<Diagnostic>)
    ensures
        reported(ds, ds, Seq::empty()),
{
}

/// Reports made one after the other add up.
pub proof fn lemma_reported_chain(
    a: Seq<Diagnostic>,
    b: Seq<Diagnostic>,
    c: Seq<Diagnostic>,
    x: Seq<Report>,
    y: Seq<Report>,
)
    requires
        reported(a, b, x),
        reported(b, c, y),
    ensures
        reported(a, c, x + y),
{
    assert forall|j: int| 0 <= j < (x + y).len() implies report_of(#[trigger] c[a.len() + j]) == (x
        + y)[j] by {
        if j < x.len() {
            assert(c[a.len() + j] == b[a.len() + j]);
        } else {
            assert(c[a.len() + j] == c[b.len() + (j - x.len())]);
        }
    }
}

impl Diagnostics {
    /// Report a new [`Diagnostic`] at `span`, with no label, seen as a report.
    pub(crate) fn report(&mut self, span: Span, kind: DiagnosticKind)
        ensures
            final(self).index() == old(self).index(),
            final(self).path() == old(self).path(),
            reported(old(self).items(), final(self).items(), seq![plain(span, kind)]),
    {
        let ghost k = kind;
        self.push(span, kind);
        proof {
            let after = self.items();
            assert(after[old(self).items().len() as int] == after.last());
            assert(label_views(after.last().labels@) =~= Seq::<(Span, Seq<char>)>::empty());
            assert forall|j: int| 0 <= j < old(self).items().len() implies after[j] == old(
                self,
            ).items()[j] by {
                assert(after.drop_last()[j] == after[j]);
            }
        }
    }
}

impl Diagnostics {
    /// Report a new [`Diagnostic`] at `span`, pointing at related locations,
    /// seen as a report.
    pub(crate) fn report_labeled(&mut self, span: Span, kind: DiagnosticKind, labels: Vec<Label>)
        ensures
            final(self).index() == old(self).index(),
            final(self).path() == old(self).path(),
            reported(
                old(self).items(),
                final(self).items(),
                seq![(span, kind_code(kind), kind_message(kind), label_views(labels@))],
            ),
    {
        let ghost k = kind;
        let ghost ls = labels;
        self.push_labeled(span, kind, labels);
        proof {
            let after = self.items();
            assert(after[old(self).items().len() as int] == after.last());
        }
    }
}

/// Whether the byte `b` of `t` falls between two of its characters, or
/// past its end.
pub(crate) fn is_char_boundary(t: &str, b: usize) -> (r: bool)
    requires
        text::blen(t@) < usize::MAX,
    ensures
        r == char_boundary(t@, b as int),
{
    let cs = text::to_chars(t);
    let mut acc: usize = 0;
    let mut k: usize = 0;
    proof {
        assert(t@.take(0) =~= Seq::<char>::empty());
        text::lemma_blen_empty();
        text::lemma_blen_ge_len(t@);
    }
    while k < cs.len() && acc != b
        invariant
            cs@ == t@,
            k <= cs@.len(),
            text::blen(t@) < usize::MAX,
            acc == text::blen(t@.take(k as int)),
            forall|j: int| 0 <= j < k ==> text::blen(#[trigger] t@.take(j)) != b,
        decreases cs@.len() - k,
    {
        proof {
            text::lemma_blen_push(t@.take(k as int), t@[k as int]);
            assert(t@.take(k as int).push(t@[k as int]) =~= t@.take(k + 1));
            text::lemma_blen_prefix(t@, k + 1);
        }
        acc = acc + text::char_width(cs[k]);
        k = k + 1;
    }
    if acc == b {
        return true;
    }
    proof {
        assert(t@.take(cs@.len() as int) =~= t@);
        assert forall|j: int| 0 <= j <= t@.len() implies text::blen(#[trigger] t@.take(j)) != b by {
            if j == t@.len() {
                assert(t@.take(j) =~= t@);
            }
        }
    }
    acc <= b
}

/// Whether a snippet can underline `span` in `src`, as [`drawable`] says.
fn drawable_exec(li: &LineIndex, src: &str, span: Span) -> (r: bool)
    requires
        src@ == li.source(),
    ensures
        r == drawable(*li, span),
{
    let (line, col) = li.line_col(span.start);
    let line_text = li.line_text(src, line);
    let t = text::trim_end_str(line_text);
    proof {
        text::lemma_trail_shape(line_text@);
        text::lemma_blen_prefix(line_text@, t@.len() as int);
        assert(t@ =~= line_text@.take(t@.len() as int));
        text::lemma_str_len(t);
    }
    let tl = t.len();
    let ls = span.start - col;
    if span.start > ls + tl {
        return false;
    }
    let end = if span.end < span.start {
        span.start
    } else if span.end > ls + tl {
        ls + tl
    } else {
        span.end
    };
    is_char_boundary(t, col) && is_char_boundary(t, end - ls)
}

/// Whether `d` can be drawn on `src`, as [`renderable`] says.
fn renderable_exec(d: &Diagnostic, li: &LineIndex, src: &str) -> (r: bool)
    requires
        src@ == li.source(),
    ensures
        r == renderable(*d, *li),
{
    let total = li.source_bytes(src);
    if d.span.end > total {
        return false;
    }
    let (line, col) = li.line_col(d.span.start);
    let line_text = li.line_text(src, line);
    if !is_char_boundary(line_text, col) {
        return false;
    }
    if !drawable_exec(li, src, d.span) {
        return false;
    }
    let mut i: usize = 0;
    while i < d.labels.len()
        invariant
            i <= d.labels@.len(),
            src@ == li.source(),
            forall|j: int| 0 <= j < i ==> drawable(*li, #[trigger] d.labels@[j].span),
        decreases d.labels@.len() - i,
    {
        if !drawable_exec(li, src, d.labels[i].span) {
            return false;
        }
        i = i + 1;
    }
    true
}

impl Diagnostics {
    /// Whether every diagnostic can be drawn on `src`, the source they are
    /// about: their spans stay in it, start within the text of their line,
    /// and fall between characters. What [`Diagnostics::render`] asks.
    pub fn can_render(&self, src: &str) -> (r: bool)
        requires
            src@ == self.index().source(),
        ensures
            r == forall|i: int| 0 <= i < self.items().len() ==> renderable(#[trigger] self.items()[i], self.index()),
    {
        let mut i: usize = 0;
        while i < self.diags.len()
            invariant
                i <= self.diags@.len(),
                src@ == self.index().source(),
                forall|j: int| 0 <= j < i ==> renderable(#[trigger] self.items()[j], self.index()),
            decreases self.diags@.len() - i,
        {
            if !renderable_exec(&self.diags[i], &self.line_index, src) {
                proof {
                    assert(self.items()[i as int] == self.diags@[i as int]);
                    assert(!renderable(self.items()[i as int], self.index()));
                }
                return false;
            }
            i = i + 1;
        }
        true
    }

    /// Whether every diagnostic starts between two characters of `src`, the
    /// source they are about. What [`Diagnostics::render_short`] asks.
    pub fn can_render_short(&self, src: &str) -> (r: bool)
        requires
            src@ == self.index().source(),
        ensures
            r == forall|i: int| 0 <= i < self.items().len() ==> starts_on_char(#[trigger] self.items()[i], self.index()),
    {
        let mut i: usize = 0;
        while i < self.diags.len()
            invariant
                i <= self.diags@.len(),
                src@ == self.index().source(),
                forall|j: int| 0 <= j < i ==> starts_on_char(#[trigger] self.items()[j], self.index()),
            decreases self.diags@.len() - i,
        {
            let (line, col) = self.line_index.line_col(self.diags[i].span.start);
            let line_text = self.line_index.line_text(src, line);
            if !is_char_boundary(line_text, col) {
                proof {
                    assert(self.items()[i as int] == self.diags@[i as int]);
                    assert(!starts_on_char(self.items()[i as int], self.index()));
                }
                return false;
            }
            i = i + 1;
        }
        true
    }
}

} // verus!
