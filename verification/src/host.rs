//! What the engine hosting a dialogue hands in: how the player resumes a
//! suspended dialogue, and why a value written in a line could not be read
//! as the type a command asked for.

use vstd::prelude::*;

use crate::runtime::{value_type_name, ResumeEvent, ValueType};
use crate::text;

verus! {

/// How a suspended dialogue is resumed.
///
/// The variant must match what the runner is waiting on, otherwise the runner
/// reports an error and the dialogue stays suspended.
#[derive(Debug, Clone, Copy, PartialEq, Eq, Structural)]
pub enum ResumeInput {
    /// Move to the next step, in answer to a line or a command.
    Advance,
    /// Follow the choice at this index, in answer to a set of choices.
    Select(usize),
}

impl ResumeInput {
    /// The answer the dialogue takes for this input.
    pub fn to_resume_event(&self) -> (r: ResumeEvent)
        ensures
            r == (match *self {
                ResumeInput::Advance => ResumeEvent::Advance,
                ResumeInput::Select(i) => ResumeEvent::Select(i),
            }),
    {
        match self {
            ResumeInput::Advance => ResumeEvent::Advance,
            ResumeInput::Select(i) => ResumeEvent::Select(*i),
        }
    }
}

/// Why a value could not be read as the type asked for. It is worded in the
/// terms the dialogue is written in (`dict` and `int`) because whoever reads
/// it wrote the line that failed.
///
/// [`Key`](ValueError::Key) says where: a failure inside a dict is put back
/// under the key it happened in, so a failure several levels down names the
/// whole path.
#[derive(Debug, PartialEq)]
pub enum ValueError {
    /// Nothing written where a value was expected.
    Missing,
    /// A value of the wrong type.
    Type {
        /// The type as the dialogue names it, `"dict"` rather than a host type.
        expected: &'static str,
        got: ValueType,
    },
    /// A word outside the ones a type knows.
    Unknown { expected: &'static str, got: String },
    /// Something under a key of a dict, named by that key.
    Key { key: String, source: Box<ValueError> },
}

/// The message of an error: the keys it happened under, outermost first,
/// then what went wrong.
pub open spec fn value_error_message(e: ValueError) -> Seq<char>
    decreases e,
{
    match e {
        ValueError::Missing => "missing"@,
        ValueError::Type { expected, got } => "expected "@ + expected@ + ", got "@
            + value_type_name(got),
        ValueError::Unknown { expected, got } => "`"@ + got@ + "` is not a `"@ + expected@ + "`"@,
        ValueError::Key { key, source } => "key `"@ + key@ + "`: "@ + value_error_message(*source),
    }
}

impl ValueError {
    /// Put a failure back under the key it happened in, on the way out of a
    /// dict. This is what builds the path an error names.
    pub fn under_key(self, key: String) -> (r: Self)
        ensures
            r == (ValueError::Key { key, source: Box::new(self) }),
    {
        ValueError::Key { key, source: Box::new(self) }
    }

    /// The message of the error.
    pub fn to_string(&self) -> (r: String)
        ensures
            r@ == value_error_message(*self),
        decreases self,
    {
        match self {
            ValueError::Missing => text::owned("missing"),
            ValueError::Type { expected, got } => {
                let mut out = text::owned("expected ");
                text::push_str(&mut out, expected);
                text::push_str(&mut out, ", got ");
                let name = got.to_string();
                text::push_str(&mut out, name.as_str());
                out
            },
            ValueError::Unknown { expected, got } => {
                let mut out = text::owned("`");
                text::push_str(&mut out, got.as_str());
                text::push_str(&mut out, "` is not a `");
                text::push_str(&mut out, expected);
                text::push_str(&mut out, "`");
                out
            },
            ValueError::Key { key, source } => {
                let mut out = text::owned("key `");
                text::push_str(&mut out, key.as_str());
                text::push_str(&mut out, "`: ");
                let inner = source.to_string();
                text::push_str(&mut out, inner.as_str());
                out
            },
        }
    }
}

} // verus!
