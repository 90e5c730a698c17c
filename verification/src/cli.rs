//! What the command line tool decides once the files are read: which files
//! it checks, the summary it prints, and how it exits.

use vstd::prelude::*;

use crate::text;

verus! {

/// Extensions of the files the tool checks, compared without regard to
/// ASCII case.
pub const EXTENSIONS: [&'static str; 2] = ["rep", "replique"];

/// How a check ended.
#[derive(Debug, Clone, Copy, PartialEq, Eq, Structural)]
pub enum Outcome {
    /// Nothing to report, or warnings that are not taken as errors.
    Clean,
    /// At least one error.
    Errors,
}

/// The code of `c` in lower case, for the ASCII letters.
pub open spec fn ascii_lower(c: char) -> u32 {
    if 'A' <= c <= 'Z' {
        ((c as u32) + 32) as u32
    } else {
        c as u32
    }
}

/// Whether `a` and `b` are the same text once ASCII letters are lowered.
pub open spec fn eq_ignore_ascii_case(a: Seq<char>, b: Seq<char>) -> bool {
    a.len() == b.len() && forall|i: int| 0 <= i < a.len() ==> ascii_lower(#[trigger] a[i]) == ascii_lower(b[i])
}

/// Whether a file whose extension is `extension` is one the tool checks:
/// `rep` or `replique`, whatever the ASCII case.
pub open spec fn rep_extension(extension: Option<Seq<char>>) -> bool {
    match extension {
        Some(e) => eq_ignore_ascii_case(e, "rep"@) || eq_ignore_ascii_case(e, "replique"@),
        None => false,
    }
}

/// The code of `c` in lower case, for the ASCII letters.
fn lower(c: char) -> (r: u32)
    ensures
        r == ascii_lower(c),
{
    if 'A' <= c && c <= 'Z' {
        (c as u32) + 32
    } else {
        c as u32
    }
}

/// Whether `a` and `b` are the same text once ASCII letters are lowered.
fn same_ignoring_case(a: &str, b: &str) -> (r: bool)
    ensures
        r == eq_ignore_ascii_case(a@, b@),
{
    let ca = text::to_chars(a);
    let cb = text::to_chars(b);
    if ca.len() != cb.len() {
        return false;
    }
    let mut i: usize = 0;
    while i < ca.len()
        invariant
            ca@ == a@,
            cb@ == b@,
            ca@.len() == cb@.len(),
            i <= ca@.len(),
            forall|j: int| 0 <= j < i ==> ascii_lower(#[trigger] ca@[j]) == ascii_lower(cb@[j]),
        decreases ca@.len() - i,
    {
        if lower(ca[i]) != lower(cb[i]) {
            return false;
        }
        i = i + 1;
    }
    true
}

/// Whether a file whose extension is `extension` is one the tool checks.
pub fn is_rep_file(extension: Option<&str>) -> (r: bool)
    ensures
        r == rep_extension(
            match extension {
                Some(e) => Some(e@),
                None => None,
            },
        ),
{
    match extension {
        Some(e) => {
            proof {
                reveal_strlit("rep");
                reveal_strlit("replique");
            }
            same_ignoring_case(e, EXTENSIONS[0]) || same_ignoring_case(e, EXTENSIONS[1])
        },
        None => false,
    }
}

/// How a check of files with `errors` errors and `warnings` warnings ends:
/// with errors when there is one, counting the warnings as errors when
/// asked to.
pub open spec fn outcome_spec(errors: nat, warnings: nat, warnings_as_errors: bool) -> Outcome {
    if errors > 0 || (warnings_as_errors && warnings > 0) {
        Outcome::Errors
    } else {
        Outcome::Clean
    }
}

/// How a check ends.
pub fn outcome(errors: usize, warnings: usize, warnings_as_errors: bool) -> (r: Outcome)
    ensures
        r == outcome_spec(errors as nat, warnings as nat, warnings_as_errors),
{
    if errors > 0 || (warnings_as_errors && warnings > 0) {
        Outcome::Errors
    } else {
        Outcome::Clean
    }
}

/// The line that ends a check: `2 error(s), 1 warning(s) in 3 file(s)`.
pub open spec fn summary_spec(errors: nat, warnings: nat, files: nat) -> Seq<char> {
    text::decimal(errors) + " error(s), "@ + text::decimal(warnings) + " warning(s) in "@ + text::decimal(files)
        + " file(s)"@
}

/// The line that ends a check.
pub fn summary(errors: usize, warnings: usize, files: usize) -> (r: String)
    ensures
        r@ == summary_spec(errors as nat, warnings as nat, files as nat),
{
    let mut out = text::usize_to_string(errors);
    text::push_str(&mut out, " error(s), ");
    text::push_str(&mut out, text::usize_to_string(warnings).as_str());
    text::push_str(&mut out, " warning(s) in ");
    text::push_str(&mut out, text::usize_to_string(files).as_str());
    text::push_str(&mut out, " file(s)");
    out
}

} // verus!
