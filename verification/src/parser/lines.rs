//! First pass of the parser: split the source into raw lines and identify the
//! kind of each one.
//!
//! Every line of the source is trimmed, stripped of its comment, and classified
//! into a [`LineKind`] based on its leading marker (`:=`, `---`, `->`, `=>`,
//! `>>`, or a `speaker:` prefix). The payload that follows the marker is kept as
//! a raw [`Spanned`] slice: this pass only decides *what* a line is, it does not
//! parse its content. That work is left to the lexer, which runs on the
//! [`RawLine`] produced here.

use vstd::prelude::*;

use crate::parser::diagnostic::{plain, reported, DiagnosticKind, Diagnostics, Report};
use crate::parser::{line_starts_of, line_text_spec, nl_starts, trimmed_span, LineIndex, Span, Spanned};
use crate::text;

verus! {



/// A piece of text and its position, as the contracts see a `Spanned<&str>`.
pub struct TextView {
    pub value: Seq<char>,
    pub span: Span,
}

/// What a `Spanned<&str>` holds.
pub open spec fn tv(s: Spanned<&str>) -> TextView {
    TextView { value: s.value@, span: s.span }
}

/// What an optional `Spanned<&str>` holds.
pub open spec fn opt_tv(s: Option<Spanned<&str>>) -> Option<TextView> {
    match s {
        Some(x) => Some(tv(x)),
        None => None,
    }
}

/// `text` trimmed, with the span [`Spanned::from_text`] gives it.
#[verifier::opaque]
pub open spec fn from_text_view(text: Seq<char>, offset: int) -> TextView {
    TextView { value: text::trim(text), span: trimmed_span(text, offset) }
}

/// Kind of a line, along with the part of the line that follows its marker.
///
/// The payloads are raw, unparsed slices of the source; see the [module
/// documentation](self) for why.
#[derive(Debug, PartialEq, Clone, Copy)]
pub enum LineKind<'a> {
    /// `:= <src>` - starts a node named `<src>`.
    NodeStart(Spanned<&'a str>),
    /// `---` - ends the current node.
    NodeEnd,
    /// `<speaker>: <text>` - a line of dialogue.
    Say {
        /// The speaker, or `None`.
        speaker: Option<Spanned<&'a str>>,
        /// What is being said.
        text: Spanned<&'a str>,
    },
    /// `-> <src>` - a choice offered to the player.
    Choice(Spanned<&'a str>),
    /// `=> <src>` - a jump to the node named `<src>`.
    Jump(Spanned<&'a str>),
    /// `>> <src>` - a command to execute on the engine.
    Command(Spanned<&'a str>),
    /// `[let <src>]` - assigns a variable.
    Let(Spanned<&'a str>),
    /// `[if <src>]` - opens a conditional block.
    If(Spanned<&'a str>),
    /// `[elif <src>]` - another condition of the block before it.
    Elif(Spanned<&'a str>),
    /// `[else]` - what the block before it does when no condition holds.
    /// Keeps its payload, which must be empty, so that `[else oups]` can be
    /// reported.
    Else(Spanned<&'a str>),
    /// `[while <src>]` - opens a loop.
    While(Spanned<&'a str>),
    /// `[break]` - leaves the loop around it.
    Break(Spanned<&'a str>),
    /// `[continue]` - starts the next turn of the loop around it.
    Continue(Spanned<&'a str>),
    /// A line matching no known marker. Holds the whole line so that the error
    /// can be reported later without losing what the author actually wrote.
    Malformed(Spanned<&'a str>),
}

/// What a [`LineKind`] holds.
pub enum LineKindView {
    NodeStart(TextView),
    NodeEnd,
    Say { speaker: Option<TextView>, text: TextView },
    Choice(TextView),
    Jump(TextView),
    Command(TextView),
    Let(TextView),
    If(TextView),
    Elif(TextView),
    Else(TextView),
    While(TextView),
    Break(TextView),
    Continue(TextView),
    Malformed(TextView),
}

impl<'a> LineKind<'a> {
    /// What the kind holds, its payloads seen as characters.
    pub open spec fn view(self) -> LineKindView {
        match self {
            LineKind::NodeStart(s) => LineKindView::NodeStart(tv(s)),
            LineKind::NodeEnd => LineKindView::NodeEnd,
            LineKind::Say { speaker, text } => LineKindView::Say {
                speaker: opt_tv(speaker),
                text: tv(text),
            },
            LineKind::Choice(s) => LineKindView::Choice(tv(s)),
            LineKind::Jump(s) => LineKindView::Jump(tv(s)),
            LineKind::Command(s) => LineKindView::Command(tv(s)),
            LineKind::Let(s) => LineKindView::Let(tv(s)),
            LineKind::If(s) => LineKindView::If(tv(s)),
            LineKind::Elif(s) => LineKindView::Elif(tv(s)),
            LineKind::Else(s) => LineKindView::Else(tv(s)),
            LineKind::While(s) => LineKindView::While(tv(s)),
            LineKind::Break(s) => LineKindView::Break(tv(s)),
            LineKind::Continue(s) => LineKindView::Continue(tv(s)),
            LineKind::Malformed(s) => LineKindView::Malformed(tv(s)),
        }
    }
}

/// Whether every character of `s` is ASCII.
pub open spec fn all_ascii(s: Seq<char>) -> bool {
    forall|i: int| 0 <= i < s.len() ==> (#[trigger] s[i] as u32) < 0x80
}

/// What follows `marker` at the start of `text`, when a blank or the end of
/// the line comes right after it.
pub open spec fn strip_marker_spec(text: Seq<char>, marker: Seq<char>, offset: int) -> Option<
    TextView,
> {
    if text::has_prefix_at(text, 0, marker) {
        let rest = text.skip(marker.len() as int);
        if rest.len() == 0 || text::is_ws(rest[0]) {
            Some(from_text_view(rest, offset + text::blen(marker)))
        } else {
            None
        }
    } else {
        None
    }
}

/// What follows the bracketed `marker` at the start of `text`, when it
/// cannot continue a word.
pub open spec fn strip_bracket_spec(text: Seq<char>, marker: Seq<char>, offset: int) -> Option<
    TextView,
> {
    if text::has_prefix_at(text, 0, marker) {
        let rest = text.skip(marker.len() as int);
        if rest.len() > 0 && (text::unicode_alphanumeric(rest[0]) || rest[0] == '_') {
            None
        } else {
            Some(from_text_view(rest, offset + text::blen(marker)))
        }
    } else {
        None
    }
}

/// Whether `c` is one of the characters markers are made of.
pub open spec fn is_marker_char(c: char) -> bool {
    c == '-' || c == '=' || c == ':' || c == '>'
}

/// Number of marker characters `s` starts with.
pub open spec fn marker_run(s: Seq<char>) -> nat
    decreases s.len(),
{
    if s.len() > 0 && is_marker_char(s[0]) {
        1 + marker_run(s.drop_first())
    } else {
        0
    }
}

/// [`marker_run`] is the first character that is not a marker character.
pub proof fn lemma_marker_run(s: Seq<char>, k: int)
    requires
        0 <= k <= s.len(),
        forall|i: int| 0 <= i < k ==> is_marker_char(#[trigger] s[i]),
        k == s.len() || !is_marker_char(s[k]),
    ensures
        marker_run(s) == k,
    decreases k,
{
    if k > 0 {
        assert forall|i: int| 0 <= i < k - 1 implies is_marker_char(#[trigger] s.drop_first()[i]) by {
            assert(s.drop_first()[i] == s[i + 1]);
        }
        if k < s.len() {
            assert(s.drop_first()[k - 1] == s[k]);
        }
        lemma_marker_run(s.drop_first(), k - 1);
    }
}

/// A deformed marker (`----`, `==>`, `:==`) at the start of `text`.
pub open spec fn malformed_spec(text: Seq<char>, offset: int) -> Option<TextView> {
    let n = marker_run(text);
    if n >= 2 {
        Some(TextView { value: text.take(n as int), span: Span { start: offset as usize, end: (offset + n) as usize } })
    } else {
        None
    }
}

/// A line of dialogue: the speaker before the first `:`, when there is
/// one, and what is said.
pub open spec fn split_speaker_spec(text: Seq<char>, offset: int) -> LineKindView {
    match text.index_of_first(':') {
        Some(p) if text::trim(text.take(p)).len() > 0 => LineKindView::Say {
            speaker: Some(from_text_view(text::trim(text.take(p)), offset)),
            text: from_text_view(text.skip(p + 1), offset + text::blen(text.take(p)) + 1),
        },
        _ => LineKindView::Say { speaker: None, text: from_text_view(text, offset) },
    }
}

/// Kind of the line `text`, standing at byte `offset`: the first marker that
/// matches wins, and a line matching none is said by its speaker, if any.
#[verifier::opaque]
pub open spec fn classify_spec(text: Seq<char>, offset: int) -> LineKindView {
    if text == seq!['-', '-', '-'] {
        LineKindView::NodeEnd
    } else {
        arrows_spec(text, offset)
    }
}

/// The markers `:=`, `=>`, `->` and `>>`, tried in that order.
pub open spec fn arrows_spec(text: Seq<char>, offset: int) -> LineKindView {
    if strip_marker_spec(text, seq![':', '='], offset) is Some {
        LineKindView::NodeStart(strip_marker_spec(text, seq![':', '='], offset)->0)
    } else if strip_marker_spec(text, seq!['=', '>'], offset) is Some {
        LineKindView::Jump(strip_marker_spec(text, seq!['=', '>'], offset)->0)
    } else if strip_marker_spec(text, seq!['-', '>'], offset) is Some {
        LineKindView::Choice(strip_marker_spec(text, seq!['-', '>'], offset)->0)
    } else if strip_marker_spec(text, seq!['>', '>'], offset) is Some {
        LineKindView::Command(strip_marker_spec(text, seq!['>', '>'], offset)->0)
    } else {
        brackets_spec(text, offset)
    }
}

/// The bracketed markers, tried in order: `[let`, `[if`, `[elif`, `[else`.
pub open spec fn brackets_spec(text: Seq<char>, offset: int) -> LineKindView {
    if strip_bracket_spec(text, seq!['[', 'l', 'e', 't'], offset) is Some {
        LineKindView::Let(strip_bracket_spec(text, seq!['[', 'l', 'e', 't'], offset)->0)
    } else if strip_bracket_spec(text, seq!['[', 'i', 'f'], offset) is Some {
        LineKindView::If(strip_bracket_spec(text, seq!['[', 'i', 'f'], offset)->0)
    } else if strip_bracket_spec(text, seq!['[', 'e', 'l', 'i', 'f'], offset) is Some {
        LineKindView::Elif(strip_bracket_spec(text, seq!['[', 'e', 'l', 'i', 'f'], offset)->0)
    } else if strip_bracket_spec(text, seq!['[', 'e', 'l', 's', 'e'], offset) is Some {
        LineKindView::Else(strip_bracket_spec(text, seq!['[', 'e', 'l', 's', 'e'], offset)->0)
    } else {
        loops_spec(text, offset)
    }
}

/// The loop markers `[while`, `[break`, `[continue`, then a deformed marker,
/// then a line of dialogue.
pub open spec fn loops_spec(text: Seq<char>, offset: int) -> LineKindView {
    if strip_bracket_spec(text, seq!['[', 'w', 'h', 'i', 'l', 'e'], offset) is Some {
        LineKindView::While(strip_bracket_spec(text, seq!['[', 'w', 'h', 'i', 'l', 'e'], offset)->0)
    } else if strip_bracket_spec(text, seq!['[', 'b', 'r', 'e', 'a', 'k'], offset) is Some {
        LineKindView::Break(strip_bracket_spec(text, seq!['[', 'b', 'r', 'e', 'a', 'k'], offset)->0)
    } else if strip_bracket_spec(text, seq!['[', 'c', 'o', 'n', 't', 'i', 'n', 'u', 'e'], offset) is Some {
        LineKindView::Continue(
            strip_bracket_spec(text, seq!['[', 'c', 'o', 'n', 't', 'i', 'n', 'u', 'e'], offset)->0,
        )
    } else {
        rest_spec(text, offset)
    }
}

/// A deformed marker, then a line of dialogue.
pub open spec fn rest_spec(text: Seq<char>, offset: int) -> LineKindView {
    if malformed_spec(text, offset) is Some {
        LineKindView::Malformed(malformed_spec(text, offset)->0)
    } else {
        split_speaker_spec(text, offset)
    }
}

/// `t` with its span moved `o` bytes further.
pub open spec fn shift_tv(t: TextView, o: int) -> TextView {
    TextView {
        value: t.value,
        span: Span { start: (t.span.start + o) as usize, end: (t.span.end + o) as usize },
    }
}

/// An optional piece with its span moved `o` bytes further.
pub open spec fn shift_opt(t: Option<TextView>, o: int) -> Option<TextView> {
    match t {
        Some(x) => Some(shift_tv(x, o)),
        None => None,
    }
}

/// A line kind with every span it holds moved `o` bytes further.
pub open spec fn shift_kind(k: LineKindView, o: int) -> LineKindView {
    match k {
        LineKindView::NodeStart(t) => LineKindView::NodeStart(shift_tv(t, o)),
        LineKindView::NodeEnd => LineKindView::NodeEnd,
        LineKindView::Say { speaker, text } => LineKindView::Say {
            speaker: shift_opt(speaker, o),
            text: shift_tv(text, o),
        },
        LineKindView::Choice(t) => LineKindView::Choice(shift_tv(t, o)),
        LineKindView::Jump(t) => LineKindView::Jump(shift_tv(t, o)),
        LineKindView::Command(t) => LineKindView::Command(shift_tv(t, o)),
        LineKindView::Let(t) => LineKindView::Let(shift_tv(t, o)),
        LineKindView::If(t) => LineKindView::If(shift_tv(t, o)),
        LineKindView::Elif(t) => LineKindView::Elif(shift_tv(t, o)),
        LineKindView::Else(t) => LineKindView::Else(shift_tv(t, o)),
        LineKindView::While(t) => LineKindView::While(shift_tv(t, o)),
        LineKindView::Break(t) => LineKindView::Break(shift_tv(t, o)),
        LineKindView::Continue(t) => LineKindView::Continue(shift_tv(t, o)),
        LineKindView::Malformed(t) => LineKindView::Malformed(shift_tv(t, o)),
    }
}

/// Trimming a text standing `o` bytes further moves its span by `o`.
proof fn lemma_from_text_view_shift(t: Seq<char>, a: int, o: int)
    requires
        0 <= a,
        0 <= o,
        a + o + text::blen(t) <= usize::MAX,
    ensures
        from_text_view(t, a + o) == shift_tv(from_text_view(t, a), o),
{
    reveal(from_text_view);
    text::lemma_trim_range(t);
    let l = text::lead(t) as int;
    let e = t.len() - text::trail(text::trim_start(t));
    text::lemma_blen_subrange(t, l, e);
    assert(t.take(e).take(l) =~= t.take(l));
    assert(text::trim(t) =~= t.subrange(l, e));
}

/// A marker's payload, read `o` bytes further, moves by `o`.
proof fn lemma_strip_marker_shift(text: Seq<char>, marker: Seq<char>, o: int)
    requires
        0 <= o,
        o + text::blen(text) <= usize::MAX,
    ensures
        strip_marker_spec(text, marker, o) == shift_opt(strip_marker_spec(text, marker, 0), o),
        strip_bracket_spec(text, marker, o) == shift_opt(strip_bracket_spec(text, marker, 0), o),
{
    if text::has_prefix_at(text, 0, marker) {
        let rest = text.skip(marker.len() as int);
        assert(text =~= marker + rest);
        text::lemma_blen_add(marker, rest);
        lemma_from_text_view_shift(rest, text::blen(marker) as int, o);
    }
}

/// A line of dialogue read `o` bytes further moves by `o`.
proof fn lemma_split_speaker_shift(text: Seq<char>, o: int)
    requires
        0 <= o,
        o + text::blen(text) <= usize::MAX,
    ensures
        split_speaker_spec(text, o) == shift_kind(split_speaker_spec(text, 0), o),
{
    text.index_of_first_ensures(':');
    lemma_from_text_view_shift(text, 0, o);
    match text.index_of_first(':') {
        Some(p) => {
            text::lemma_blen_prefix(text, p);
            text::lemma_blen_prefix(text, p + 1);
            text::lemma_blen_push(text.take(p), ':');
            assert(text.take(p).push(':') =~= text.take(p + 1));
            text::lemma_blen_trim(text.take(p));
            lemma_from_text_view_shift(text::trim(text.take(p)), 0, o);
            lemma_from_text_view_shift(text.skip(p + 1), text::blen(text.take(p)) + 1int, o);
        },
        None => {},
    }
}

/// Classifying a line read `o` bytes further into the source gives the same
/// kind with the same payloads, every span moved by `o`.
pub proof fn lemma_classify_shift(text: Seq<char>, o: int)
    requires
        0 <= o,
        o + text::blen(text) <= usize::MAX,
    ensures
        classify_spec(text, o) == shift_kind(classify_spec(text, 0), o),
{
    reveal(classify_spec);
    lemma_strip_marker_shift(text, seq![':', '='], o);
    lemma_strip_marker_shift(text, seq!['=', '>'], o);
    lemma_strip_marker_shift(text, seq!['-', '>'], o);
    lemma_strip_marker_shift(text, seq!['>', '>'], o);
    lemma_strip_marker_shift(text, seq!['[', 'l', 'e', 't'], o);
    lemma_strip_marker_shift(text, seq!['[', 'i', 'f'], o);
    lemma_strip_marker_shift(text, seq!['[', 'e', 'l', 'i', 'f'], o);
    lemma_strip_marker_shift(text, seq!['[', 'e', 'l', 's', 'e'], o);
    lemma_strip_marker_shift(text, seq!['[', 'w', 'h', 'i', 'l', 'e'], o);
    lemma_strip_marker_shift(text, seq!['[', 'b', 'r', 'e', 'a', 'k'], o);
    lemma_strip_marker_shift(text, seq!['[', 'c', 'o', 'n', 't', 'i', 'n', 'u', 'e'], o);
    lemma_split_speaker_shift(text, o);
    text::lemma_blen_ge_len(text);
    let n = marker_run(text);
    if n >= 2 {
        assert(n <= text.len()) by {
            lemma_marker_run_le(text);
        }
    }
}

/// A run of marker characters lies inside the text.
proof fn lemma_marker_run_le(s: Seq<char>)
    ensures
        marker_run(s) <= s.len(),
    decreases s.len(),
{
    if s.len() > 0 && is_marker_char(s[0]) {
        lemma_marker_run_le(s.drop_first());
    }
}

/// The first `k` characters of `cs`, all ASCII, take `k` bytes.
proof fn lemma_ascii_prefix_bytes(cs: Seq<char>, marker: Seq<char>)
    requires
        text::has_prefix_at(cs, 0, marker),
        all_ascii(marker),
    ensures
        text::blen(cs.take(marker.len() as int)) == marker.len(),
        text::blen(marker) == marker.len(),
{
    assert(cs.take(marker.len() as int) =~= cs.subrange(0, marker.len() as int));
    text::lemma_blen_ascii(marker);
}

/// What follows `marker` at the start of `text`, when a blank or the end of
/// the line comes right after it.
fn strip_marker<'a>(text: &'a str, cs: &Vec<char>, marker: &[char], offset: usize) -> (r: Option<
    Spanned<&'a str>,
>)
    requires
        cs@ == text@,
        all_ascii(marker@),
        offset + text::blen(text@) <= usize::MAX,
    ensures
        opt_tv(r) == strip_marker_spec(text@, marker@, offset as int),
{
    if !text::starts_with_at(cs, 0, marker) {
        return None;
    }
    let k = marker.len();
    let n = cs.len();
    proof {
        reveal(from_text_view);
        lemma_ascii_prefix_bytes(cs@, marker@);
        text::lemma_blen_prefix(cs@, k as int);
        assert(cs@.subrange(k as int, n as int) =~= text@.skip(k as int));
    }
    if k == n || text::is_whitespace(cs[k]) {
        let rest = text::slice(text, k, n);
        Some(Spanned::from_text(rest, offset + k))
    } else {
        None
    }
}

/// What follows the bracketed `marker` at the start of `text`, when it
/// cannot continue a word.
///
/// Unlike the other markers, a blank is not required: `[let]` is an empty
/// assignment, reported as such, rather than a line of text that happens to
/// start with a bracket. `[letter` stays a line of text.
fn strip_bracket<'a>(text: &'a str, cs: &Vec<char>, marker: &[char], offset: usize) -> (r: Option<
    Spanned<&'a str>,
>)
    requires
        cs@ == text@,
        all_ascii(marker@),
        offset + text::blen(text@) <= usize::MAX,
    ensures
        opt_tv(r) == strip_bracket_spec(text@, marker@, offset as int),
{
    if !text::starts_with_at(cs, 0, marker) {
        return None;
    }
    let k = marker.len();
    let n = cs.len();
    proof {
        reveal(from_text_view);
        lemma_ascii_prefix_bytes(cs@, marker@);
        text::lemma_blen_prefix(cs@, k as int);
        assert(cs@.subrange(k as int, n as int) =~= text@.skip(k as int));
    }
    if k < n && (text::is_alphanumeric(cs[k]) || cs[k] == '_') {
        None
    } else {
        let rest = text::slice(text, k, n);
        Some(Spanned::from_text(rest, offset + k))
    }
}

/// Catches deformed markers (`----`, `==>`, `:==`)
fn malformed_marker<'a>(text: &'a str, cs: &Vec<char>, offset: usize) -> (r: Option<
    Spanned<&'a str>,
>)
    requires
        cs@ == text@,
        offset + text::blen(text@) <= usize::MAX,
    ensures
        opt_tv(r) == malformed_spec(text@, offset as int),
{
    let mut n: usize = 0;
    while n < cs.len() && (cs[n] == '-' || cs[n] == '=' || cs[n] == ':' || cs[n] == '>')
        invariant
            n <= cs@.len(),
            forall|i: int| 0 <= i < n ==> is_marker_char(#[trigger] cs@[i]),
        decreases cs@.len() - n,
    {
        n = n + 1;
    }
    proof {
        lemma_marker_run(cs@, n as int);
        text::lemma_blen_ge_len(text@);
    }
    if n >= 2 {
        Some(Spanned { value: text::slice(text, 0, n), span: Span::from_length(offset, n) })
    } else {
        None
    }
}

/// A line of dialogue: the speaker before the first `:`, when there is
/// one, and what is said.
fn split_speaker<'a>(text: &'a str, cs: &Vec<char>, offset: usize) -> (r: LineKind<'a>)
    requires
        cs@ == text@,
        offset + text::blen(text@) <= usize::MAX,
    ensures
        r.view() == split_speaker_spec(text@, offset as int),
{
    let n = cs.len();
    proof {
        reveal(from_text_view);
        text@.index_of_first_ensures(':');
    }
    match text::find_char(cs, 0, n, ':') {
        Some(p) => {
            proof {
                assert(text@.contains(':'));
                let q = text@.index_of_first(':')->0;
                if q < p {
                    assert(cs@[q] != ':');
                }
                if p < q {
                    assert(text@[p as int] != ':');
                }
                assert(text@.index_of_first(':') == Some(p as int));
            }
            let prefix = text::slice(text, 0, p);
            proof {
                text::lemma_blen_prefix(text@, p as int);
                assert(text@.take(p as int) =~= text@.subrange(0, p as int));
                text::lemma_blen_prefix(text@, p + 1);
                text::lemma_blen_push(text@.take(p as int), ':');
                assert(text@.take(p as int).push(':') =~= text@.take(p + 1));
                assert(text@.skip(p + 1) =~= text@.subrange(p + 1, n as int));
            }
            let trimmed = Spanned::from_text(prefix, offset);
            let speaker = trimmed.value;
            if !speaker.is_empty() {
                proof {
                    text::lemma_blen_trim(prefix@);
                }
                let who = Spanned::from_text(speaker, offset);
                let rest = text::slice(text, p + 1, n);
                let said = Spanned::from_text(rest, offset + prefix.len() + 1);
                return LineKind::Say { speaker: Some(who), text: said };
            }
        },
        None => {
            proof {
                if text@.contains(':') {
                    let q = text@.index_of_first(':')->0;
                    assert(cs@[q] != ':');
                }
            }
        },
    }
    LineKind::Say { speaker: None, text: Spanned::from_text(text, offset) }
}

/// Kind of the line `text`, standing at byte `offset` of the source.
pub fn classify<'a>(text: &'a str, offset: usize) -> (r: LineKind<'a>)
    requires
        offset + text::blen(text@) <= usize::MAX,
    ensures
        r.view() == classify_spec(text@, offset as int),
{
    proof {
        reveal(classify_spec);
    }
    let cs = text::to_chars(text);
    if cs.len() == 3 && cs[0] == '-' && cs[1] == '-' && cs[2] == '-' {
        proof {
            assert(text@ =~= seq!['-', '-', '-']);
        }
        return LineKind::NodeEnd;
    }
    proof {
        if text@ == seq!['-', '-', '-'] {
            assert(cs@[0] == '-' && cs@[1] == '-' && cs@[2] == '-');
        }
    }
    classify_arrows(text, &cs, offset)
}

/// Executable [`arrows_spec`].
fn classify_arrows<'a>(text: &'a str, cs: &Vec<char>, offset: usize) -> (r: LineKind<'a>)
    requires
        cs@ == text@,
        offset + text::blen(text@) <= usize::MAX,
    ensures
        r.view() == arrows_spec(text@, offset as int),
{
    if let Some(rest) = strip_marker(text, cs, &[':', '='], offset) {
        return LineKind::NodeStart(rest);
    }
    if let Some(rest) = strip_marker(text, cs, &['=', '>'], offset) {
        return LineKind::Jump(rest);
    }
    if let Some(rest) = strip_marker(text, cs, &['-', '>'], offset) {
        return LineKind::Choice(rest);
    }
    if let Some(rest) = strip_marker(text, cs, &['>', '>'], offset) {
        return LineKind::Command(rest);
    }
    classify_brackets(text, cs, offset)
}

/// Executable [`brackets_spec`].
fn classify_brackets<'a>(text: &'a str, cs: &Vec<char>, offset: usize) -> (r: LineKind<'a>)
    requires
        cs@ == text@,
        offset + text::blen(text@) <= usize::MAX,
    ensures
        r.view() == brackets_spec(text@, offset as int),
{
    if let Some(rest) = strip_bracket(text, cs, &['[', 'l', 'e', 't'], offset) {
        return LineKind::Let(rest);
    }
    if let Some(rest) = strip_bracket(text, cs, &['[', 'i', 'f'], offset) {
        return LineKind::If(rest);
    }
    if let Some(rest) = strip_bracket(text, cs, &['[', 'e', 'l', 'i', 'f'], offset) {
        return LineKind::Elif(rest);
    }
    if let Some(rest) = strip_bracket(text, cs, &['[', 'e', 'l', 's', 'e'], offset) {
        return LineKind::Else(rest);
    }
    classify_loops(text, cs, offset)
}

/// `[while`, `[break`, and `[continue`, as characters.
fn loop_markers() -> (r: ([char; 6], [char; 6], [char; 9]))
    ensures
        r.0@ == seq!['[', 'w', 'h', 'i', 'l', 'e'],
        r.1@ == seq!['[', 'b', 'r', 'e', 'a', 'k'],
        r.2@ == seq!['[', 'c', 'o', 'n', 't', 'i', 'n', 'u', 'e'],
        all_ascii(r.0@),
        all_ascii(r.1@),
        all_ascii(r.2@),
{
    let w = ['[', 'w', 'h', 'i', 'l', 'e'];
    let b = ['[', 'b', 'r', 'e', 'a', 'k'];
    let c = ['[', 'c', 'o', 'n', 't', 'i', 'n', 'u', 'e'];
    proof {
        assert(w@ =~= seq!['[', 'w', 'h', 'i', 'l', 'e']);
        assert(b@ =~= seq!['[', 'b', 'r', 'e', 'a', 'k']);
        assert(c@ =~= seq!['[', 'c', 'o', 'n', 't', 'i', 'n', 'u', 'e']);
    }
    (w, b, c)
}

/// Executable [`loops_spec`].
fn classify_loops<'a>(text: &'a str, cs: &Vec<char>, offset: usize) -> (r: LineKind<'a>)
    requires
        cs@ == text@,
        offset + text::blen(text@) <= usize::MAX,
    ensures
        r.view() == loops_spec(text@, offset as int),
{
    let (w, b, c) = loop_markers();
    if let Some(rest) = strip_bracket(text, cs, &w, offset) {
        return LineKind::While(rest);
    }
    if let Some(rest) = strip_bracket(text, cs, &b, offset) {
        return LineKind::Break(rest);
    }
    if let Some(rest) = strip_bracket(text, cs, &c, offset) {
        return LineKind::Continue(rest);
    }
    classify_rest(text, cs, offset)
}

/// Executable [`rest_spec`].
fn classify_rest<'a>(text: &'a str, cs: &Vec<char>, offset: usize) -> (r: LineKind<'a>)
    requires
        cs@ == text@,
        offset + text::blen(text@) <= usize::MAX,
    ensures
        r.view() == rest_spec(text@, offset as int),
{
    if let Some(marker) = malformed_marker(text, cs, offset) {
        return LineKind::Malformed(marker);
    }
    split_speaker(text, cs, offset)
}

/// A single source line, classified but not yet parsed.
#[derive(Debug, Clone, Copy)]
pub struct RawLine<'a> {
    /// Content (trimmed, no indentation, no comments).
    pub text: &'a str,
    /// Kind of the line and the content that follows its marker.
    pub kind: LineKind<'a>,
    /// Absolute position of `text` in the source, in bytes.
    pub span: Span,
    /// Indentation level.
    pub indent: u16,
}

/// What a [`RawLine`] holds.
pub struct RawLineView {
    pub text: Seq<char>,
    pub kind: LineKindView,
    pub span: Span,
    pub indent: u16,
}

impl<'a> RawLine<'a> {
    /// What the line holds, its texts seen as characters.
    pub open spec fn view(self) -> RawLineView {
        RawLineView { text: self.text@, kind: self.kind.view(), span: self.span, indent: self.indent }
    }
}

/// Index of the first `//` of `b` at or after `i`, or the length of `b`.
pub open spec fn comment_from(b: Seq<char>, i: int) -> int
    decreases b.len() - i,
{
    if i < 0 || i + 1 >= b.len() {
        b.len() as int
    } else if b[i] == '/' && b[i + 1] == '/' {
        i
    } else {
        comment_from(b, i + 1)
    }
}

/// Bytes of the indentation of `raw`.
pub open spec fn indent_len(raw: Seq<char>) -> int {
    text::blen(raw.take(text::lead(raw) as int)) as int
}

/// What `raw` says once its indentation, its comment and its trailing blanks
/// are gone.
pub open spec fn body_of(raw: Seq<char>) -> Seq<char> {
    let b = text::trim_start(raw);
    text::trim_end(b.take(comment_from(b, 0)))
}

/// The line that `raw`, standing at byte `offset`, gives, if it says anything.
pub open spec fn line_out(raw: Seq<char>, offset: int) -> Seq<RawLineView> {
    let body = body_of(raw);
    let at = offset + indent_len(raw);
    if body.len() > 0 {
        seq![
            RawLineView {
                text: body,
                kind: classify_spec(body, at),
                span: Span { start: at as usize, end: (at + text::blen(body)) as usize },
                indent: (indent_len(raw) / 4) as u16,
            },
        ]
    } else {
        Seq::empty()
    }
}

/// What the indentation of `raw`, standing at byte `offset`, is reported
/// for: a tab, or a width that is not a multiple of four, on a line that is
/// not blank.
pub open spec fn line_reports(raw: Seq<char>, offset: int) -> Seq<Report> {
    let span = Span { start: offset as usize, end: (offset + indent_len(raw)) as usize };
    if text::trim_start(raw).len() > 0 {
        if raw.take(text::lead(raw) as int).contains('\t') {
            seq![plain(span, DiagnosticKind::TabIndentation)]
        } else if indent_len(raw) % 4 > 0 {
            seq![plain(span, DiagnosticKind::IrregularIndentation)]
        } else {
            Seq::empty()
        }
    } else {
        Seq::empty()
    }
}

/// Line `i` of `src`, its end of line included.
pub open spec fn raw_at(src: Seq<char>, i: int) -> Seq<char> {
    line_text_spec(src, nl_starts(src).len() as int, i)
}

/// The lines the first `k` lines of `src` give.
pub open spec fn split_spec(src: Seq<char>, k: int) -> Seq<RawLineView>
    decreases k,
{
    if k <= 0 {
        Seq::empty()
    } else {
        split_spec(src, k - 1) + line_out(raw_at(src, k - 1), line_starts_of(src)[k - 1])
    }
}

/// What the indentation of the first `k` lines of `src` is reported for.
pub open spec fn split_reports(src: Seq<char>, k: int) -> Seq<Report>
    decreases k,
{
    if k <= 0 {
        Seq::empty()
    } else {
        split_reports(src, k - 1) + line_reports(raw_at(src, k - 1), line_starts_of(src)[k - 1])
    }
}

/// Index of the first `//` of `b`, or its length.
fn find_comment(b: &Vec<char>) -> (r: usize)
    ensures
        r == comment_from(b@, 0),
        r <= b@.len(),
{
    let n = b.len();
    let mut i: usize = 0;
    while i < n && i + 1 < n && !(b[i] == '/' && b[i + 1] == '/')
        invariant
            n == b@.len(),
            i <= n,
            comment_from(b@, 0) == comment_from(b@, i as int),
        decreases n - i,
    {
        i = i + 1;
    }
    if i >= n || i + 1 >= n {
        n
    } else {
        i
    }
}

/// Whether `cs[from..to]` holds a tab.
fn has_tab(cs: &Vec<char>, from: usize, to: usize) -> (r: bool)
    requires
        from <= to <= cs@.len(),
    ensures
        r == cs@.subrange(from as int, to as int).contains('\t'),
{
    match text::find_char(cs, from, to, '\t') {
        Some(i) => {
            proof {
                assert(cs@.subrange(from as int, to as int)[i - from] == '\t');
            }
            true
        },
        None => {
            proof {
                if cs@.subrange(from as int, to as int).contains('\t') {
                    let j = choose|j: int|
                        0 <= j < (to - from) && cs@.subrange(from as int, to as int)[j] == '\t';
                    assert(cs@[from + j] == '\t');
                }
            }
            false
        },
    }
}

/// Whether every piece the lines hold ends where its bytes say.
pub open spec fn lines_ok(ls: Seq<RawLineView>) -> bool {
    forall|i: int| 0 <= i < ls.len() ==> kind_ok(#[trigger] ls[i].kind)
}

/// What the lines hold.
pub open spec fn views<'a>(v: Seq<RawLine<'a>>) -> Seq<RawLineView> {
    v.map_values(|l: RawLine<'a>| l.view())
}

/// Reports the indentation of `raw`, standing at byte `offset`, when it is
/// wrong, and gives its number of characters and of bytes.
fn check_indent(raw: &str, cs: &Vec<char>, offset: usize, diagnostics: &mut Diagnostics) -> (r: (
    usize,
    usize,
))
    requires
        cs@ == raw@,
        offset + text::blen(raw@) <= usize::MAX,
    ensures
        r.0 == text::lead(raw@),
        r.1 == indent_len(raw@),
        r.0 <= raw@.len(),
        final(diagnostics).index() == old(diagnostics).index(),
        final(diagnostics).path() == old(diagnostics).path(),
        reported(
            old(diagnostics).items(),
            final(diagnostics).items(),
            line_reports(raw@, offset as int),
        ),
{
    let ghost r = raw@;
    let n = cs.len();
    proof {
        assert(cs@.subrange(0, n as int) =~= r);
    }
    let l = text::lead_count(cs, 0, n);
    proof {
        text::lemma_blen_prefix(r, l as int);
        assert(cs@.subrange(0, l as int) =~= r.take(l as int));
        assert(r.take(0) =~= Seq::<char>::empty());
        assert(text::trim_start(r).len() == n - l);
    }
    let indent_length = text::bytes_between(cs, 0, l);
    let span = Span::from_length(offset, indent_length);
    proof {
        crate::parser::diagnostic::lemma_reported_nothing(diagnostics.items());
    }
    if l < n {
        if has_tab(cs, 0, l) {
            diagnostics.report(span, DiagnosticKind::TabIndentation);
        } else if indent_length % 4 > 0 {
            diagnostics.report(span, DiagnosticKind::IrregularIndentation);
        }
    }
    (l, indent_length)
}

/// What `raw` says once its indentation, its comment and its trailing
/// blanks are gone, `l` being the number of its leading blanks.
fn body_text<'a>(raw: &'a str, l: usize) -> (r: &'a str)
    requires
        l == text::lead(raw@),
        l <= raw@.len(),
    ensures
        r@ == body_of(raw@),
        text::blen(r@) + text::blen(raw@.take(l as int)) <= text::blen(raw@),
{
    let ghost r = raw@;
    let n = text::to_chars(raw).len();
    let b = text::slice(raw, l, n);
    let bcs = text::to_chars(b);
    let c = find_comment(&bcs);
    let before = text::slice(b, 0, c);
    let body = text::trim_end_str(before);
    proof {
        assert(b@ =~= text::trim_start(r));
        assert(before@ =~= b@.take(c as int));
        text::lemma_blen_prefix(r, l as int);
        text::lemma_blen_prefix(b@, c as int);
        text::lemma_trail_shape(before@);
        text::lemma_blen_prefix(before@, before@.len() - text::trail(before@));
    }
    body
}

/// Reads one line of the source, `raw` standing at byte `offset`: reports
/// its indentation when it is wrong, and pushes what it says, if anything.
fn split_line<'a>(
    raw: &'a str,
    offset: usize,
    diagnostics: &mut Diagnostics,
    out: &mut Vec<RawLine<'a>>,
)
    requires
        offset + text::blen(raw@) <= usize::MAX,
    ensures
        views(final(out)@) == views(old(out)@) + line_out(raw@, offset as int),
        lines_ok(views(old(out)@)) ==> lines_ok(views(final(out)@)),
        final(diagnostics).index() == old(diagnostics).index(),
        final(diagnostics).path() == old(diagnostics).path(),
        reported(
            old(diagnostics).items(),
            final(diagnostics).items(),
            line_reports(raw@, offset as int),
        ),
{
    let ghost r = raw@;
    let cs = text::to_chars(raw);
    let (l, indent_length) = check_indent(raw, &cs, offset, diagnostics);
    let indent = (indent_length / 4) as u16;
    let body = body_text(raw, l);
    if !body.is_empty() {
        let at = offset + indent_length;
        let line = RawLine {
            text: body,
            kind: classify(body, at),
            span: Span::from_length(at, body.len()),
            indent,
        };
        let ghost prev = out@;
        out.push(line);
        proof {
            assert(views(out@) =~= views(prev) + line_out(r, offset as int));
            lemma_classify_ok(body@, at as int);
            if lines_ok(views(prev)) {
                assert forall|i: int| 0 <= i < views(out@).len() implies kind_ok(
                    #[trigger] views(out@)[i].kind,
                ) by {
                    if i < views(prev).len() {
                        assert(views(out@)[i] == views(prev)[i]);
                    }
                }
            }
        }
    } else {
        proof {
            assert(views(out@) =~= views(out@) + line_out(r, offset as int));
        }
    }
}


/// Splits `src` into its lines, trimmed, stripped of their comments, and
/// classified; blank lines are skipped. A line whose indentation uses a tab,
/// or is not a multiple of four spaces, is reported.
pub fn split_lines<'a>(src: &'a str, diagnostics: &mut Diagnostics) -> (r: Vec<RawLine<'a>>)
    requires
        text::blen(src@) < usize::MAX,
    ensures
        views(r@) == split_spec(src@, nl_starts(src@).len() as int),
        lines_ok(views(r@)),
        final(diagnostics).index() == old(diagnostics).index(),
        final(diagnostics).path() == old(diagnostics).path(),
        reported(
            old(diagnostics).items(),
            final(diagnostics).items(),
            split_reports(src@, nl_starts(src@).len() as int),
        ),
{
    let index = LineIndex::new(src);
    let count = index.line_count();
    let mut out: Vec<RawLine<'a>> = Vec::new();
    let mut i: usize = 0;
    proof {
        assert(views(out@) =~= Seq::<RawLineView>::empty());
        crate::parser::diagnostic::lemma_reported_nothing(diagnostics.items());
    }
    while i < count
        invariant
            i <= count,
            count == index.starts().len(),
            index.source() == src@,
            index.starts().len() == nl_starts(src@).len(),
            forall|k: int|
                0 <= k < index.starts().len() ==> #[trigger] index.starts()[k] as int
                    == line_starts_of(src@)[k],
            views(out@) == split_spec(src@, i as int),
            lines_ok(views(out@)),
            diagnostics.index() == old(diagnostics).index(),
            diagnostics.path() == old(diagnostics).path(),
            reported(old(diagnostics).items(), diagnostics.items(), split_reports(src@, i as int)),
        decreases count - i,
    {
        let raw = index.line_text(src, i);
        let offset = index.line_start(i);
        let ghost before = diagnostics.items();
        split_line(raw, offset, diagnostics, &mut out);
        proof {
            crate::parser::diagnostic::lemma_reported_chain(
                old(diagnostics).items(),
                before,
                diagnostics.items(),
                split_reports(src@, i as int),
                line_reports(raw@, offset as int),
            );
        }
        i = i + 1;
    }
    out
}

/// Whether a piece of text ends where its bytes say.
pub open spec fn tv_ok(t: TextView) -> bool {
    t.span.start <= t.span.end && t.span.end == t.span.start + text::blen(t.value)
}

/// Whether every piece a line kind holds ends where its bytes say.
pub open spec fn kind_ok(k: LineKindView) -> bool {
    match k {
        LineKindView::NodeEnd => true,
        LineKindView::Say { speaker, text } => tv_ok(text) && match speaker {
            Some(s) => tv_ok(s),
            None => true,
        },
        LineKindView::NodeStart(t) | LineKindView::Choice(t) | LineKindView::Jump(t)
        | LineKindView::Command(t) | LineKindView::Let(t) | LineKindView::If(t)
        | LineKindView::Elif(t) | LineKindView::Else(t) | LineKindView::While(t)
        | LineKindView::Break(t) | LineKindView::Continue(t) | LineKindView::Malformed(t) => tv_ok(t),
    }
}

/// A trimmed piece of text ends where its bytes say.
pub proof fn lemma_from_text_ok(t: Seq<char>, offset: int)
    requires
        0 <= offset,
        offset + text::blen(t) <= usize::MAX,
    ensures
        tv_ok(from_text_view(t, offset)),
{
    reveal(from_text_view);
    text::lemma_lead_shape(t);
    text::lemma_blen_prefix(t, text::lead(t) as int);
    let ts = text::trim_start(t);
    assert(ts =~= t.skip(text::lead(t) as int));
    text::lemma_trail_shape(ts);
    text::lemma_blen_prefix(ts, ts.len() - text::trail(ts));
}

/// A stripped marker ends where its bytes say.
proof fn lemma_strip_marker_ok(text: Seq<char>, marker: Seq<char>, offset: int)
    requires
        0 <= offset,
        offset + text::blen(text) <= usize::MAX,
        text::has_prefix_at(text, 0, marker),
    ensures
        tv_ok(from_text_view(text.skip(marker.len() as int), offset + text::blen(marker))),
{
    assert(text.take(marker.len() as int) =~= text.subrange(0, marker.len() as int));
    text::lemma_blen_prefix(text, marker.len() as int);
    lemma_from_text_ok(text.skip(marker.len() as int), offset + text::blen(marker));
}

/// What a stripped marker or bracket holds ends where its bytes say.
proof fn lemma_stripped_ok(text: Seq<char>, marker: Seq<char>, offset: int)
    requires
        0 <= offset,
        offset + text::blen(text) <= usize::MAX,
    ensures
        strip_marker_spec(text, marker, offset) is Some ==> tv_ok(
            strip_marker_spec(text, marker, offset)->0,
        ),
        strip_bracket_spec(text, marker, offset) is Some ==> tv_ok(
            strip_bracket_spec(text, marker, offset)->0,
        ),
{
    if text::has_prefix_at(text, 0, marker) {
        lemma_strip_marker_ok(text, marker, offset);
    }
}

/// Every kind [`classify`] gives ends where its bytes say.
pub proof fn lemma_classify_ok(text: Seq<char>, offset: int)
    requires
        0 <= offset,
        offset + text::blen(text) <= usize::MAX,
    ensures
        kind_ok(classify_spec(text, offset)),
{
    reveal(classify_spec);
    lemma_stripped_ok(text, seq![':', '='], offset);
    lemma_stripped_ok(text, seq!['=', '>'], offset);
    lemma_stripped_ok(text, seq!['-', '>'], offset);
    lemma_stripped_ok(text, seq!['>', '>'], offset);
    lemma_brackets_ok(text, offset);
}

/// Every kind the bracketed markers give ends where its bytes say.
proof fn lemma_brackets_ok(text: Seq<char>, offset: int)
    requires
        0 <= offset,
        offset + text::blen(text) <= usize::MAX,
    ensures
        kind_ok(brackets_spec(text, offset)),
{
    lemma_stripped_ok(text, seq!['[', 'l', 'e', 't'], offset);
    lemma_stripped_ok(text, seq!['[', 'i', 'f'], offset);
    lemma_stripped_ok(text, seq!['[', 'e', 'l', 'i', 'f'], offset);
    lemma_stripped_ok(text, seq!['[', 'e', 'l', 's', 'e'], offset);
    lemma_loops_ok(text, offset);
}

/// Every kind the loop markers give ends where its bytes say.
proof fn lemma_loops_ok(text: Seq<char>, offset: int)
    requires
        0 <= offset,
        offset + text::blen(text) <= usize::MAX,
    ensures
        kind_ok(loops_spec(text, offset)),
{
    lemma_stripped_ok(text, seq!['[', 'w', 'h', 'i', 'l', 'e'], offset);
    lemma_stripped_ok(text, seq!['[', 'b', 'r', 'e', 'a', 'k'], offset);
    lemma_stripped_ok(text, seq!['[', 'c', 'o', 'n', 't', 'i', 'n', 'u', 'e'], offset);
    lemma_rest_ok(text, offset);
}

/// A deformed marker or a line of dialogue ends where its bytes say.
proof fn lemma_rest_ok(text: Seq<char>, offset: int)
    requires
        0 <= offset,
        offset + text::blen(text) <= usize::MAX,
    ensures
        kind_ok(rest_spec(text, offset)),
{
    lemma_malformed_ok(text, offset);
    lemma_speaker_ok(text, offset);
}

/// A deformed marker ends where its bytes say.
proof fn lemma_malformed_ok(text: Seq<char>, offset: int)
    requires
        0 <= offset,
        offset + text::blen(text) <= usize::MAX,
    ensures
        malformed_spec(text, offset) is Some ==> tv_ok(malformed_spec(text, offset)->0),
{
    let n = marker_run(text);
    if n >= 2 {
        lemma_marker_run_shape(text);
        let m = text.take(n as int);
        assert forall|i: int| 0 <= i < m.len() implies (#[trigger] m[i] as u32) < 0x80 by {
            assert(m[i] == text[i]);
            assert(is_marker_char(text[i]));
        }
        text::lemma_blen_ascii(m);
        text::lemma_blen_prefix(text, n as int);
    }
}

/// A line of dialogue ends where its bytes say.
proof fn lemma_speaker_ok(text: Seq<char>, offset: int)
    requires
        0 <= offset,
        offset + text::blen(text) <= usize::MAX,
    ensures
        kind_ok(split_speaker_spec(text, offset)),
{
    lemma_from_text_ok(text, offset);
    match text.index_of_first(':') {
        Some(p) => {
            text.index_of_first_ensures(':');
            text::lemma_blen_prefix(text, p);
            text::lemma_blen_prefix(text, p + 1);
            text::lemma_blen_push(text.take(p), ':');
            assert(text.take(p).push(':') =~= text.take(p + 1));
            text::lemma_blen_trim(text.take(p));
            lemma_from_text_ok(text::trim(text.take(p)), offset);
            lemma_from_text_ok(text.skip(p + 1), offset + text::blen(text.take(p)) + 1);
        },
        None => {},
    }
}

/// What [`marker_run`] counts are marker characters, within `s`.
proof fn lemma_marker_run_shape(s: Seq<char>)
    ensures
        marker_run(s) <= s.len(),
        forall|i: int| 0 <= i < marker_run(s) ==> is_marker_char(#[trigger] s[i]),
    decreases s.len(),
{
    if s.len() > 0 && is_marker_char(s[0]) {
        lemma_marker_run_shape(s.drop_first());
        assert forall|i: int| 0 <= i < marker_run(s) implies is_marker_char(#[trigger] s[i]) by {
            if i > 0 {
                assert(s[i] == s.drop_first()[i - 1]);
            }
        }
    }
}

/// Whether a line says something, with no blank at either end of what it
/// says.
pub open spec fn says_something(l: RawLineView) -> bool {
    &&& l.text.len() > 0
    &&& !text::is_ws(l.text[0])
    &&& !text::is_ws(l.text.last())
}

/// Blank lines, and lines that hold nothing but a comment, give nothing:
/// every line split out of a source says something, with no blank at
/// either end.
pub proof fn lemma_no_blank_line(src: Seq<char>, k: int)
    ensures
        forall|i: int| 0 <= i < split_spec(src, k).len() ==> says_something(#[trigger] split_spec(src, k)[i]),
    decreases k,
{
    if k > 0 {
        lemma_no_blank_line(src, k - 1);
        let raw = raw_at(src, k - 1);
        let b = text::trim_start(raw);
        let c = comment_from(b, 0);
        lemma_comment_from(b, 0);
        let cut = b.take(c);
        let body = body_of(raw);
        let prev = split_spec(src, k - 1);
        let out = line_out(raw, line_starts_of(src)[k - 1]);
        if body.len() > 0 {
            text::lemma_lead_shape(raw);
            text::lemma_trail_shape(cut);
            assert(body[0] == cut[0]);
            assert(cut[0] == b[0]);
            assert(b[0] == raw[text::lead(raw) as int]);
            assert(body.last() == cut[cut.len() - text::trail(cut) - 1]);
        }
        assert forall|i: int| 0 <= i < split_spec(src, k).len() implies says_something(#[trigger] split_spec(src, k)[i]) by {
            if i < prev.len() {
                assert(split_spec(src, k)[i] == prev[i]);
            } else {
                assert(split_spec(src, k)[i] == out[i - prev.len()]);
            }
        }
    }
}

/// Where the first `//` from `i` on stands is within `b`.
proof fn lemma_comment_from(b: Seq<char>, i: int)
    requires
        0 <= i,
    ensures
        0 <= comment_from(b, i) <= b.len(),
        i <= b.len() ==> i <= comment_from(b, i),
    decreases b.len() - i,
{
    if !(i < 0 || i + 1 >= b.len()) && !(b[i] == '/' && b[i + 1] == '/') {
        lemma_comment_from(b, i + 1);
    }
}

/// Whether the bytes of `src` that `span` covers hold `t`: `t` stands in
/// `src` from some character on, and the span counts the bytes before it
/// and up to its end.
pub open spec fn spans_text(src: Seq<char>, span: Span, t: Seq<char>) -> bool {
    exists|a: int|
        #![trigger src.take(a)]
        0 <= a && a + t.len() <= src.len() && src.subrange(a, a + t.len()) == t && span.start == text::blen(src.take(a))
            && span.end == text::blen(src.take(a + t.len()))
}

/// The span of every line split out of a source covers exactly the bytes
/// of the source that hold its text.
pub proof fn lemma_line_spans(src: Seq<char>, k: int)
    requires
        text::blen(src) < usize::MAX,
        0 <= k <= nl_starts(src).len(),
    ensures
        forall|i: int|
            0 <= i < split_spec(src, k).len() ==> spans_text(
                src,
                (#[trigger] split_spec(src, k)[i]).span,
                split_spec(src, k)[i].text,
            ),
    decreases k,
{
    if k > 0 {
        lemma_line_spans(src, k - 1);
        crate::parser::lemma_nl_starts(src);
        let count = nl_starts(src).len() as int;
        let s0 = nl_starts(src)[k - 1];
        let e0 = if k < count {
            nl_starts(src)[k]
        } else {
            src.len() as int
        };
        let raw = raw_at(src, k - 1);
        assert(raw == src.subrange(s0, e0));
        let l = text::lead(raw) as int;
        text::lemma_lead_shape(raw);
        let b = text::trim_start(raw);
        let c = comment_from(b, 0);
        lemma_comment_from(b, 0);
        let cut = b.take(c);
        text::lemma_trail_shape(cut);
        let body = body_of(raw);
        let prev = split_spec(src, k - 1);
        let out = line_out(raw, line_starts_of(src)[k - 1]);
        if body.len() > 0 {
            let a = s0 + l;
            assert(src.subrange(a, a + body.len()) =~= body);
            assert(src.subrange(s0, a) =~= raw.take(l));
            text::lemma_blen_subrange(src, s0, a);
            text::lemma_blen_subrange(src, a, a + body.len());
            text::lemma_blen_prefix(src, a + body.len());
            assert(line_starts_of(src)[k - 1] == text::blen(src.take(s0)));
            let line = out[0];
            assert(line.span.start == text::blen(src.take(a)));
            assert(line.span.end == text::blen(src.take(a + body.len())));
            assert(spans_text(src, line.span, line.text));
        }
        assert forall|i: int| 0 <= i < split_spec(src, k).len() implies spans_text(
            src,
            (#[trigger] split_spec(src, k)[i]).span,
            split_spec(src, k)[i].text,
        ) by {
            if i < prev.len() {
                assert(split_spec(src, k)[i] == prev[i]);
            } else {
                assert(split_spec(src, k)[i] == out[i - prev.len()]);
            }
        }
    }
}

} // verus!
