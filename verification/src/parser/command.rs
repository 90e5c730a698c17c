//! Syntax of a `>>` command: `command`, `command()` or `command(1, "two", true)`.
//!
//! Kept apart from the parser because the language server needs the very same
//! rules to paint a command, including one that is still being typed and that
//! the parser therefore rejects.
//!
//! A single left-to-right [`scan`] knows what a string literal and a nested
//! call are; everything else here is a filter over it, so the two cannot
//! disagree on where an argument ends.

use vstd::prelude::*;

use crate::parser::lines::{from_text_view, opt_tv, tv, TextView};
use crate::parser::{Span, Spanned};
use crate::text;

verus! {

broadcast use vstd::seq_lib::group_seq_properties;

/// A command line split into its parts, none of them validated.
#[derive(Debug, Clone, PartialEq)]
pub struct CommandParts<'a> {
    /// Everything before the `(`, or the whole payload without one.
    pub name: Spanned<&'a str>,
    /// Arguments between the parentheses, empty for both `f` and `f()`.
    /// Use [`has_parens`](Self::has_parens) to tell those two apart.
    pub args: Vec<Spanned<&'a str>>,
    /// Whether the payload has an argument list at all.
    pub has_parens: bool,
    /// Whether the argument list ends on its matching `)` with nothing but
    /// blanks after it.
    pub closed: bool,
    /// Whatever follows the matching `)`, which belongs to no argument.
    pub trailing: Option<Spanned<&'a str>>,
    /// The string literal left open at the end of the payload, from its
    /// opening quote to the end of the line.
    pub unterminated_string: Option<Span>,
}

/// What a [`CommandParts`] holds.
pub struct CommandView {
    pub name: TextView,
    pub args: Seq<TextView>,
    pub has_parens: bool,
    pub closed: bool,
    pub trailing: Option<TextView>,
    pub unterminated_string: Option<Span>,
}

/// What the pieces hold.
pub open spec fn tvs<'a>(v: Seq<Spanned<&'a str>>) -> Seq<TextView> {
    v.map_values(|a: Spanned<&'a str>| tv(a))
}

impl<'a> CommandParts<'a> {
    /// What the parts hold, their texts seen as characters.
    pub open spec fn view(self) -> CommandView {
        CommandView {
            name: tv(self.name),
            args: tvs(self.args@),
            has_parens: self.has_parens,
            closed: self.closed,
            trailing: opt_tv(self.trailing),
            unterminated_string: self.unterminated_string,
        }
    }
}

/// Where a scan stands before a character: nesting of `(` outside strings,
/// whether a string literal is open, and whether the character is escaped.
pub struct ScanState {
    pub depth: nat,
    pub in_string: bool,
    pub escaped: bool,
}

/// The state after `ch`, read in state `st`.
pub open spec fn scan_step(st: ScanState, ch: char) -> ScanState {
    if st.escaped {
        ScanState { depth: st.depth, in_string: st.in_string, escaped: false }
    } else if ch == '\\' && st.in_string {
        ScanState { depth: st.depth, in_string: st.in_string, escaped: true }
    } else if ch == '"' {
        ScanState { depth: st.depth, in_string: !st.in_string, escaped: false }
    } else if st.in_string {
        st
    } else if ch == '(' {
        ScanState { depth: st.depth + 1, in_string: false, escaped: false }
    } else if ch == ')' {
        ScanState {
            depth: if st.depth > 0 {
                (st.depth - 1) as nat
            } else {
                0
            },
            in_string: false,
            escaped: false,
        }
    } else {
        st
    }
}

/// The state of a scan of `s` before its character `i`.
pub open spec fn scan_state(s: Seq<char>, i: int) -> ScanState
    decreases i,
{
    if i <= 0 {
        ScanState { depth: 0, in_string: false, escaped: false }
    } else {
        scan_step(scan_state(s, i - 1), s[i - 1])
    }
}

/// A character of a command payload, with the state *before* it.
#[derive(Debug, Clone, Copy)]
struct Cursor {
    /// Byte offset of `ch` inside the scanned payload.
    index: usize,
    ch: char,
    /// Nesting of `(`, ignoring those inside a string.
    depth: usize,
    /// Whether a string literal is open.
    in_string: bool,
    /// Whether `ch` is preceded by a backslash inside a string.
    escaped: bool,
}

/// Whether `c` is the cursor of the character `i` of `s`.
spec fn cursor_at(c: Cursor, s: Seq<char>, i: int) -> bool {
    &&& c.index == text::blen(s.take(i))
    &&& c.ch == s[i]
    &&& c.depth == scan_state(s, i).depth
    &&& c.in_string == scan_state(s, i).in_string
    &&& c.escaped == scan_state(s, i).escaped
}

/// Walk `payload`, keeping track of string literals and nesting.
///
/// This is the only place that knows what a string literal is: `split_command`
/// and [`split_args`] both read the state it exposes rather than looking at the
/// characters themselves.
fn scan(payload: &str) -> (r: Vec<Cursor>)
    requires
        text::blen(payload@) <= usize::MAX,
    ensures
        r@.len() == payload@.len(),
        forall|i: int| 0 <= i < r@.len() ==> cursor_at(#[trigger] r@[i], payload@, i),
{
    let ghost s = payload@;
    let cs = text::to_chars(payload);
    let mut out: Vec<Cursor> = Vec::new();
    let mut depth: usize = 0;
    let mut in_string = false;
    let mut escaped = false;
    let mut byte: usize = 0;
    let mut i: usize = 0;
    proof {
        assert(s.take(0) =~= Seq::<char>::empty());
    }
    while i < cs.len()
        invariant
            cs@ == s,
            text::blen(s) <= usize::MAX,
            i <= s.len(),
            out@.len() == i,
            depth <= i,
            byte == text::blen(s.take(i as int)),
            depth == scan_state(s, i as int).depth,
            in_string == scan_state(s, i as int).in_string,
            escaped == scan_state(s, i as int).escaped,
            forall|k: int| 0 <= k < i ==> cursor_at(#[trigger] out@[k], s, k),
        decreases s.len() - i,
    {
        let ch = cs[i];
        let ghost before = out@;
        let cur = Cursor { index: byte, ch, depth, in_string, escaped };
        out.push(cur);
        proof {
            vstd::seq::axiom_seq_push_len(before, cur);
            vstd::seq::axiom_seq_push_index_same(before, cur, i as int);
        }
        if escaped {
            escaped = false;
        } else if ch == '\\' && in_string {
            escaped = true;
        } else if ch == '"' {
            in_string = !in_string;
        } else if in_string {
        } else if ch == '(' {
            depth = depth + 1;
        } else if ch == ')' {
            if depth > 0 {
                depth = depth - 1;
            }
        }
        proof {
            text::lemma_blen_push(s.take(i as int), ch);
            assert(s.take(i as int).push(ch) =~= s.take(i + 1));
            text::lemma_blen_prefix(s, i + 1);
        }
        byte = byte + text::char_width(ch);
        i = i + 1;
    }
    out
}

/// Where the first top-level `(` of a payload is, where its matching `)`
/// is, and where the string left open at the end starts, as character
/// indices.
pub struct CommandMarks {
    pub open: Option<int>,
    pub close: Option<int>,
    pub quote: Option<int>,
}

/// [`CommandMarks`] of the first `k` characters of `s`.
pub open spec fn command_marks(s: Seq<char>, k: int) -> CommandMarks
    decreases k,
{
    if k <= 0 {
        CommandMarks { open: None, close: None, quote: None }
    } else {
        let prev = command_marks(s, k - 1);
        let i = k - 1;
        let st = scan_state(s, i);
        if s[i] == '"' && !st.escaped {
            CommandMarks {
                open: prev.open,
                close: prev.close,
                quote: if st.in_string {
                    None
                } else {
                    Some(i)
                },
            }
        } else if s[i] == '(' && !st.in_string && st.depth == 0 && prev.open is None {
            CommandMarks { open: Some(i), close: prev.close, quote: prev.quote }
        } else if s[i] == ')' && !st.in_string && st.depth == 1 && prev.close is None {
            CommandMarks { open: prev.open, close: Some(i), quote: prev.quote }
        } else {
            prev
        }
    }
}

/// The piece `s[a..b]` of a text standing at byte `base`, trimmed.
#[verifier::opaque]
pub open spec fn piece(s: Seq<char>, base: int, a: int, b: int) -> TextView {
    from_text_view(s.subrange(a, b), base + text::blen(s.take(a)))
}

/// Where the top-level commas of the first `k` characters of `s` cut it:
/// the start of the current argument, and the arguments before it.
pub open spec fn arg_cuts(s: Seq<char>, k: int) -> (int, Seq<(int, int)>)
    decreases k,
{
    if k <= 0 {
        (0, Seq::empty())
    } else {
        let prev = arg_cuts(s, k - 1);
        let i = k - 1;
        let st = scan_state(s, i);
        if s[i] == ',' && st.depth == 0 && !st.in_string {
            (i + 1, prev.1.push((prev.0, i)))
        } else {
            prev
        }
    }
}

/// The arguments of the list `s`, standing at byte `base`: none when it is
/// blank, else one per top-level comma, plus the last one.
#[verifier::opaque]
pub open spec fn args_spec(s: Seq<char>, base: int) -> Seq<TextView> {
    if text::trim(s).len() == 0 {
        Seq::empty()
    } else {
        let cuts = arg_cuts(s, s.len() as int);
        cuts.1.map_values(|p: (int, int)| piece(s, base, p.0, p.1)).push(
            piece(s, base, cuts.0, s.len() as int),
        )
    }
}

/// The arguments cut so far are in order and inside `s`.
proof fn lemma_arg_cuts(s: Seq<char>, k: int)
    requires
        0 <= k <= s.len(),
    ensures
        0 <= arg_cuts(s, k).0 <= k,
        forall|j: int|
            0 <= j < arg_cuts(s, k).1.len() ==> 0 <= (#[trigger] arg_cuts(s, k).1[j]).0
                <= arg_cuts(s, k).1[j].1 < arg_cuts(s, k).0,
    decreases k,
{
    if k > 0 {
        lemma_arg_cuts(s, k - 1);
    }
}

/// Pushes the piece `s[start..end]` of a text standing at byte `base`,
/// `start_byte` being the byte offset of `start`.
fn push_piece<'a>(
    out: &mut Vec<Spanned<&'a str>>,
    s: &'a str,
    base: usize,
    start: usize,
    end: usize,
    start_byte: usize,
)
    requires
        start <= end <= s@.len(),
        start_byte == text::blen(s@.take(start as int)),
        base + text::blen(s@) <= usize::MAX,
    ensures
        tvs(final(out)@) == tvs(old(out)@).push(piece(s@, base as int, start as int, end as int)),
{
    proof {
        reveal(from_text_view);
        reveal(piece);
        text::lemma_blen_prefix(s@, start as int);
        text::lemma_blen_subrange(s@, start as int, end as int);
        text::lemma_blen_prefix(s@, end as int);
    }
    let text = text::slice(s, start, end);
    let x = Spanned::from_text(text, base + start_byte);
    let ghost prev = out@;
    out.push(x);
    proof {
        vstd::seq::axiom_seq_push_len(prev, x);
        assert(tvs(out@) =~= tvs(prev).push(piece(s@, base as int, start as int, end as int)));
    }
}

/// Where the top-level commas of `s` cut it: the character range and the
/// byte offset of every argument but the last, then the start of the last
/// one in characters and in bytes.
fn arg_ranges(s: &str, cur: &Vec<Cursor>) -> (r: (Vec<(usize, usize, usize)>, usize, usize))
    requires
        s@.len() == cur@.len(),
        text::blen(s@) <= usize::MAX,
        forall|k: int| 0 <= k < cur@.len() ==> cursor_at(#[trigger] cur@[k], s@, k),
    ensures
        r.0@.len() == arg_cuts(s@, s@.len() as int).1.len(),
        forall|j: int|
            0 <= j < r.0@.len() ==> {
                &&& (#[trigger] r.0@[j]).0 == arg_cuts(s@, s@.len() as int).1[j].0
                &&& r.0@[j].1 == arg_cuts(s@, s@.len() as int).1[j].1
                &&& r.0@[j].2 == text::blen(s@.take(r.0@[j].0 as int))
            },
        r.1 == arg_cuts(s@, s@.len() as int).0,
        r.2 == text::blen(s@.take(r.1 as int)),
{
    let n = cur.len();
    let mut out: Vec<(usize, usize, usize)> = Vec::new();
    let mut start: usize = 0;
    let mut start_byte: usize = 0;
    let mut i: usize = 0;
    proof {
        assert(s@.take(0) =~= Seq::<char>::empty());
    }
    while i < n
        invariant
            n == s@.len(),
            n == cur@.len(),
            text::blen(s@) <= usize::MAX,
            forall|k: int| 0 <= k < cur@.len() ==> cursor_at(#[trigger] cur@[k], s@, k),
            i <= n,
            start == arg_cuts(s@, i as int).0,
            start <= i,
            start_byte == text::blen(s@.take(start as int)),
            out@.len() == arg_cuts(s@, i as int).1.len(),
            forall|j: int|
                0 <= j < out@.len() ==> {
                    &&& (#[trigger] out@[j]).0 == arg_cuts(s@, i as int).1[j].0
                    &&& out@[j].1 == arg_cuts(s@, i as int).1[j].1
                    &&& out@[j].2 == text::blen(s@.take(out@[j].0 as int))
                },
        decreases n - i,
    {
        let c = cur[i];
        proof {
            assert(cursor_at(cur@[i as int], s@, i as int));
        }
        if c.ch == ',' && c.depth == 0 && !c.in_string {
            let ghost prev = out@;
            let item = (start, i, start_byte);
            out.push(item);
            proof {
                vstd::seq::axiom_seq_push_len(prev, item);
                vstd::seq::axiom_seq_push_index_same(prev, item, prev.len() as int);
                text::lemma_blen_push(s@.take(i as int), ',');
                assert(s@.take(i as int).push(',') =~= s@.take(i + 1));
                text::lemma_blen_prefix(s@, i + 1);
            }
            start = i + 1;
            start_byte = c.index + 1;
        }
        i = i + 1;
    }
    (out, start, start_byte)
}

/// Whether `s` holds nothing but blanks.
fn is_blank(s: &str) -> (r: bool)
    ensures
        r == (text::trim(s@).len() == 0),
{
    let cs = text::to_chars(s);
    let n = cs.len();
    proof {
        assert(cs@.subrange(0, n as int) =~= s@);
        text::lemma_lead_shape(s@);
    }
    let l = text::lead_count(&cs, 0, n);
    proof {
        if l < n {
            assert(text::trim_start(s@).len() > 0);
            text::lemma_trail_shape(text::trim_start(s@));
            assert(text::trim_start(s@)[0] == s@[text::lead(s@) as int]);
            assert(text::trail(text::trim_start(s@)) < text::trim_start(s@).len());
        }
    }
    l == n
}

/// Splits an argument list on its top level commas, so that a comma inside a
/// string or inside a nested call stays part of its argument.
///
/// An empty list yields no argument, so that `f()` takes none. `args` is
/// expected to be the inside of the parentheses, already trimmed.
///
/// Nothing is validated: an unterminated string swallows the rest of the list,
/// and an unbalanced `)` is simply ignored. Both are reported later, from the
/// spans this returns.
pub fn split_args<'a>(args: Spanned<&'a str>) -> (r: Vec<Spanned<&'a str>>)
    requires
        args.span.start + text::blen(args.value@) <= usize::MAX,
    ensures
        tvs(r@) == args_spec(args.value@, args.span.start as int),
{
    proof {
        reveal(args_spec);
    }
    let s = args.value;
    let base = args.span.start;
    if is_blank(s) {
        proof {
            assert(tvs(Seq::<Spanned<&'a str>>::empty()) =~= Seq::<TextView>::empty());
        }
        return Vec::new();
    }
    let n = text::to_chars(s).len();
    proof {
        text::lemma_blen_ge_len(s@);
    }
    let cur = scan(s);
    let (ranges, last, last_byte) = arg_ranges(s, &cur);
    let ghost cuts = arg_cuts(s@, n as int);
    proof {
        lemma_arg_cuts(s@, n as int);
    }
    let mut out: Vec<Spanned<&'a str>> = Vec::new();
    let mut j: usize = 0;
    while j < ranges.len()
        invariant
            cuts == arg_cuts(s@, n as int),
            n == s@.len(),
            base + text::blen(s@) <= usize::MAX,
            ranges@.len() == cuts.1.len(),
            forall|k: int|
                0 <= k < ranges@.len() ==> {
                    &&& (#[trigger] ranges@[k]).0 == cuts.1[k].0
                    &&& ranges@[k].1 == cuts.1[k].1
                    &&& ranges@[k].2 == text::blen(s@.take(ranges@[k].0 as int))
                },
            forall|k: int|
                0 <= k < cuts.1.len() ==> 0 <= (#[trigger] cuts.1[k]).0 <= cuts.1[k].1 < cuts.0,
            0 <= cuts.0 <= n,
            j <= ranges@.len(),
            tvs(out@) == cuts.1.take(j as int).map_values(
                |p: (int, int)| piece(s@, base as int, p.0, p.1),
            ),
        decreases ranges@.len() - j,
    {
        let (a, b, a_byte) = ranges[j];
        proof {
            assert(ranges@[j as int].0 == cuts.1[j as int].0);
        }
        push_piece(&mut out, s, base, a, b, a_byte);
        proof {
            assert(cuts.1.take(j + 1).map_values(|p: (int, int)| piece(s@, base as int, p.0, p.1))
                =~= cuts.1.take(j as int).map_values(
                |p: (int, int)| piece(s@, base as int, p.0, p.1),
            ).push(piece(s@, base as int, a as int, b as int)));
        }
        j = j + 1;
    }
    push_piece(&mut out, s, base, last, n, last_byte);
    proof {
        assert(cuts.1.take(j as int) =~= cuts.1);
    }
    out
}

/// An optional index seen as an integer.
pub open spec fn opt_int(o: Option<usize>) -> Option<int> {
    match o {
        Some(i) => Some(i as int),
        None => None,
    }
}

/// [`command_marks`] of the whole payload `s`. Before the first top-level
/// `(`, no `(` is open; a matching `)` comes after it.
fn marks(s: &str, cur: &Vec<Cursor>) -> (r: (Option<usize>, Option<usize>, Option<usize>))
    requires
        s@.len() == cur@.len(),
        forall|k: int| 0 <= k < cur@.len() ==> cursor_at(#[trigger] cur@[k], s@, k),
    ensures
        opt_int(r.0) == command_marks(s@, s@.len() as int).open,
        opt_int(r.1) == command_marks(s@, s@.len() as int).close,
        opt_int(r.2) == command_marks(s@, s@.len() as int).quote,
        r.1 is Some ==> r.0 is Some && r.0->0 < r.1->0,
        r.0 is Some ==> r.0->0 < s@.len(),
        r.1 is Some ==> r.1->0 < s@.len() && s@[r.1->0 as int] == ')',
        r.2 is Some ==> r.2->0 < s@.len(),
{
    let n = cur.len();
    let mut open: Option<usize> = None;
    let mut close: Option<usize> = None;
    let mut quote: Option<usize> = None;
    let mut i: usize = 0;
    while i < n
        invariant
            n == s@.len(),
            n == cur@.len(),
            forall|k: int| 0 <= k < cur@.len() ==> cursor_at(#[trigger] cur@[k], s@, k),
            i <= n,
            opt_int(open) == command_marks(s@, i as int).open,
            opt_int(close) == command_marks(s@, i as int).close,
            opt_int(quote) == command_marks(s@, i as int).quote,
            open is None ==> scan_state(s@, i as int).depth == 0,
            close is Some ==> open is Some && open->0 < close->0,
            open is Some ==> open->0 < i,
            close is Some ==> close->0 < i && s@[close->0 as int] == ')',
            quote is Some ==> quote->0 < i,
        decreases n - i,
    {
        let c = cur[i];
        proof {
            assert(cursor_at(cur@[i as int], s@, i as int));
        }
        if c.ch == '"' && !c.escaped {
            quote = if c.in_string {
                None
            } else {
                Some(i)
            };
        } else if c.ch == '(' && !c.in_string && c.depth == 0 && open.is_none() {
            open = Some(i);
        } else if c.ch == ')' && !c.in_string && c.depth == 1 && close.is_none() {
            close = Some(i);
        }
        i = i + 1;
    }
    (open, close, quote)
}

/// The span of the string left open at `quote`, up to the end of `s`.
pub open spec fn unterminated_spec(s: Seq<char>, base: int, quote: Option<int>) -> Option<Span> {
    match quote {
        Some(q) => Some(
            Span {
                start: (base + text::blen(s.take(q))) as usize,
                end: (base + text::blen(s)) as usize,
            },
        ),
        None => None,
    }
}

/// What follows the matching `)` at `close`, unless it is blank.
pub open spec fn trailing_spec(s: Seq<char>, base: int, close: Option<int>) -> Option<TextView> {
    match close {
        Some(c) => if piece(s, base, c + 1, s.len() as int).value.len() > 0 {
            Some(piece(s, base, c + 1, s.len() as int))
        } else {
            None
        },
        None => None,
    }
}

/// What [`split_command`] makes of the payload `s`, standing at byte `base`.
pub open spec fn command_spec(s: Seq<char>, base: int, whole: TextView) -> CommandView {
    let m = command_marks(s, s.len() as int);
    match m.open {
        None => CommandView {
            name: whole,
            args: Seq::empty(),
            has_parens: false,
            closed: true,
            trailing: None,
            unterminated_string: unterminated_spec(s, base, m.quote),
        },
        Some(o) => {
            let end = match m.close {
                Some(c) => c,
                None => s.len() as int,
            };
            let inner = piece(s, base, o + 1, end);
            CommandView {
                name: piece(s, base, 0, o),
                args: args_spec(inner.value, inner.span.start as int),
                has_parens: true,
                closed: m.close is Some && trailing_spec(s, base, m.close) is None,
                trailing: trailing_spec(s, base, m.close),
                unterminated_string: unterminated_spec(s, base, m.quote),
            }
        },
    }
}

/// The piece `s[a..b]` of a text standing at byte `base`, trimmed,
/// `a_byte` being the byte offset of `a`.
fn make_piece<'a>(s: &'a str, base: usize, a: usize, b: usize, a_byte: usize) -> (r: Spanned<
    &'a str,
>)
    requires
        a <= b <= s@.len(),
        a_byte == text::blen(s@.take(a as int)),
        base + text::blen(s@) <= usize::MAX,
    ensures
        tv(r) == piece(s@, base as int, a as int, b as int),
        r.span.start + text::blen(r.value@) <= base + text::blen(s@),
{
    proof {
        reveal(from_text_view);
        reveal(piece);
        text::lemma_blen_trim(s@.subrange(a as int, b as int));
        text::lemma_blen_prefix(s@, a as int);
        text::lemma_blen_subrange(s@, a as int, b as int);
        text::lemma_blen_prefix(s@, b as int);
    }
    Spanned::from_text(text::slice(s, a, b), base + a_byte)
}

/// Byte offset of the character `i` of `s`, or of its end.
fn byte_at(s: &str, cur: &Vec<Cursor>, i: usize) -> (r: usize)
    requires
        s@.len() == cur@.len(),
        text::blen(s@) <= usize::MAX,
        forall|k: int| 0 <= k < cur@.len() ==> cursor_at(#[trigger] cur@[k], s@, k),
        i <= s@.len(),
    ensures
        r == text::blen(s@.take(i as int)),
{
    if i < cur.len() {
        proof {
            assert(cursor_at(cur@[i as int], s@, i as int));
        }
        cur[i].index
    } else {
        proof {
            assert(s@.take(i as int) =~= s@);
        }
        s.len()
    }
}

/// The span of the string left open at `quote`, up to the end of `s`.
fn unterminated(s: &str, cur: &Vec<Cursor>, base: usize, quote: Option<usize>) -> (r: Option<Span>)
    requires
        s@.len() == cur@.len(),
        base + text::blen(s@) <= usize::MAX,
        forall|k: int| 0 <= k < cur@.len() ==> cursor_at(#[trigger] cur@[k], s@, k),
        quote is Some ==> quote->0 < s@.len(),
    ensures
        r == unterminated_spec(s@, base as int, opt_int(quote)),
{
    match quote {
        Some(q) => {
            let q_byte = byte_at(s, cur, q);
            proof {
                text::lemma_blen_prefix(s@, q as int);
            }
            Some(Span::from_length(base + q_byte, s.len() - q_byte))
        },
        None => None,
    }
}

/// The parts of a payload that has an argument list opening at `o`, and
/// closing at `close` if it does: its name, its arguments, and what trails
/// after the `)`.
fn split_list<'a>(
    s: &'a str,
    cur: &Vec<Cursor>,
    base: usize,
    o: usize,
    close: Option<usize>,
) -> (r: (Spanned<&'a str>, Vec<Spanned<&'a str>>, Option<Spanned<&'a str>>))
    requires
        s@.len() == cur@.len(),
        base + text::blen(s@) <= usize::MAX,
        forall|k: int| 0 <= k < cur@.len() ==> cursor_at(#[trigger] cur@[k], s@, k),
        o < s@.len(),
        close is Some ==> o < close->0 < s@.len(),
    ensures
        tv(r.0) == piece(s@, base as int, 0, o as int),
        tvs(r.1@) == ({
            let inner = piece(
                s@,
                base as int,
                o + 1,
                match close {
                    Some(c) => c as int,
                    None => s@.len() as int,
                },
            );
            args_spec(inner.value, inner.span.start as int)
        }),
        opt_tv(r.2) == trailing_spec(s@, base as int, opt_int(close)),
{
    let n = cur.len();
    proof {
        assert(s@.take(0) =~= Seq::<char>::empty());
    }
    let name = make_piece(s, base, 0, o, 0);
    let (end, trailing) = match close {
        Some(c) => {
            let after = make_piece(s, base, c + 1, n, byte_at(s, cur, c + 1));
            if after.value.is_empty() {
                (c, None)
            } else {
                (c, Some(after))
            }
        },
        None => (n, None),
    };
    let inner = make_piece(s, base, o + 1, end, byte_at(s, cur, o + 1));
    let args = split_args(inner);
    (name, args, trailing)
}

/// Split what follows a `>>` into a name and an argument list.
///
/// Nothing is validated: an unclosed list, a trailing token or an unterminated
/// string are reported through the fields of [`CommandParts`], never by
/// failing, so that a command being typed still splits.
pub fn split_command<'a>(cmd: Spanned<&'a str>) -> (r: CommandParts<'a>)
    requires
        cmd.span.start + text::blen(cmd.value@) <= usize::MAX,
    ensures
        r.view() == command_spec(cmd.value@, cmd.span.start as int, tv(cmd)),
{
    let s = cmd.value;
    let base = cmd.span.start;
    let cur = scan(s);
    let (open, close, quote) = marks(s, &cur);
    let unterminated_string = unterminated(s, &cur, base, quote);
    match open {
        None => {
            proof {
                assert(tvs(Seq::<Spanned<&'a str>>::empty()) =~= Seq::<TextView>::empty());
            }
            CommandParts {
                name: cmd,
                args: Vec::new(),
                has_parens: false,
                closed: true,
                trailing: None,
                unterminated_string,
            }
        },
        Some(o) => {
            let (name, args, trailing) = split_list(s, &cur, base, o, close);
            CommandParts {
                name,
                args,
                has_parens: true,
                closed: close.is_some() && trailing.is_none(),
                trailing,
                unterminated_string,
            }
        },
    }
}

/// Without an argument list a command is its name alone: no argument, closed
/// and nothing trailing. A closed list leaves nothing trailing, and a list is
/// closed exactly when its first top-level `(` has a matching `)` with nothing
/// but blanks after it.
pub proof fn lemma_command_shape(s: Seq<char>, base: int, whole: TextView)
    ensures
        ({
            let v = command_spec(s, base, whole);
            &&& !v.has_parens ==> v.args.len() == 0 && v.closed && v.trailing is None && v.name
                == whole
            &&& v.closed ==> v.trailing is None
            &&& v.has_parens ==> (v.closed <==> match command_marks(s, s.len() as int).close {
                Some(c) => text::trim(s.subrange(c + 1, s.len() as int)).len() == 0,
                None => false,
            })
        }),
{
    reveal(piece);
    reveal(from_text_view);
}

/// The piece `p` of the text `s` standing at byte `base` is a run of its
/// characters, trimmed, whose span holds exactly the bytes of that run.
pub open spec fn slices_back(s: Seq<char>, base: int, p: TextView) -> bool {
    exists|i: int, j: int|
        {
            &&& 0 <= i <= j <= s.len()
            &&& p.span.start == base + text::blen(#[trigger] s.take(i))
            &&& p.span.end == base + text::blen(#[trigger] s.take(j))
            &&& p.value == s.subrange(i, j)
            &&& text::trim(p.value) == p.value
        }
}

/// A trimmed piece of `s` slices back to its text.
proof fn lemma_piece_slices_back(s: Seq<char>, base: int, a: int, b: int)
    requires
        0 <= a <= b <= s.len(),
        0 <= base,
        base + text::blen(s) <= usize::MAX,
    ensures
        slices_back(s, base, piece(s, base, a, b)),
{
    reveal(piece);
    reveal(from_text_view);
    let sub = s.subrange(a, b);
    text::lemma_trim_range(sub);
    text::lemma_trim_idempotent(sub);
    let l = text::lead(sub) as int;
    let e = sub.len() - text::trail(text::trim_start(sub));
    let i = a + l;
    let j = a + e;
    assert(s.take(i) =~= s.take(a) + sub.take(l));
    text::lemma_blen_add(s.take(a), sub.take(l));
    assert(text::trim(sub) =~= s.subrange(i, j));
    text::lemma_blen_subrange(s, i, j);
    text::lemma_blen_subrange(s, 0, j);
    assert(s.subrange(0, j) =~= s.take(j));
    let p = piece(s, base, a, b);
    assert(p.span.start == base + text::blen(s.take(i)));
    assert(p.span.end == base + text::blen(s.take(j)));
}

/// A piece of a piece of `s` is a piece of `s`.
proof fn lemma_slices_back_compose(s: Seq<char>, base: int, t: TextView, q: TextView)
    requires
        slices_back(s, base, t),
        slices_back(t.value, t.span.start as int, q),
    ensures
        slices_back(s, base, q),
{
    let (i, j) = choose|i: int, j: int|
        {
            &&& 0 <= i <= j <= s.len()
            &&& t.span.start == base + text::blen(#[trigger] s.take(i))
            &&& t.span.end == base + text::blen(#[trigger] s.take(j))
            &&& t.value == s.subrange(i, j)
            &&& text::trim(t.value) == t.value
        };
    let (i2, j2) = choose|i2: int, j2: int|
        {
            &&& 0 <= i2 <= j2 <= t.value.len()
            &&& q.span.start == t.span.start + text::blen(#[trigger] t.value.take(i2))
            &&& q.span.end == t.span.start + text::blen(#[trigger] t.value.take(j2))
            &&& q.value == t.value.subrange(i2, j2)
            &&& text::trim(q.value) == q.value
        };
    assert(s.take(i + i2) =~= s.take(i) + t.value.take(i2));
    text::lemma_blen_add(s.take(i), t.value.take(i2));
    assert(s.take(i + j2) =~= s.take(i) + t.value.take(j2));
    text::lemma_blen_add(s.take(i), t.value.take(j2));
    assert(q.value =~= s.subrange(i + i2, i + j2));
    assert(slices_back(s, base, q)) by {
        assert(q.span.start == base + text::blen(s.take(i + i2)));
        assert(q.span.end == base + text::blen(s.take(i + j2)));
    }
}

/// Where the first top-level `(` and its matching `)` stand: inside the
/// scanned characters, the `)` after the `(`; with no `(` yet, no `(` is
/// open.
proof fn lemma_marks_bounds(s: Seq<char>, k: int)
    requires
        0 <= k <= s.len(),
    ensures
        command_marks(s, k).open matches Some(o) ==> 0 <= o < k,
        command_marks(s, k).close matches Some(c) ==> (command_marks(s, k).open matches Some(o)
            && o < c < k),
        command_marks(s, k).open is None ==> scan_state(s, k).depth == 0,
    decreases k,
{
    if k > 0 {
        lemma_marks_bounds(s, k - 1);
    }
}

/// A piece that slices back lies inside `s`, and its span holds its bytes.
proof fn lemma_slices_back_bounds(s: Seq<char>, base: int, t: TextView)
    requires
        slices_back(s, base, t),
    ensures
        base <= t.span.start <= t.span.end <= base + text::blen(s),
        t.span.end == t.span.start + text::blen(t.value),
{
    let (i, j) = choose|i: int, j: int|
        {
            &&& 0 <= i <= j <= s.len()
            &&& t.span.start == base + text::blen(#[trigger] s.take(i))
            &&& t.span.end == base + text::blen(#[trigger] s.take(j))
            &&& t.value == s.subrange(i, j)
            &&& text::trim(t.value) == t.value
        };
    text::lemma_blen_subrange(s, i, j);
    text::lemma_blen_subrange(s, 0, i);
}

/// Every argument of a list slices back to its text.
proof fn lemma_args_slice_back(s: Seq<char>, base: int)
    requires
        0 <= base,
        base + text::blen(s) <= usize::MAX,
    ensures
        forall|k: int|
            0 <= k < args_spec(s, base).len() ==> slices_back(s, base, #[trigger] args_spec(s, base)[k]),
{
    reveal(args_spec);
    if text::trim(s).len() != 0 {
        let n = s.len() as int;
        let cuts = arg_cuts(s, n);
        lemma_arg_cuts(s, n);
        let args = args_spec(s, base);
        assert forall|k: int| 0 <= k < args.len() implies slices_back(s, base, #[trigger] args[k]) by {
            if k < cuts.1.len() {
                lemma_piece_slices_back(s, base, cuts.1[k].0, cuts.1[k].1);
            } else {
                lemma_piece_slices_back(s, base, cuts.0, n);
            }
        }
    }
}

/// Every part that [`split_command`] returns of a trimmed command lies inside
/// the command's span, and its span slices the command back to the part's
/// text, itself trimmed.
pub proof fn lemma_command_parts_slice_back(cmd: Spanned<&str>)
    requires
        cmd.span.start + text::blen(cmd.value@) <= usize::MAX,
        cmd.span.end == cmd.span.start + text::blen(cmd.value@),
        text::trim(cmd.value@) == cmd.value@,
    ensures
        ({
            let s = cmd.value@;
            let base = cmd.span.start as int;
            let v = command_spec(s, base, tv(cmd));
            &&& slices_back(s, base, v.name)
            &&& forall|k: int| 0 <= k < v.args.len() ==> slices_back(s, base, #[trigger] v.args[k])
            &&& v.trailing matches Some(t) ==> slices_back(s, base, t)
        }),
{
    let s = cmd.value@;
    let base = cmd.span.start as int;
    let n = s.len() as int;
    let v = command_spec(s, base, tv(cmd));
    let m = command_marks(s, n);
    lemma_marks_bounds(s, n);
    match m.open {
        None => {
            assert(s.take(0) =~= Seq::<char>::empty());
            text::lemma_blen_empty();
            assert(s.take(n) =~= s);
            assert(s.subrange(0, n) =~= s);
            assert(slices_back(s, base, v.name));
        },
        Some(o) => {
            lemma_piece_slices_back(s, base, 0, o);
            let end = match m.close {
                Some(c) => c,
                None => n,
            };
            let inner = piece(s, base, o + 1, end);
            lemma_piece_slices_back(s, base, o + 1, end);
            lemma_slices_back_bounds(s, base, inner);
            lemma_args_slice_back(inner.value, inner.span.start as int);
            assert forall|k: int| 0 <= k < v.args.len() implies slices_back(
                s,
                base,
                #[trigger] v.args[k],
            ) by {
                lemma_slices_back_compose(s, base, inner, v.args[k]);
            }
            if let Some(c) = m.close {
                lemma_piece_slices_back(s, base, c + 1, n);
            }
        },
    }
}

} // verus!
