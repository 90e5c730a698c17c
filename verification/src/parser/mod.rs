//! Parser for Replique: positions in a source, and the passes that read it.

use vstd::prelude::*;

use crate::text;

pub mod ast;
pub mod command;
pub mod diagnostic;
pub mod expr;
pub mod lines;
pub mod styled;
pub mod tree;

pub use tree::{parse, Parsed};

verus! {

broadcast use vstd::seq_lib::group_seq_properties;

/// Name of the node a jump to which ends the dialogue.
pub const END_NODE_NAME: &'static str = "END";

/// The characters of [`END_NODE_NAME`], the one name a node cannot take.
pub open spec fn end_node_name() -> Seq<char> {
    "END"@
}

/// Whether `outer` covers `inner`.
pub open spec fn covers(outer: Span, inner: Span) -> bool {
    outer.start <= inner.start && inner.end <= outer.end
}

/// The join of two spans is the smallest span that covers both, whichever
/// comes first.
pub proof fn lemma_join_smallest(a: Span, b: Span, s: Span)
    ensures
        covers(join_spec(a, b), a),
        covers(join_spec(a, b), b),
        covers(s, a) && covers(s, b) ==> covers(s, join_spec(a, b)),
        join_spec(a, b) == join_spec(b, a),
{
}

/// Used to index text & tokens in the file (in bytes).
#[derive(Debug, Clone, Copy, PartialEq, Eq, Structural)]
pub struct Span {
    pub start: usize,
    pub end: usize,
}

/// Smallest span covering both `a` and `b`.
pub open spec fn join_spec(a: Span, b: Span) -> Span {
    Span {
        start: if a.start <= b.start {
            a.start
        } else {
            b.start
        },
        end: if a.end >= b.end {
            a.end
        } else {
            b.end
        },
    }
}

impl Span {
    pub fn new(start: usize, end: usize) -> (r: Self)
        ensures
            r == (Span { start, end }),
    {
        Span { start, end }
    }

    /// Build a span from its start and its length.
    pub fn from_length(start: usize, length: usize) -> (r: Self)
        requires
            start + length <= usize::MAX,
        ensures
            r.start == start,
            r.end == start + length,
    {
        Span { start, end: start + length }
    }

    /// Length in bytes of the span.
    pub fn length(&self) -> (r: usize)
        requires
            self.start <= self.end,
        ensures
            r == self.end - self.start,
    {
        self.end - self.start
    }

    /// Smallest span covering both.
    pub fn join(self, other: Span) -> (r: Self)
        ensures
            r == join_spec(self, other),
    {
        let start = if self.start <= other.start {
            self.start
        } else {
            other.start
        };
        let end = if self.end >= other.end {
            self.end
        } else {
            other.end
        };
        Span { start, end }
    }
}

/// Character index of the start of every line of `s`: `0`, then one past
/// every `'\n'`.
pub open spec fn nl_starts(s: Seq<char>) -> Seq<int>
    decreases s.len(),
{
    if s.len() == 0 {
        seq![0]
    } else if s.last() == '\n' {
        nl_starts(s.drop_last()).push(s.len() as int)
    } else {
        nl_starts(s.drop_last())
    }
}

/// Byte offset of the start of every line of `s`.
pub open spec fn line_starts_of(s: Seq<char>) -> Seq<int> {
    nl_starts(s).map_values(|k: int| text::blen(s.take(k)) as int)
}

/// The starts of lines are increasing, begin at `0`, stay inside `s`, and
/// each follows a `'\n'`.
pub proof fn lemma_nl_starts(s: Seq<char>)
    ensures
        nl_starts(s).len() >= 1,
        nl_starts(s)[0] == 0,
        forall|i: int, j: int|
            0 <= i < j < nl_starts(s).len() ==> nl_starts(s)[i] < nl_starts(s)[j],
        forall|i: int| 0 <= i < nl_starts(s).len() ==> 0 <= #[trigger] nl_starts(s)[i] <= s.len(),
        forall|i: int| 1 <= i < nl_starts(s).len() ==> s[#[trigger] nl_starts(s)[i] - 1] == '\n',
        nl_starts(s).len() <= s.len() + 1,
    decreases s.len(),
{
    if s.len() > 0 {
        lemma_nl_starts(s.drop_last());
    }
}

/// Text of the line `line` of `src`, which has `count` lines, its `'\n'`
/// included.
pub open spec fn line_text_spec(src: Seq<char>, count: int, line: int) -> Seq<char> {
    src.subrange(
        nl_starts(src)[line],
        if line + 1 < count {
            nl_starts(src)[line + 1]
        } else {
            src.len() as int
        },
    )
}

/// Whether `c` ends a line.
pub open spec fn is_newline(c: char) -> bool {
    c == '\n'
}

/// Number of `'\n'` in `s`.
pub open spec fn newline_count(s: Seq<char>) -> nat {
    s.filter(|c: char| is_newline(c)).len()
}

/// The lines of `src`, each with its `'\n'`, as [`LineIndex::line_text`]
/// gives them.
pub open spec fn source_lines(src: Seq<char>) -> Seq<Seq<char>> {
    Seq::new(nl_starts(src).len(), |i: int| line_text_spec(src, nl_starts(src).len() as int, i))
}

/// Every `'\n'` of `s` starts a line right after it.
proof fn lemma_nl_starts_complete(s: Seq<char>, k: int)
    requires
        0 <= k < s.len(),
        s[k] == '\n',
    ensures
        exists|j: int| 0 <= j < nl_starts(s).len() && #[trigger] nl_starts(s)[j] == k + 1,
    decreases s.len(),
{
    let t = s.drop_last();
    if k == s.len() - 1 {
        assert(nl_starts(s)[nl_starts(s).len() - 1] == k + 1);
    } else {
        lemma_nl_starts_complete(t, k);
        let j = choose|j: int| 0 <= j < nl_starts(t).len() && #[trigger] nl_starts(t)[j] == k + 1;
        assert(nl_starts(s)[j] == k + 1);
    }
}

/// The line count, one more than the number of `'\n'`; the lines end with
/// their `'\n'`; the lines, put back together, give the source.
proof fn lemma_lines_rebuild(s: Seq<char>)
    ensures
        nl_starts(s).len() == 1 + newline_count(s),
        source_lines(s).flatten() == s,
    decreases s.len(),
{
    lemma_nl_starts(s);
    if s.len() == 0 {
        assert(s.filter(|c: char| is_newline(c)) =~= s) by {
            reveal(Seq::filter);
        }
        let ls = source_lines(s);
        ls.lemma_flatten_one_element();
        assert(ls[0] =~= s);
    } else {
        let t = s.drop_last();
        let c = s.last();
        lemma_lines_rebuild(t);
        lemma_nl_starts(t);
        assert(t.push(c) =~= s);
        t.lemma_filter_push(c, |c: char| is_newline(c));
        let lt = source_lines(t);
        let ls = source_lines(s);
        let nt = lt.len() as int;
        let last = lt[nt - 1];
        assert(lt =~= lt.drop_last().push(last));
        lt.drop_last().lemma_flatten_push(last);
        lt.drop_last().lemma_flatten_push(last.push(c));
        assert(last.push(c) =~= s.subrange(nl_starts(t)[nt - 1], s.len() as int));
        assert forall|i: int| 0 <= i < nt - 1 implies #[trigger] ls[i] == lt[i] by {
            assert(nl_starts(s)[i] == nl_starts(t)[i]);
            assert(nl_starts(s)[i + 1] == nl_starts(t)[i + 1]);
            assert(ls[i] =~= lt[i]);
        }
        assert(nl_starts(s)[nt - 1] == nl_starts(t)[nt - 1]);
        if c == '\n' {
            assert(ls[nt - 1] =~= last.push(c));
            assert(ls[nt] =~= Seq::<char>::empty());
            assert(ls =~= lt.drop_last().push(last.push(c)).push(Seq::empty()));
            lt.drop_last().push(last.push(c)).lemma_flatten_push(Seq::empty());
        } else {
            assert(ls[nt - 1] =~= last.push(c));
            assert(ls =~= lt.drop_last().push(last.push(c)));
        }
    }
}

/// [`LineIndex::new`] counts one line more than `src` has `'\n'`, and
/// [`LineIndex::line_text`] gives lines that, put back together in order,
/// are `src` again; every line but the last ends with a `'\n'`, the only one
/// it holds, and the last holds none.
/// A line but the last ends with its `'\n'`, the only one it holds.
proof fn lemma_inner_line(src: Seq<char>, i: int)
    requires
        0 <= i < nl_starts(src).len() - 1,
    ensures
        ({
            let l = source_lines(src)[i];
            &&& l.len() > 0
            &&& l.last() == '\n'
            &&& forall|k: int| 0 <= k < l.len() - 1 ==> l[k] != '\n'
        }),
{
    lemma_nl_starts(src);
    let ns = nl_starts(src);
    let l = source_lines(src)[i];
    assert(ns[i] < ns[i + 1]);
    assert(src[ns[i + 1] - 1] == '\n');
    assert forall|k: int| 0 <= k < l.len() - 1 implies l[k] != '\n' by {
        if l[k] == '\n' {
            lemma_nl_starts_complete(src, ns[i] + k);
            let j = choose|j: int| 0 <= j < ns.len() && #[trigger] ns[j] == ns[i] + k + 1;
            if j <= i {
                assert(ns[j] <= ns[i]);
            } else if j > i + 1 {
                assert(ns[i + 1] < ns[j]);
            }
        }
    }
}

/// The last line holds no `'\n'`.
proof fn lemma_last_line(src: Seq<char>)
    ensures
        forall|k: int|
            0 <= k < source_lines(src).last().len() ==> source_lines(src).last()[k] != '\n',
{
    lemma_nl_starts(src);
    let ns = nl_starts(src);
    let n = ns.len() as int;
    let l = source_lines(src).last();
    assert forall|k: int| 0 <= k < l.len() implies l[k] != '\n' by {
        if l[k] == '\n' {
            lemma_nl_starts_complete(src, ns[n - 1] + k);
            let j = choose|j: int| 0 <= j < ns.len() && #[trigger] ns[j] == ns[n - 1] + k + 1;
            if j < n - 1 {
                assert(ns[j] < ns[n - 1]);
            }
        }
    }
}

/// [`LineIndex::new`] counts one line more than `src` has `'\n'`, and
/// [`LineIndex::line_text`] gives lines that, put back together in order,
/// are `src` again; every line but the last ends with a `'\n'`, the only one
/// it holds, and the last holds none.
pub proof fn lemma_lines_of_source(src: Seq<char>)
    ensures
        nl_starts(src).len() == 1 + newline_count(src),
        source_lines(src).flatten() == src,
        forall|i: int|
            0 <= i < nl_starts(src).len() - 1 ==> {
                let l = #[trigger] source_lines(src)[i];
                &&& l.len() > 0
                &&& l.last() == '\n'
                &&& forall|k: int| 0 <= k < l.len() - 1 ==> l[k] != '\n'
            },
        forall|k: int|
            0 <= k < source_lines(src).last().len() ==> source_lines(src).last()[k] != '\n',
{
    lemma_lines_rebuild(src);
    lemma_last_line(src);
    assert forall|i: int| 0 <= i < nl_starts(src).len() - 1 implies {
        let l = #[trigger] source_lines(src)[i];
        &&& l.len() > 0
        &&& l.last() == '\n'
        &&& forall|k: int| 0 <= k < l.len() - 1 ==> l[k] != '\n'
    } by {
        lemma_inner_line(src, i);
    }
}

/// Line holding the byte `offset`, given the sorted starts of the lines: the
/// last line starting at or before it.
pub open spec fn line_of_spec(starts: Seq<usize>, offset: int) -> int {
    choose|r: int|
        0 <= r < starts.len() && #[trigger] starts[r] <= offset && (r + 1 == starts.len() || offset < starts[r
            + 1])
}

/// Start offset (in bytes) of every line of a source.
/// Used to turn a [`Span`] into a line and a column.
pub struct LineIndex {
    line_starts: Vec<usize>,
    char_starts: Vec<usize>,
    nchars: usize,
    source: Ghost<Seq<char>>,
}

impl LineIndex {
    #[verifier::type_invariant]
    spec fn inv(self) -> bool {
        &&& self.char_starts@.len() == nl_starts(self.source@).len()
        &&& self.line_starts@.len() == self.char_starts@.len()
        &&& forall|i: int|
            0 <= i < self.char_starts@.len() ==> self.char_starts@[i] as int == #[trigger] nl_starts(
                self.source@,
            )[i]
        &&& forall|i: int|
            0 <= i < self.line_starts@.len() ==> self.line_starts@[i] as int == #[trigger] text::blen(
                self.source@.take(self.char_starts@[i] as int),
            )
        &&& text::blen(self.source@) < usize::MAX
        &&& self.nchars == self.source@.len()
    }

    /// The source the index was built from.
    pub closed spec fn source(self) -> Seq<char> {
        self.source@
    }

    /// Byte offset of the start of every line.
    pub closed spec fn starts(self) -> Seq<usize> {
        self.line_starts@
    }

    /// Character index of the start of every line.
    pub closed spec fn char_starts(self) -> Seq<usize> {
        self.char_starts@
    }

    /// What the index holds, tied to its source.
    proof fn lemma_shape(self)
        requires
            self.inv(),
        ensures
            self.starts().len() == self.char_starts().len(),
            self.starts().len() == nl_starts(self.source()).len(),
            self.starts().len() >= 1,
            self.starts()[0] == 0,
            forall|i: int|
                0 <= i < self.starts().len() ==> #[trigger] self.starts()[i] as int
                    == line_starts_of(self.source())[i],
            forall|i: int|
                0 <= i < self.starts().len() ==> #[trigger] self.char_starts()[i] as int
                    == nl_starts(self.source())[i],
            forall|i: int, j: int|
                0 <= i < j < self.starts().len() ==> self.starts()[i] < self.starts()[j],
            forall|i: int|
                0 <= i < self.starts().len() ==> #[trigger] self.starts()[i] <= text::blen(
                    self.source(),
                ),
            text::blen(self.source()) < usize::MAX,
    {
        let s = self.source@;
        lemma_nl_starts(s);
        assert(s.take(0) =~= Seq::<char>::empty());
        text::lemma_blen_empty();
        assert(self.char_starts@[0] as int == nl_starts(s)[0]);
        assert(self.line_starts@[0] as int == text::blen(s.take(self.char_starts@[0] as int)));
        assert forall|i: int, j: int| 0 <= i < j < self.starts().len() implies self.starts()[i]
            < self.starts()[j] by {
            let a = nl_starts(s)[i];
            let b = nl_starts(s)[j];
            assert(self.char_starts@[i] as int == a);
            assert(self.char_starts@[j] as int == b);
            text::lemma_blen_subrange(s, a, b);
            text::lemma_blen_ge_len(s.subrange(a, b));
        }
        assert forall|i: int| 0 <= i < self.starts().len() implies #[trigger] self.starts()[i]
            <= text::blen(self.source()) by {
            assert(self.char_starts@[i] as int == nl_starts(s)[i]);
            text::lemma_blen_prefix(s, nl_starts(s)[i]);
        }
    }

    /// Create the line index from the source text.
    pub fn new(src: &str) -> (r: Self)
        requires
            text::blen(src@) < usize::MAX,
        ensures
            r.source() == src@,
            r.starts().len() == nl_starts(src@).len(),
            forall|i: int|
                0 <= i < r.starts().len() ==> #[trigger] r.starts()[i] as int == line_starts_of(
                    src@,
                )[i],
    {
        let cs = text::to_chars(src);
        let ghost s = src@;
        let mut line_starts: Vec<usize> = Vec::new();
        let mut char_starts: Vec<usize> = Vec::new();
        line_starts.push(0);
        char_starts.push(0);
        let mut i: usize = 0;
        let mut bytes: usize = 0;
        proof {
            assert(s.take(0) =~= Seq::<char>::empty());
            assert(nl_starts(s.take(0)) =~= seq![0int]);
        }
        while i < cs.len()
            invariant
                cs@ == s,
                i <= cs@.len(),
                text::blen(s) < usize::MAX,
                bytes == text::blen(s.take(i as int)),
                char_starts@.len() == nl_starts(s.take(i as int)).len(),
                line_starts@.len() == char_starts@.len(),
                forall|k: int|
                    0 <= k < char_starts@.len() ==> char_starts@[k] as int == #[trigger] nl_starts(
                        s.take(i as int),
                    )[k],
                forall|k: int|
                    0 <= k < line_starts@.len() ==> line_starts@[k] as int == #[trigger] text::blen(
                        s.take(char_starts@[k] as int),
                    ),
            decreases cs@.len() - i,
        {
            let c = cs[i];
            proof {
                text::lemma_blen_push(s.take(i as int), c);
                assert(s.take(i as int).push(c) =~= s.take(i + 1));
                text::lemma_blen_prefix(s, i + 1);
                assert(s.take(i + 1).drop_last() =~= s.take(i as int));
            }
            bytes = bytes + text::char_width(c);
            i = i + 1;
            if c == '\n' {
                line_starts.push(bytes);
                char_starts.push(i);
            }
        }
        proof {
            assert(s.take(i as int) =~= s);
            text::lemma_blen_ge_len(s);
        }
        let r = LineIndex { line_starts, char_starts, nchars: cs.len(), source: Ghost(s) };
        r
    }

    /// Number of lines of the indexed source. Always at least 1.
    pub fn line_count(&self) -> (r: usize)
        ensures
            r == self.starts().len(),
            r >= 1,
    {
        proof {
            use_type_invariant(self);
            self.lemma_shape();
        }
        self.line_starts.len()
    }

    /// Index of the first character of `line`, and of the first character
    /// after it.
    fn char_bounds(&self, line: usize) -> (r: (usize, usize))
        requires
            line < self.starts().len(),
        ensures
            r.0 == nl_starts(self.source())[line as int],
            r.1 == (if line + 1 < self.starts().len() {
                nl_starts(self.source())[line + 1]
            } else {
                self.source().len() as int
            }),
            r.0 <= r.1 <= self.source().len(),
    {
        proof {
            use_type_invariant(self);
            lemma_nl_starts(self.source@);
            assert(line < self.char_starts@.len());
            assert(self.char_starts@[line as int] as int == nl_starts(self.source@)[line as int]);
            if line + 1 < self.char_starts@.len() {
                assert(self.char_starts@[line + 1] as int == nl_starts(self.source@)[line + 1]);
            }
        }
        let start = self.char_starts[line];
        let n = self.char_starts.len();
        let end = if line < n - 1 {
            self.char_starts[line + 1]
        } else {
            self.source_len()
        };
        (start, end)
    }

    /// Number of bytes of the source, which is `src`.
    pub(crate) fn source_bytes(&self, src: &str) -> (r: usize)
        requires
            src@ == self.source(),
        ensures
            r == text::blen(self.source()),
    {
        proof {
            use_type_invariant(self);
            text::lemma_str_len(src);
        }
        src.len()
    }

    /// Number of characters of the source.
    fn source_len(&self) -> (r: usize)
        ensures
            r == self.source().len(),
    {
        proof {
            use_type_invariant(self);
        }
        self.nchars
    }

    /// Return the text of a line.
    pub fn line_text<'a>(&self, src: &'a str, line: usize) -> (r: &'a str)
        requires
            src@ == self.source(),
            line < self.starts().len(),
        ensures
            r@ == line_text_spec(src@, self.starts().len() as int, line as int),
            r@.len() <= src@.len(),
            text::blen(src@) < usize::MAX,
            self.starts()[line as int] + text::blen(r@) <= text::blen(src@),
            r@ == src@.subrange(
                nl_starts(src@)[line as int],
                if line + 1 < self.starts().len() {
                    nl_starts(src@)[line + 1]
                } else {
                    src@.len() as int
                },
            ),
    {
        proof {
            use_type_invariant(self);
            self.lemma_shape();
        }
        let (start, end) = self.char_bounds(line);
        proof {
            text::lemma_blen_subrange(src@, start as int, end as int);
            assert(self.starts()[line as int] as int == line_starts_of(src@)[line as int]);
        }
        text::slice(src, start, end)
    }

    /// Line containing `offset`.
    /// An offset past the end of the source belongs to the last line.
    pub fn line_of(&self, offset: usize) -> (r: usize)
        ensures
            r == line_of_spec(self.starts(), offset as int),
            r < self.starts().len(),
            r < usize::MAX,
            self.starts()[r as int] <= offset,
            r + 1 == self.starts().len() || offset < self.starts()[r + 1],
    {
        proof {
            use_type_invariant(self);
            self.lemma_shape();
        }
        let mut lo: usize = 0;
        let mut hi: usize = self.line_starts.len();
        while hi - lo > 1
            invariant
                self.line_starts@ == self.starts(),
                self.starts().len() >= 1,
                self.starts()[0] == 0,
                forall|i: int, j: int|
                    0 <= i < j < self.starts().len() ==> self.starts()[i] < self.starts()[j],
                lo < hi <= self.starts().len(),
                self.starts()[lo as int] <= offset,
                hi == self.starts().len() || offset < self.starts()[hi as int],
            decreases hi - lo,
        {
            let mid = lo + (hi - lo) / 2;
            if self.line_starts[mid] <= offset {
                lo = mid;
            } else {
                hi = mid;
            }
        }
        proof {
            let st = self.starts();
            let c = line_of_spec(st, offset as int);
            assert(0 <= c < st.len() && st[c] <= offset && (c + 1 == st.len() || offset < st[c
                + 1]));
            if c < lo {
                assert(st[c + 1] <= st[lo as int]);
            }
            if c > lo {
                assert(st[lo + 1] <= st[c]);
            }
        }
        lo
    }

    /// Byte offset of the start of `line`, clamped to the last line.
    fn line_start(&self, line: usize) -> (r: usize)
        ensures
            r == self.starts()[if line < self.starts().len() {
                line as int
            } else {
                self.starts().len() - 1
            }],
    {
        proof {
            use_type_invariant(self);
            self.lemma_shape();
        }
        let last = self.line_starts.len() - 1;
        if line < last {
            self.line_starts[line]
        } else {
            self.line_starts[last]
        }
    }

    /// Line and column of `offset`.
    /// The column is a **byte** offset inside the line.
    pub fn line_col(&self, offset: usize) -> (r: (usize, usize))
        ensures
            r.0 == line_of_spec(self.starts(), offset as int),
            r.0 < self.starts().len(),
            r.0 < usize::MAX,
            self.starts()[r.0 as int] <= offset,
            r.0 + 1 == self.starts().len() || offset < self.starts()[r.0 + 1],
            r.1 == offset - self.starts()[r.0 as int],
    {
        let line = self.line_of(offset);
        (line, offset - self.line_start(line))
    }
}

/// A value paired with its position in the source, in bytes.
#[derive(Debug, PartialEq, Clone, Copy)]
pub struct Spanned<T> {
    /// The value itself.
    pub value: T,
    /// Absolute position of the value in the source, in bytes.
    pub span: Span,
}

impl<T> Spanned<T> {
    pub fn new(value: T, span: Span) -> (r: Self)
        ensures
            r.value == value,
            r.span == span,
    {
        Spanned { value, span }
    }

    pub fn into_inner(self) -> (r: T)
        ensures
            r == self.value,
    {
        self.value
    }
}

/// Span of `text` once trimmed, `text` standing at byte `offset`.
pub open spec fn trimmed_span(text: Seq<char>, offset: int) -> Span {
    let start = offset + text::blen(text.take(text::lead(text) as int));
    Span { start: start as usize, end: (start + text::blen(text::trim(text))) as usize }
}

impl<'a> Spanned<&'a str> {
    /// Span of `text` once trimmed, where `offset` is the byte position of
    /// `text` (before trimming) in the source.
    pub fn from_text(text: &'a str, offset: usize) -> (r: Self)
        requires
            offset + text::blen(text@) <= usize::MAX,
        ensures
            r.value@ == text::trim(text@),
            r.span == trimmed_span(text@, offset as int),
            r.span.start <= r.span.end <= offset + text::blen(text@),
            r.span.end == r.span.start + text::blen(r.value@),
    {
        let cs = text::to_chars(text);
        let n = cs.len();
        let l = text::lead_count(&cs, 0, n);
        let t = text::trail_count(&cs, l, n);
        proof {
            assert(cs@.subrange(0, n as int) =~= text@);
            assert(cs@.subrange(l as int, n as int) =~= text::trim_start(text@));
            assert(cs@.subrange(l as int, (n - t) as int) =~= text::trim(text@));
            text::lemma_blen_subrange(cs@, l as int, (n - t) as int);
            text::lemma_blen_subrange(cs@, 0, l as int);
            assert(cs@.take(0) =~= Seq::<char>::empty());
            text::lemma_blen_empty();
            assert(cs@.subrange(0, l as int) =~= text@.take(l as int));
            text::lemma_blen_prefix(cs@, (n - t) as int);
        }
        let before = text::bytes_between(&cs, 0, l);
        let len = text::bytes_between(&cs, l, n - t);
        let value = text::slice(text, l, n - t);
        Spanned { value, span: Span { start: offset + before, end: offset + before + len } }
    }
}

impl Spanned<String> {
    /// The same spanned text, owned.
    pub fn from_str_spanned(value: Spanned<&str>) -> (r: Self)
        ensures
            r.value@ == value.value@,
            r.span == value.span,
    {
        Spanned { value: text::owned(value.value), span: value.span }
    }
}

} // verus!
