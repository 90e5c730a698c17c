//! What the colors of a rendering add to it: escape sequences and nothing
//! else. Taking them out of a colored block gives back the plain one.

use vstd::prelude::*;

use crate::parser::diagnostic::{
    bar_spec, gutter_line, gutter_style, headline, kind_message, kind_severity, label_style,
    labels_spec, lemma_code_escape_free, line_at, marker_line, marker_tail, msg_style, pad_left,
    path_prefix, render_spec, reset_style, sev_style, severity_name, short_spec, snippet_spec,
    snippet_text, source_line, text_at, Diagnostic, DiagnosticKind, Label, Severity,
};
use crate::parser::{lemma_nl_starts, line_of_spec, line_starts_of, nl_starts, LineIndex};
use crate::text;

verus! {

broadcast use vstd::seq_lib::group_seq_properties;

/// Whether `s` holds no escape character.
pub open spec fn escape_free(s: Seq<char>) -> bool {
    forall|i: int| 0 <= i < s.len() ==> s[i] != '\x1b'
}

/// What is kept of `s`, read from the state `skipping`, and whether an escape
/// sequence is still open at its end. An escape sequence runs from an escape
/// character to the first `m` after it, both included.
pub open spec fn strip_run(s: Seq<char>, skipping: bool) -> (Seq<char>, bool)
    decreases s.len(),
{
    if s.len() == 0 {
        (Seq::empty(), skipping)
    } else {
        let prev = strip_run(s.drop_last(), skipping);
        let c = s.last();
        if prev.1 {
            (prev.0, c != 'm')
        } else if c == '\x1b' {
            (prev.0, true)
        } else {
            (prev.0.push(c), false)
        }
    }
}

/// `s` with every escape sequence taken out.
pub open spec fn strip_escapes(s: Seq<char>) -> Seq<char> {
    strip_run(s, false).0
}

/// Taking the escape sequences out of `c` gives `p`, and none is left open.
pub open spec fn strips_to(c: Seq<char>, p: Seq<char>) -> bool {
    strip_run(c, false) == (p, false)
}

/// Reading `a + b` is reading `a`, then `b` from where `a` left off.
proof fn lemma_strip_run_concat(a: Seq<char>, b: Seq<char>, st: bool)
    ensures
        strip_run(a + b, st) == ({
            let x = strip_run(a, st);
            let y = strip_run(b, x.1);
            (x.0 + y.0, y.1)
        }),
    decreases b.len(),
{
    let x = strip_run(a, st);
    if b.len() == 0 {
        assert(a + b =~= a);
        assert(x.0 + Seq::<char>::empty() =~= x.0);
    } else {
        lemma_strip_run_concat(a, b.drop_last(), st);
        assert((a + b).drop_last() =~= a + b.drop_last());
        let y = strip_run(b.drop_last(), x.1);
        assert((x.0 + y.0).push(b.last()) =~= x.0 + y.0.push(b.last()));
    }
}

/// Pieces that strip to their plain forms, put together, strip to the plain
/// forms put together.
pub broadcast proof fn lemma_strips_concat(c1: Seq<char>, p1: Seq<char>, c2: Seq<char>, p2: Seq<char>)
    requires
        strips_to(c1, p1),
        strips_to(c2, p2),
    ensures
        #[trigger] strips_to(c1 + c2, p1 + p2),
{
    lemma_strip_run_concat(c1, c2, false);
}

/// Text without an escape character is kept as it is.
pub proof fn lemma_free_strips(x: Seq<char>)
    requires
        escape_free(x),
    ensures
        strips_to(x, x),
    decreases x.len(),
{
    if x.len() == 0 {
        assert(x =~= Seq::<char>::empty());
    } else {
        lemma_free_strips(x.drop_last());
        assert(x.drop_last().push(x.last()) =~= x);
    }
}

/// An escape sequence alone strips to nothing.
proof fn lemma_sequence_strips(s: Seq<char>)
    requires
        s.len() >= 2,
        s[0] == '\x1b',
        s.last() == 'm',
        forall|i: int| 0 < i < s.len() - 1 ==> s[i] != 'm',
    ensures
        strips_to(s, Seq::empty()),
{
    lemma_open_sequence(s, s.len() - 1);
    assert(s.take(s.len() - 1) =~= s.drop_last());
}

/// Before its `m`, an escape sequence is still open and has kept nothing.
proof fn lemma_open_sequence(s: Seq<char>, k: int)
    requires
        1 <= k <= s.len(),
        s[0] == '\x1b',
        forall|i: int| 0 < i < k ==> s[i] != 'm',
    ensures
        strip_run(s.take(k), false) == (Seq::<char>::empty(), true),
    decreases k,
{
    if k == 1 {
        assert(s.take(1).drop_last() =~= Seq::<char>::empty());
        assert(strip_run(Seq::<char>::empty(), false) == (Seq::<char>::empty(), false));
        assert(s.take(1).last() == s[0]);
    } else {
        lemma_open_sequence(s, k - 1);
        assert(s.take(k).drop_last() =~= s.take(k - 1));
        assert(s.take(k).last() == s[k - 1]);
    }
}

/// What is kept never holds an escape character.
proof fn lemma_kept_escape_free(s: Seq<char>, st: bool)
    ensures
        escape_free(strip_run(s, st).0),
    decreases s.len(),
{
    if s.len() > 0 {
        lemma_kept_escape_free(s.drop_last(), st);
    }
}

/// Every escape code of a rendering strips to what the plain rendering has
/// in its place: nothing.
proof fn lemma_styles_strip()
    ensures
        strips_to(sev_style(Severity::Error, true), sev_style(Severity::Error, false)),
        strips_to(sev_style(Severity::Warning, true), sev_style(Severity::Warning, false)),
        strips_to(msg_style(true), msg_style(false)),
        strips_to(gutter_style(true), gutter_style(false)),
        strips_to(label_style(true), label_style(false)),
        strips_to(reset_style(true), reset_style(false)),
{
    reveal_strlit("\x1b[1;31m");
    reveal_strlit("\x1b[1;33m");
    reveal_strlit("\x1b[1m");
    reveal_strlit("\x1b[1;34m");
    reveal_strlit("\x1b[1;36m");
    reveal_strlit("\x1b[0m");
    lemma_sequence_strips("\x1b[1;31m"@);
    lemma_sequence_strips("\x1b[1;33m"@);
    lemma_sequence_strips("\x1b[1m"@);
    lemma_sequence_strips("\x1b[1;34m"@);
    lemma_sequence_strips("\x1b[1;36m"@);
    lemma_sequence_strips("\x1b[0m"@);
}

/// The fixed texts of a rendering are kept as they are.
proof fn lemma_literals_strip()
    ensures
        strips_to("["@, "["@),
        strips_to("]"@, "]"@),
        strips_to(": "@, ": "@),
        strips_to("\n"@, "\n"@),
        strips_to(" -->"@, " -->"@),
        strips_to(" "@, " "@),
        strips_to(":"@, ":"@),
        strips_to("|"@, "|"@),
        strips_to("error"@, "error"@),
        strips_to("warning"@, "warning"@),
{
    reveal_strlit("[");
    reveal_strlit("]");
    reveal_strlit(": ");
    reveal_strlit("\n");
    reveal_strlit(" -->");
    reveal_strlit(" ");
    reveal_strlit(":");
    reveal_strlit("|");
    reveal_strlit("error");
    reveal_strlit("warning");
    lemma_free_strips("["@);
    lemma_free_strips("]"@);
    lemma_free_strips(": "@);
    lemma_free_strips("\n"@);
    lemma_free_strips(" -->"@);
    lemma_free_strips(" "@);
    lemma_free_strips(":"@);
    lemma_free_strips("|"@);
    lemma_free_strips("error"@);
    lemma_free_strips("warning"@);
}

/// A number written in base ten holds digits only.
proof fn lemma_decimal_strips(n: nat)
    ensures
        escape_free(text::decimal(n)),
        strips_to(text::decimal(n), text::decimal(n)),
    decreases n,
{
    if n >= 10 {
        lemma_decimal_strips(n / 10);
    }
    assert(escape_free(text::decimal(n)));
    lemma_free_strips(text::decimal(n));
}

/// A run of one character that is no escape is kept as it is.
proof fn lemma_repeat_strips(c: char, n: nat)
    requires
        c != '\x1b',
    ensures
        strips_to(text::repeat(c, n), text::repeat(c, n)),
{
    lemma_free_strips(text::repeat(c, n));
}

/// The headline strips to its plain form.
proof fn lemma_headline_strips(k: DiagnosticKind)
    requires
        escape_free(kind_message(k)),
    ensures
        strips_to(headline(k, true), headline(k, false)),
{
    broadcast use lemma_strips_concat;

    lemma_styles_strip();
    lemma_literals_strip();
    lemma_code_escape_free(k);
    lemma_free_strips(crate::parser::diagnostic::kind_code(k));
    lemma_free_strips(kind_message(k));
    assert(strips_to(severity_name(kind_severity(k)), severity_name(kind_severity(k))));
    assert(strips_to(
        sev_style(kind_severity(k), true),
        sev_style(kind_severity(k), false),
    ));
}

/// An empty gutter strips to its plain form.
proof fn lemma_gutter_line_strips(width: nat)
    ensures
        strips_to(gutter_line(true, width), gutter_line(false, width)),
{
    broadcast use lemma_strips_concat;

    lemma_styles_strip();
    lemma_literals_strip();
    lemma_repeat_strips(' ', width);
    assert(strips_to(bar_spec(true), bar_spec(false)));
}

/// A numbered source line strips to its plain form.
proof fn lemma_source_line_strips(width: nat, line: int, t: Seq<char>)
    requires
        escape_free(t),
    ensures
        strips_to(source_line(true, width, line, t), source_line(false, width, line, t)),
{
    broadcast use lemma_strips_concat;

    lemma_styles_strip();
    lemma_literals_strip();
    lemma_free_strips(t);
    let d = text::decimal((line + 1) as nat);
    lemma_decimal_strips((line + 1) as nat);
    if d.len() < width {
        lemma_repeat_strips(' ', (width - d.len()) as nat);
    }
    assert(strips_to(pad_left(d, width), pad_left(d, width)));
    assert(strips_to(bar_spec(true), bar_spec(false)));
}

/// A line of markers strips to its plain form.
proof fn lemma_marker_line_strips(
    width: nat,
    col: nat,
    marker: char,
    colored_style: Seq<char>,
    plain_style: Seq<char>,
    mw: nat,
    message: Option<Seq<char>>,
)
    requires
        marker != '\x1b',
        strips_to(colored_style, plain_style),
        message matches Some(m) ==> escape_free(m),
    ensures
        strips_to(
            marker_line(true, width, col, marker, colored_style, mw, message),
            marker_line(false, width, col, marker, plain_style, mw, message),
        ),
{
    broadcast use lemma_strips_concat;

    lemma_styles_strip();
    lemma_literals_strip();
    lemma_repeat_strips(' ', width);
    lemma_repeat_strips(' ', col);
    lemma_repeat_strips(marker, mw);
    if let Some(m) = message {
        lemma_free_strips(m);
    }
    assert(strips_to(bar_spec(true), bar_spec(false)));
    assert(strips_to(marker_tail(true, message), marker_tail(false, message)));
}

/// The line at `offset` of a source without escape characters has none.
proof fn lemma_text_at_free(li: LineIndex, offset: int)
    requires
        li.starts().len() == nl_starts(li.source()).len(),
        li.starts()[0] == 0,
        escape_free(li.source()),
        0 <= offset,
    ensures
        escape_free(text_at(li, offset)),
        escape_free(text::trim_end(text_at(li, offset))),
{
    let src = li.source();
    let st = li.starts();
    lemma_nl_starts(src);
    lemma_line_witness(st, offset, st.len() - 1);
    let line = line_at(li, offset);
    assert(0 <= line < st.len());
    let ns = nl_starts(src);
    if line + 1 < ns.len() {
        assert(ns[line] < ns[line + 1]);
    }
    let t = text_at(li, offset);
    text::lemma_trail_shape(t);
}

/// Some line holds `offset`: the last one starting at or before it.
proof fn lemma_line_witness(st: Seq<usize>, offset: int, k: int)
    requires
        0 <= k < st.len(),
        st[0] == 0,
        0 <= offset,
        k + 1 == st.len() || offset < st[k + 1],
    ensures
        0 <= line_of_spec(st, offset) < st.len(),
    decreases k,
{
    if st[k] <= offset {
        assert(0 <= k < st.len() && st[k] <= offset && (k + 1 == st.len() || offset < st[k + 1]));
    } else {
        lemma_line_witness(st, offset, k - 1);
    }
}

/// The snippet of a span strips to its plain form.
proof fn lemma_snippet_strips(
    li: LineIndex,
    width: nat,
    span: crate::parser::Span,
    marker: char,
    colored_style: Seq<char>,
    plain_style: Seq<char>,
    message: Option<Seq<char>>,
)
    requires
        escape_free(snippet_text(li, span)),
        marker != '\x1b',
        strips_to(colored_style, plain_style),
        message matches Some(m) ==> escape_free(m),
    ensures
        strips_to(
            snippet_spec(li, true, width, span, marker, colored_style, message),
            snippet_spec(li, false, width, span, marker, plain_style, message),
        ),
{
    broadcast use lemma_strips_concat;

    lemma_gutter_line_strips(width);
    lemma_source_line_strips(width, line_at(li, span.start as int), snippet_text(li, span));
    lemma_marker_line_strips(
        width,
        crate::parser::diagnostic::snippet_col(li, span),
        marker,
        colored_style,
        plain_style,
        crate::parser::diagnostic::snippet_width(li, span),
        message,
    );
}

/// The snippets of the labels strip to their plain forms.
proof fn lemma_labels_strip(li: LineIndex, width: nat, labels: Seq<Label>)
    requires
        li.starts().len() == nl_starts(li.source()).len(),
        li.starts()[0] == 0,
        escape_free(li.source()),
        forall|i: int| 0 <= i < labels.len() ==> escape_free(#[trigger] labels[i].message@),
    ensures
        strips_to(labels_spec(li, true, width, labels), labels_spec(li, false, width, labels)),
    decreases labels.len(),
{
    broadcast use lemma_strips_concat;

    if labels.len() == 0 {
        lemma_free_strips(Seq::<char>::empty());
    } else {
        lemma_labels_strip(li, width, labels.drop_last());
        let l = labels.last();
        assert(escape_free(labels[labels.len() - 1].message@));
        lemma_text_at_free(li, l.span.start as int);
        lemma_styles_strip();
        lemma_snippet_strips(
            li,
            width,
            l.span,
            '-',
            label_style(true),
            label_style(false),
            Some(l.message@),
        );
    }
}

/// Taking the escape sequences out of the colored rendering of a diagnostic
/// gives its plain rendering, which holds none, as long as the source, the
/// path, the message and the messages of the labels hold no escape
/// character: colors add escape sequences and nothing else.
pub proof fn lemma_colors_only_add_escapes(d: Diagnostic, li: LineIndex, path: Option<Seq<char>>)
    requires
        li.starts().len() == nl_starts(li.source()).len(),
        forall|i: int|
            0 <= i < li.starts().len() ==> #[trigger] li.starts()[i] as int == line_starts_of(
                li.source(),
            )[i],
        escape_free(li.source()),
        path matches Some(p) ==> escape_free(p),
        escape_free(kind_message(d.kind)),
        forall|i: int| 0 <= i < d.labels@.len() ==> escape_free(#[trigger] d.labels@[i].message@),
    ensures
        escape_free(render_spec(d, li, path, false)),
        strip_escapes(render_spec(d, li, path, true)) == render_spec(d, li, path, false),
        escape_free(short_spec(d, li, path, false)),
        strip_escapes(short_spec(d, li, path, true)) == short_spec(d, li, path, false),
{
    broadcast use lemma_strips_concat;

    let src = li.source();
    lemma_nl_starts(src);
    assert(src.take(0) =~= Seq::<char>::empty());
    text::lemma_blen_empty();
    assert(li.starts()[0] as int == line_starts_of(src)[0]);
    let line = line_at(li, d.span.start as int);
    let width = crate::parser::diagnostic::block_width(li, d.labels@, line);
    lemma_styles_strip();
    lemma_literals_strip();
    lemma_headline_strips(d.kind);
    lemma_repeat_strips(' ', width);
    match path {
        Some(p) => {
            lemma_free_strips(p);
        },
        None => {
            lemma_free_strips(Seq::<char>::empty());
        },
    }
    assert(strips_to(path_prefix(path), path_prefix(path)));
    lemma_decimal_strips((line + 1) as nat);
    lemma_decimal_strips(crate::parser::diagnostic::col_at(li, d.span.start as int) + 1);
    lemma_text_at_free(li, d.span.start as int);
    assert(strips_to(
        sev_style(kind_severity(d.kind), true),
        sev_style(kind_severity(d.kind), false),
    ));
    lemma_snippet_strips(
        li,
        width,
        d.span,
        '^',
        sev_style(kind_severity(d.kind), true),
        sev_style(kind_severity(d.kind), false),
        None,
    );
    lemma_labels_strip(li, width, d.labels@);
    assert(strips_to(render_spec(d, li, path, true), render_spec(d, li, path, false)));
    assert(strips_to(short_spec(d, li, path, true), short_spec(d, li, path, false)));
    lemma_kept_escape_free(render_spec(d, li, path, true), false);
    lemma_kept_escape_free(short_spec(d, li, path, true), false);
}

} // verus!
