//! A dialogue source open in an editor: its diagnostics placed the way an
//! editor counts positions, and the completions offered at a position.
//!
//! Editors count lines from zero and columns in UTF-16 code units; the
//! parser counts bytes. A [`Document`] converts between the two.

use vstd::prelude::*;

use crate::completion::{
    context, context_spec, item_views, names_in_nodes, texts, Completion, Item, ItemView, NameKind,
};
use crate::parser::diagnostic::{
    byte_col_at, char_boundary, kind_code, kind_message, kind_severity, line_at, text_at, Diagnostic, Diagnostics,
    Label, Severity,
};
use crate::parser::ast::NodeDecl;
use crate::parser::tree::{node_names, nodes_view, parse, parse_spec};
use crate::parser::{LineIndex, Span};
use crate::text;

verus! {

/// Number of UTF-16 code units of `c`, as `char::len_utf16` counts them.
pub open spec fn utf16_len(c: char) -> nat {
    if (c as u32) < 0x10000 {
        1
    } else {
        2
    }
}

/// Number of UTF-16 code units of `s`.
pub open spec fn utf16_count(s: Seq<char>) -> nat
    decreases s.len(),
{
    if s.len() == 0 {
        0
    } else {
        utf16_count(s.drop_last()) + utf16_len(s.last())
    }
}

/// A UTF-16 encoding is never longer than the UTF-8 one.
proof fn lemma_utf16_le_bytes(s: Seq<char>)
    ensures
        utf16_count(s) <= text::blen(s),
    decreases s.len(),
{
    if s.len() > 0 {
        lemma_utf16_le_bytes(s.drop_last());
        text::lemma_blen_push(s.drop_last(), s.last());
        assert(s.drop_last().push(s.last()) =~= s);
    }
}

/// A position as an editor counts it: a line from zero, and a column in
/// UTF-16 code units.
#[derive(Debug, Clone, Copy, PartialEq, Eq, Structural)]
pub struct Position {
    pub line: u32,
    pub character: u32,
}

/// From a position to another.
#[derive(Debug, Clone, Copy, PartialEq, Eq, Structural)]
pub struct Range {
    pub start: Position,
    pub end: Position,
}

/// A location related to a diagnostic, and what to say about it.
#[derive(Debug)]
pub struct Related {
    pub uri: String,
    pub range: Range,
    pub message: String,
}

/// A diagnostic as an editor shows it.
#[derive(Debug)]
pub struct EditorDiagnostic {
    pub range: Range,
    pub severity: Severity,
    pub code: String,
    /// Who reports it.
    pub source: String,
    pub message: String,
    pub related: Vec<Related>,
}

/// Whether the byte `offset` falls between characters of its line, or past
/// its end.
pub open spec fn on_char(li: LineIndex, offset: int) -> bool {
    char_boundary(text_at(li, offset), byte_col_at(li, offset))
}

/// The position of the byte `offset`: its line, and the UTF-16 code units
/// of its line before it, up to the end of the line.
pub open spec fn position_of(li: LineIndex, offset: int) -> Position {
    let t = text_at(li, offset);
    let b = byte_col_at(li, offset);
    let end = if b < text::blen(t) {
        b
    } else {
        text::blen(t) as int
    };
    Position {
        line: line_at(li, offset) as u32,
        character: utf16_count(t.take(text::chars_before(t, end) as int)) as u32,
    }
}

/// The range of `span`.
pub open spec fn range_of(li: LineIndex, span: Span) -> Range {
    Range { start: position_of(li, span.start as int), end: position_of(li, span.end as int) }
}

/// Whether both ends of `span` fall between characters.
pub open spec fn span_on_chars(li: LineIndex, span: Span) -> bool {
    on_char(li, span.start as int) && on_char(li, span.end as int)
}

/// Whether the diagnostic and its labels can be placed: every end of their
/// spans falls between characters.
pub open spec fn placeable(d: Diagnostic, li: LineIndex) -> bool {
    &&& span_on_chars(li, d.span)
    &&& forall|i: int| 0 <= i < d.labels@.len() ==> span_on_chars(li, #[trigger] d.labels@[i].span)
}

/// How many characters of `t` come before the UTF-16 column `col`: those
/// before the first one that starts at or past it.
pub open spec fn chars_to_column(t: Seq<char>, col: int) -> nat
    decreases t.len(),
{
    if t.len() == 0 || col <= 0 {
        0
    } else {
        1 + chars_to_column(t.drop_first(), col - utf16_len(t[0]))
    }
}

/// The text of the line `pos.line` of `src` before the column of `pos`,
/// indentation included; `None` past the last line.
pub open spec fn prefix_of(li: LineIndex, pos: Position) -> Option<Seq<char>> {
    if pos.line >= li.starts().len() {
        None
    } else {
        let t = crate::parser::line_text_spec(li.source(), li.starts().len() as int, pos.line as int);
        Some(t.take(chars_to_column(t, pos.character as int) as int))
    }
}

/// A source open in an editor.
pub struct Document {
    pub uri: String,
    pub source: String,
    pub line_index: LineIndex,
    pub nodes: Vec<NodeDecl>,
    pub diagnostics: Diagnostics,
    pub completion: Completion,
}

/// What an editor shows of the diagnostic `d`.
pub open spec fn shown_as(e: EditorDiagnostic, d: Diagnostic, li: LineIndex, uri: Seq<char>) -> bool {
    &&& e.range == range_of(li, d.span)
    &&& e.severity == kind_severity(d.kind)
    &&& e.code@ == kind_code(d.kind)
    &&& e.source@ == "replique-lsp"@
    &&& e.message@ == kind_message(d.kind)
    &&& e.related@.len() == d.labels@.len()
    &&& forall|i: int|
        0 <= i < d.labels@.len() ==> {
            let r = #[trigger] e.related@[i];
            &&& r.uri@ == uri
            &&& r.range == range_of(li, d.labels@[i].span)
            &&& r.message@ == d.labels@[i].message@
        }
}

impl Document {
    /// Whether the index and the completions are those of the source.
    pub open spec fn wf(&self) -> bool {
        &&& self.line_index.source() == self.source@
        &&& self.completion.wf()
    }

    /// Parse `source`, and gather what completion offers in it.
    pub fn new(uri: String, source: String) -> (r: Self)
        requires
            text::blen(source@) < usize::MAX,
        ensures
            r.wf(),
            r.uri == uri,
            r.source == source,
            nodes_view(r.nodes@) == parse_spec(source@).0,
            r.diagnostics.index().source() == source@,
            crate::parser::diagnostic::reported(Seq::empty(), r.diagnostics.items(), parse_spec(source@).1),
            r.line_index.source() == source@,
            texts(r.completion.nodes@).to_set() == node_names(nodes_view(r.nodes@)).to_set(),
            texts(r.completion.characters@).to_set() == names_in_nodes(
                nodes_view(r.nodes@),
                NameKind::Speaker,
                r.nodes@.len() as int,
            ),
            texts(r.completion.commands@).to_set() == names_in_nodes(
                nodes_view(r.nodes@),
                NameKind::Command,
                r.nodes@.len() as int,
            ),
            texts(r.completion.vars@).to_set() == names_in_nodes(nodes_view(r.nodes@), NameKind::Var, r.nodes@.len() as int),
    {
        let line_index = LineIndex::new(source.as_str());
        let parsed = parse(source.as_str());
        let completion = Completion::new(parsed.nodes.as_slice());
        Document { uri, source, line_index, nodes: parsed.nodes, diagnostics: parsed.diagnostics, completion }
    }

    /// Whether every diagnostic can be placed.
    pub fn can_place(&self) -> (r: bool)
        requires
            self.wf(),
        ensures
            r == forall|i: int|
                0 <= i < self.diagnostics.items().len() ==> placeable(
                    #[trigger] self.diagnostics.items()[i],
                    self.line_index,
                ),
    {
        let ds = self.diagnostics.as_slice();
        let mut i: usize = 0;
        while i < ds.len()
            invariant
                self.wf(),
                ds@ == self.diagnostics.items(),
                i <= ds@.len(),
                forall|j: int| 0 <= j < i ==> placeable(#[trigger] ds@[j], self.line_index),
            decreases ds@.len() - i,
        {
            if !self.is_placeable(&ds[i]) {
                return false;
            }
            i = i + 1;
        }
        true
    }

    /// Whether the diagnostic can be placed.
    fn is_placeable(&self, d: &Diagnostic) -> (r: bool)
        requires
            self.wf(),
        ensures
            r == placeable(*d, self.line_index),
    {
        if !self.span_on_chars(d.span) {
            return false;
        }
        let mut i: usize = 0;
        while i < d.labels.len()
            invariant
                self.wf(),
                i <= d.labels@.len(),
                forall|j: int| 0 <= j < i ==> span_on_chars(self.line_index, #[trigger] d.labels@[j].span),
            decreases d.labels@.len() - i,
        {
            if !self.span_on_chars(d.labels[i].span) {
                return false;
            }
            i = i + 1;
        }
        true
    }

    /// Whether both ends of `span` fall between characters.
    fn span_on_chars(&self, span: Span) -> (r: bool)
        requires
            self.wf(),
        ensures
            r == span_on_chars(self.line_index, span),
    {
        self.on_char(span.start) && self.on_char(span.end)
    }

    /// Whether the byte `offset` falls between characters of its line.
    fn on_char(&self, offset: usize) -> (r: bool)
        requires
            self.wf(),
        ensures
            r == on_char(self.line_index, offset as int),
    {
        let (line, byte_col) = self.line_index.line_col(offset);
        let t = self.line_index.line_text(self.source.as_str(), line);
        crate::parser::diagnostic::is_char_boundary(t, byte_col)
    }

    /// The position of the byte `byte_offset`.
    pub fn offset_to_position(&self, byte_offset: usize) -> (r: Position)
        requires
            self.wf(),
            on_char(self.line_index, byte_offset as int),
        ensures
            r == position_of(self.line_index, byte_offset as int),
    {
        let (line, byte_col) = self.line_index.line_col(byte_offset);
        let t = self.line_index.line_text(self.source.as_str(), line);
        proof {
            text::lemma_str_len(t);
        }
        let end = if byte_col < t.len() {
            byte_col
        } else {
            t.len()
        };
        let k = text::char_col(t, end);
        let cs = text::to_chars(t);
        let mut units: usize = 0;
        let mut i: usize = 0;
        proof {
            assert(cs@.take(0) =~= Seq::<char>::empty());
        }
        while i < k
            invariant
                k <= cs@.len(),
                cs@ == t@,
                text::blen(t@) < usize::MAX,
                i <= k,
                units == utf16_count(cs@.take(i as int)),
            decreases k - i,
        {
            proof {
                assert(cs@.take(i + 1).drop_last() =~= cs@.take(i as int));
                lemma_utf16_le_bytes(cs@.take(i + 1));
                crate::text::lemma_blen_sub_le(cs@, 0, i + 1);
                assert(cs@.subrange(0, i + 1) =~= cs@.take(i + 1));
            }
            let c = cs[i];
            units = if (c as u32) < 0x10000 {
                units + 1
            } else {
                units + 2
            };
            i = i + 1;
        }
        #[verifier::truncate]
        let l = line as u32;
        #[verifier::truncate]
        let character = units as u32;
        Position { line: l, character }
    }

    /// The range of `span`.
    pub fn span_to_range(&self, span: Span) -> (r: Range)
        requires
            self.wf(),
            span_on_chars(self.line_index, span),
        ensures
            r == range_of(self.line_index, span),
    {
        Range { start: self.offset_to_position(span.start), end: self.offset_to_position(span.end) }
    }

    /// What an editor shows of the diagnostic `diag`.
    pub fn diag_to_ls_diag(&self, diag: &Diagnostic) -> (r: EditorDiagnostic)
        requires
            self.wf(),
            placeable(*diag, self.line_index),
        ensures
            shown_as(r, *diag, self.line_index, self.uri@),
    {
        let mut related: Vec<Related> = Vec::new();
        let mut i: usize = 0;
        while i < diag.labels.len()
            invariant
                self.wf(),
                placeable(*diag, self.line_index),
                i <= diag.labels@.len(),
                related@.len() == i,
                forall|j: int|
                    0 <= j < i ==> {
                        let r = #[trigger] related@[j];
                        &&& r.uri@ == self.uri@
                        &&& r.range == range_of(self.line_index, diag.labels@[j].span)
                        &&& r.message@ == diag.labels@[j].message@
                    },
            decreases diag.labels@.len() - i,
        {
            let label: &Label = &diag.labels[i];
            let range = self.span_to_range(label.span);
            related.push(Related { uri: text::owned(self.uri.as_str()), range, message: text::owned(label.message.as_str()) });
            i = i + 1;
        }
        EditorDiagnostic {
            range: self.span_to_range(diag.span),
            severity: diag.severity(),
            code: text::owned(diag.kind.code()),
            source: text::owned("replique-lsp"),
            message: diag.kind.to_string(),
            related,
        }
    }

    /// What an editor shows of every diagnostic, in order.
    pub fn diagnostics(&self) -> (r: Vec<EditorDiagnostic>)
        requires
            self.wf(),
            forall|i: int|
                0 <= i < self.diagnostics.items().len() ==> placeable(
                    #[trigger] self.diagnostics.items()[i],
                    self.line_index,
                ),
        ensures
            r@.len() == self.diagnostics.items().len(),
            forall|i: int|
                0 <= i < r@.len() ==> shown_as(
                    #[trigger] r@[i],
                    self.diagnostics.items()[i],
                    self.line_index,
                    self.uri@,
                ),
    {
        let ds = self.diagnostics.as_slice();
        let mut out: Vec<EditorDiagnostic> = Vec::new();
        let mut i: usize = 0;
        while i < ds.len()
            invariant
                self.wf(),
                ds@ == self.diagnostics.items(),
                forall|j: int| 0 <= j < ds@.len() ==> placeable(#[trigger] ds@[j], self.line_index),
                i <= ds@.len(),
                out@.len() == i,
                forall|j: int|
                    0 <= j < i ==> shown_as(#[trigger] out@[j], ds@[j], self.line_index, self.uri@),
            decreases ds@.len() - i,
        {
            let e = self.diag_to_ls_diag(&ds[i]);
            out.push(e);
            i = i + 1;
        }
        out
    }

    /// The text of the line of `position` before it, indentation included;
    /// `None` past the last line.
    fn line_prefix(&self, position: Position) -> (r: Option<&str>)
        requires
            self.wf(),
        ensures
            match r {
                Some(p) => prefix_of(self.line_index, position) == Some(p@),
                None => prefix_of(self.line_index, position) is None,
            },
    {
        let line = position.line as usize;
        if line >= self.line_index.line_count() {
            return None;
        }
        let t = self.line_index.line_text(self.source.as_str(), line);
        let cs = text::to_chars(t);
        let ghost col = position.character as int;
        let mut i: usize = 0;
        let mut units: usize = 0;
        proof {
            assert(cs@.skip(0) =~= cs@);
            assert(cs@.take(0) =~= Seq::<char>::empty());
        }
        while i < cs.len() && units < position.character as usize
            invariant
                col == position.character as int,
                cs@ == t@,
                text::blen(t@) < usize::MAX,
                i <= cs@.len(),
                units == utf16_count(cs@.take(i as int)),
                chars_to_column(cs@, col) == i + chars_to_column(cs@.skip(i as int), col - units),
            decreases cs@.len() - i,
        {
            proof {
                let rest = cs@.skip(i as int);
                assert(rest.drop_first() =~= cs@.skip(i + 1));
                assert(rest[0] == cs@[i as int]);
                assert(rest.len() > 0);
                assert(units < col);
                assert(chars_to_column(rest, col - units) == 1 + chars_to_column(
                    rest.drop_first(),
                    col - units - utf16_len(rest[0]),
                ));
                assert(cs@.take(i + 1).drop_last() =~= cs@.take(i as int));
                lemma_utf16_le_bytes(cs@.take(i + 1));
                crate::text::lemma_blen_sub_le(cs@, 0, i + 1);
                assert(cs@.subrange(0, i + 1) =~= cs@.take(i + 1));
            }
            let c = cs[i];
            units = if (c as u32) < 0x10000 {
                units + 1
            } else {
                units + 2
            };
            i = i + 1;
        }
        proof {
            let rest = cs@.skip(i as int);
            assert(chars_to_column(rest, col - units) == 0);
        }
        Some(text::slice(t, 0, i))
    }

    /// What completion offers at `position`: nothing past the last line, or
    /// where the text before it calls for nothing.
    pub fn completions(&self, position: Position, snippets: bool) -> (r: Vec<Item>)
        requires
            self.wf(),
        ensures
            match prefix_of(self.line_index, position) {
                Some(p) => match context_spec(p) {
                    Some(c) => self.completion.offers(c, snippets, item_views(r@)),
                    None => r@.len() == 0,
                },
                None => r@.len() == 0,
            },
    {
        match self.line_prefix(position) {
            Some(p) => match context(p) {
                Some(c) => self.completion.items(c, snippets),
                None => Vec::new(),
            },
            None => Vec::new(),
        }
    }
}

} // verus!
