//! A dialogue source, parsed and compiled in one step.

use vstd::prelude::*;

use crate::accepted::{lemma_accepted_compiles, lemma_no_error_reported, need_block};
use crate::dialogue::{all_compile, compile, compiled_from, node_compiles, Dialogue};
use crate::parser::diagnostic::{
    blocks_spec, count_severity, renderable, reported, shorts_spec, starts_on_char, Diagnostics, Severity,
};
use crate::parser::tree::{nodes_view, parse, parse_spec};
use crate::text;

verus! {

/// A source and everything made of it: the dialogue when it compiles, and
/// the diagnostics either way.
pub struct RepliqueFile {
    /// Where the source was read from, shown by the renderings.
    pub path: Option<String>,
    pub source: String,
    /// The runnable dialogue, or `None` when the source has errors.
    pub dialogue: Option<Dialogue>,
    pub diagnostics: Diagnostics,
}

impl RepliqueFile {
    /// Whether the diagnostics are about this file's source.
    pub open spec fn wf(&self) -> bool {
        self.diagnostics.index().source() == self.source@
    }

    /// Parse and compile `source`. The diagnostics are those the parser
    /// reports; the dialogue holds the nodes it reads, each compiled, and
    /// there is one exactly when no error is reported and every node
    /// compiles, which every node does when no error is reported, unless it
    /// holds more steps than its ids can number.
    pub fn from_source(source: String) -> (r: Self)
        requires
            text::blen(source@) < usize::MAX,
        ensures
            r.wf(),
            r.path is None,
            r.source@ == source@,
            r.diagnostics.path() is None,
            reported(Seq::empty(), r.diagnostics.items(), parse_spec(source@).1),
            r.dialogue is Some <==> count_severity(r.diagnostics.items(), Severity::Error) == 0 && all_compile(
                parse_spec(source@).0,
            ),
            r.dialogue matches Some(d) ==> d.nodes().len() == parse_spec(source@).0.len() && forall|i: int|
                0 <= i < d.nodes().len() ==> compiled_from(#[trigger] d.nodes()[i], parse_spec(source@).0[i]),
            count_severity(r.diagnostics.items(), Severity::Error) == 0 && (forall|i: int|
                0 <= i < parse_spec(source@).0.len() ==> need_block(#[trigger] parse_spec(source@).0[i].body)
                    < u32::MAX) ==> r.dialogue is Some,
    {
        let parsed = parse(source.as_str());
        let ghost nodes = parsed.nodes@;
        let compiled = compile(parsed);
        proof {
            assert(nodes_view(nodes).len() == nodes.len());
            assert forall|i: int| 0 <= i < nodes.len() implies crate::parser::tree::node_view(nodes[i])
                == parse_spec(source@).0[i] by {
                assert(nodes_view(nodes)[i] == crate::parser::tree::node_view(nodes[i]));
            }
        }
        proof {
            let items = compiled.diagnostics.items();
            let nv = parse_spec(source@).0;
            if count_severity(items, Severity::Error) == 0 && (forall|i: int|
                0 <= i < nv.len() ==> need_block(#[trigger] nv[i].body) < u32::MAX) {
                lemma_no_error_reported(items, parse_spec(source@).1);
                assert forall|i: int| 0 <= i < nv.len() implies node_compiles(#[trigger] nv[i]) by {
                    lemma_accepted_compiles(source@, i);
                }
            }
        }
        RepliqueFile { path: None, source, dialogue: compiled.dialogue, diagnostics: compiled.diagnostics }
    }

    /// Attach the path the source was read from, shown by both renderings.
    pub fn with_path(self, path: &str) -> (r: Self)
        ensures
            r.path matches Some(p) && p@ == path@,
            r.source == self.source,
            r.dialogue == self.dialogue,
            r.diagnostics.items() == self.diagnostics.items(),
            r.diagnostics.index() == self.diagnostics.index(),
            r.diagnostics.path() == Some(path@),
    {
        let RepliqueFile { path: _, source, dialogue, diagnostics } = self;
        RepliqueFile { path: Some(text::owned(path)), source, dialogue, diagnostics: diagnostics.with_path(path) }
    }

    /// The diagnostics rendered for a terminal, with the source lines they
    /// point at.
    pub fn render_diagnostics(&self, colored: bool) -> (r: String)
        requires
            self.wf(),
            forall|i: int|
                0 <= i < self.diagnostics.items().len() ==> renderable(
                    #[trigger] self.diagnostics.items()[i],
                    self.diagnostics.index(),
                ),
        ensures
            r@ == blocks_spec(self.diagnostics.items(), self.diagnostics.index(), self.diagnostics.path(), colored),
    {
        self.diagnostics.render(self.source.as_str(), colored)
    }

    /// The diagnostics rendered one line each, for an editor or a log.
    pub fn render_diagnostics_short(&self, colored: bool) -> (r: String)
        requires
            self.wf(),
            forall|i: int|
                0 <= i < self.diagnostics.items().len() ==> starts_on_char(
                    #[trigger] self.diagnostics.items()[i],
                    self.diagnostics.index(),
                ),
        ensures
            r@ == shorts_spec(self.diagnostics.items(), self.diagnostics.index(), self.diagnostics.path(), colored),
    {
        self.diagnostics.render_short(self.source.as_str(), colored)
    }

    /// Whether an error was reported.
    pub fn has_errors(&self) -> (r: bool)
        ensures
            r == (count_severity(self.diagnostics.items(), Severity::Error) > 0),
    {
        self.diagnostics.errors() > 0
    }
}

} // verus!
