//! Reading the lines of a source into its nodes and their statements.
//!
//! Every function here is stated twice: as a spec function over the views
//! of the lines, which says what a reading gives (what was read, the line
//! it stops at, what it reports), and as the executable reading, whose
//! contract is that spec function. A block is what is indented at least as
//! deep as the line that opens it, up to the next `:=` or `---`.

use vstd::prelude::*;

use crate::parser::ast::{
    branches_view, choices_view, name_view, NodeDecl, command_spec, condition_spec, empty_bracket_spec,
    expect_empty_bracket, is_valid_ident, let_spec, opt_stmt_view, parse_command,
    parse_condition, parse_let, parse_text_line, parts_view, stmt_view, stmts_view, text_parts,
    valid_ident, Branch, BranchView, Choice, ChoiceView, Name, Stmt, StmtKind, StmtKindView,
    StmtView,
};
use crate::parser::diagnostic::{
    around, label_views, Label, lemma_reported_chain, lemma_reported_nothing, plain, reported, Diagnostic,
    DiagnosticKind, Diagnostics, Report,
};
use crate::parser::lines::{lines_ok, tv, views, LineKind, LineKindView, RawLine, RawLineView, TextView};
use crate::parser::{end_node_name, join_spec, nl_starts, Span, Spanned, END_NODE_NAME};
use crate::parser::lines::{split_lines, split_reports, split_spec};
use crate::text;

verus! {

/// The lines of a source, as [`crate::parser::lines::split_lines`] gives them.
pub type Lines = Seq<RawLineView>;

/// A report whose message wraps `word` in `before` and `after`.
pub open spec fn worded(span: Span, code: Seq<char>, before: Seq<char>, word: Seq<char>, after: Seq<char>) -> Report {
    (span, code, around(before, word, after), Seq::empty())
}

/// The report of the node name `name`, which is not an identifier.
pub open spec fn invalid_node_name(span: Span, name: Seq<char>) -> Report {
    worded(
        span,
        "invalid-node-name"@,
        "`"@,
        name,
        "` is an invalid node name, expected a letter or `_` followed by letters, digits or `_`"@,
    )
}

/// The report of the line `marker`, a `[elif]` or an `[else]` outside of
/// any `[if]`.
pub open spec fn stray_branch(span: Span, marker: Seq<char>) -> Report {
    worded(span, "stray-branch"@, "`"@, marker, "` found while no `[if]` is open"@)
}

/// The report of a branch `marker` that follows the `[else]` of its group.
pub open spec fn branch_after_else(span: Span, marker: Seq<char>) -> Report {
    worded(span, "branch-after-else"@, "`"@, marker, "` found after `[else]`"@)
}

/// The report of a `[break]` or a `[continue]` outside of any `[while]`.
pub open spec fn stray_loop_control(span: Span, marker: Seq<char>) -> Report {
    worded(span, "stray-loop-control"@, "`"@, marker, "` while not `[while]` is open"@)
}

/// The report of a marker that is none of those the language knows.
pub open spec fn malformed_marker(span: Span, marker: Seq<char>) -> Report {
    worded(
        span,
        "malformed-marker"@,
        "malformed marker `"@,
        marker,
        "`, expected `:=`, `---`, `=>`, `->` or `>>`"@,
    )
}

/// The report of the node `name` that no `---` closes, with the labels it
/// points at.
pub open spec fn unclosed_node(span: Span, name: Seq<char>, labels: Seq<(Span, Seq<char>)>) -> Report {
    (span, "unclosed-node"@, around("node `"@, name, "` is never closed, expected `---`"@), labels)
}

/// The report of a jump to `name`, which no node is called.
pub open spec fn jump_to_unknown(span: Span, name: Seq<char>) -> Report {
    worded(span, "jump-unknown-node"@, "jump to unknown node `"@, name, "`"@)
}

/// The report of a node that takes a name the language keeps.
pub open spec fn reserved_node_name(span: Span, name: Seq<char>) -> Report {
    worded(span, "reserved-node-name"@, "reserved node name `"@, name, "`"@)
}

/// The report of one of the nodes that share the name `name`.
pub open spec fn duplicate_node(span: Span, name: Seq<char>) -> Report {
    worded(span, "duplicate-node-found"@, "node `"@, name, "` is declared more than once"@)
}

/// Whether the line `i` is a `:=` or a `---`, where every block ends.
pub open spec fn at_boundary(ls: Lines, i: int) -> bool {
    ls[i].kind is NodeStart || ls[i].kind is NodeEnd
}

/// The statement `o` holds, as a sequence of none or one.
pub open spec fn seq_of(o: Option<StmtView>) -> Seq<StmtView> {
    match o {
        Some(s) => seq![s],
        None => Seq::empty(),
    }
}

/// From the line `start`, to the last statement of `body` when it has one.
pub open spec fn reach(start: Span, body: Seq<StmtView>) -> Span {
    if body.len() > 0 {
        join_spec(start, body.last().span)
    } else {
        start
    }
}

/// The block that starts at line `pos` and takes the lines indented at
/// least `min` deep: its statements, the line after it, and what it
/// reports. A line deeper than `min` is reported and read all the same.
pub open spec fn p_block(ls: Lines, pos: int, min: int, in_loop: bool) -> (Seq<StmtView>, int, Seq<Report>)
    decreases ls.len() - pos, 4int,
{
    if pos < 0 || pos >= ls.len() || (ls[pos].indent as int) < min || at_boundary(ls, pos) {
        (Seq::empty(), pos, Seq::empty())
    } else {
        let pre = if ls[pos].indent > min {
            seq![plain(ls[pos].span, DiagnosticKind::UnexpectedIndentation)]
        } else {
            Seq::empty()
        };
        let one = p_statement(ls, pos, in_loop);
        if one.1 <= pos || one.1 > ls.len() {
            (seq_of(one.0), one.1, pre + one.2)
        } else {
            let rest = p_block(ls, one.1, min, in_loop);
            (seq_of(one.0) + rest.0, rest.1, pre + one.2 + rest.2)
        }
    }
}

/// The statement that starts at line `pos`, which may take the lines after
/// it: a choice group, a condition group, a loop, or a single line.
pub open spec fn p_statement(ls: Lines, pos: int, in_loop: bool) -> (Option<StmtView>, int, Seq<Report>)
    decreases ls.len() - pos, 3int,
{
    if pos < 0 || pos >= ls.len() {
        (None, pos, Seq::empty())
    } else {
        match ls[pos].kind {
            LineKindView::Choice(_) => {
                let g = p_choice_group(ls, pos, in_loop);
                (Some(g.0), g.1, g.2)
            },
            LineKindView::If(_) => {
                let g = p_if(ls, pos, in_loop);
                (Some(g.0), g.1, g.2)
            },
            LineKindView::While(_) => p_while(ls, pos, in_loop),
            _ => p_line(ls, pos, in_loop),
        }
    }
}

/// The `->` at the indentation of line `pos` and those right after it, each
/// with the block under it. A group of a single option is reported.
pub open spec fn p_choice_group(ls: Lines, pos: int, in_loop: bool) -> (StmtView, int, Seq<Report>)
    decreases ls.len() - pos, 2int,
{
    if pos < 0 || pos >= ls.len() {
        (StmtView { kind: StmtKindView::Choice(Seq::empty()), span: Span { start: 0, end: 0 } }, pos, Seq::empty())
    } else {
        let first = ls[pos];
        let cs = p_choices(ls, pos, first.indent as int, in_loop);
        let span = if cs.0.len() > 0 {
            join_spec(first.span, cs.0.last().span)
        } else {
            first.span
        };
        let single = if cs.0.len() == 1 {
            seq![plain(span, DiagnosticKind::SingleChoice)]
        } else {
            Seq::empty()
        };
        (StmtView { kind: StmtKindView::Choice(cs.0), span }, cs.1, cs.2 + single)
    }
}

/// The options of a choice group, from line `pos` on: each `->` at the
/// indentation `base`, with its text and the block under it.
pub open spec fn p_choices(ls: Lines, pos: int, base: int, in_loop: bool) -> (Seq<ChoiceView>, int, Seq<Report>)
    decreases ls.len() - pos, 1int,
{
    if pos < 0 || pos >= ls.len() || !(ls[pos].kind is Choice) || ls[pos].indent != base {
        (Seq::empty(), pos, Seq::empty())
    } else {
        let c = p_choice(ls, pos, base, in_loop);
        if c.1 <= pos || c.1 > ls.len() {
            (seq![c.0], c.1, c.2)
        } else {
            let rest = p_choices(ls, c.1, base, in_loop);
            (seq![c.0] + rest.0, rest.1, c.2 + rest.2)
        }
    }
}

/// The option `->` at line `pos`: its text, read for its inline
/// expressions, and the block indented under it.
pub open spec fn p_choice(ls: Lines, pos: int, base: int, in_loop: bool) -> (ChoiceView, int, Seq<Report>)
    decreases ls.len() - pos, 0int,
{
    if pos < 0 || pos >= ls.len() {
        (ChoiceView { text: Seq::empty(), body: Seq::empty(), span: Span { start: 0, end: 0 } }, pos, Seq::empty())
    } else {
        let line = ls[pos];
        let text = line.kind->Choice_0;
        let empty = if text.value.len() == 0 {
            seq![plain(line.span, DiagnosticKind::EmptyChoiceText)]
        } else {
            Seq::empty()
        };
        let body = p_block(ls, pos + 1, base + 1, in_loop);
        let tp = text_parts(text.value, text.span.start as int, 0);
        (
            ChoiceView { text: tp.0, body: body.0, span: reach(line.span, body.0) },
            body.1,
            empty + body.2 + tp.1,
        )
    }
}

/// The `[if]` at line `pos`, with the `[elif]` and the `[else]` that follow
/// it at its indentation, each with the block under it.
pub open spec fn p_if(ls: Lines, pos: int, in_loop: bool) -> (StmtView, int, Seq<Report>)
    decreases ls.len() - pos, 2int,
{
    if pos < 0 || pos >= ls.len() {
        (StmtView { kind: StmtKindView::If(Seq::empty(), None), span: Span { start: 0, end: 0 } }, pos, Seq::empty())
    } else {
        let first = ls[pos];
        let g = p_branches(ls, pos, first.indent as int, in_loop, false, Seq::empty(), None, first.span);
        (StmtView { kind: StmtKindView::If(g.0, g.1), span: g.2 }, g.3, g.4)
    }
}

/// Which branch marker line `pos` is for a condition group, once the `[if]`
/// has been read or not: `None` when the line ends the group.
pub open spec fn branch_marker(k: LineKindView, started: bool) -> Option<Seq<char>> {
    match k {
        LineKindView::If(_) => if !started {
            Some("[if]"@)
        } else {
            None
        },
        LineKindView::Elif(_) => if started {
            Some("[elif]"@)
        } else {
            None
        },
        LineKindView::Else(_) => if started {
            Some("[else]"@)
        } else {
            None
        },
        _ => None,
    }
}

/// The branches of a condition group from line `pos` on, after those read
/// so far: the branches whose condition holds up, the `[else]` body, the
/// span of the group, the line after it, and what it reports.
pub open spec fn p_branches(
    ls: Lines,
    pos: int,
    base: int,
    in_loop: bool,
    started: bool,
    branches: Seq<BranchView>,
    otherwise: Option<Seq<StmtView>>,
    span: Span,
) -> (Seq<BranchView>, Option<Seq<StmtView>>, Span, int, Seq<Report>)
    decreases ls.len() - pos, 1int,
{
    if pos < 0 || pos >= ls.len() || ls[pos].indent != base || branch_marker(ls[pos].kind, started) is None {
        (branches, otherwise, span, pos, Seq::empty())
    } else {
        let st = p_branch(ls, pos, base, in_loop, started, branches, otherwise, span);
        if st.3 <= pos || st.3 > ls.len() {
            st
        } else {
            let rest = p_branches(ls, st.3, base, in_loop, true, st.0, st.1, st.2);
            (rest.0, rest.1, rest.2, rest.3, st.4 + rest.4)
        }
    }
}

/// The branch marker at line `pos` and the block under it, read into the
/// group so far. A branch after the `[else]`, or whose condition is
/// dropped, is dropped with its body.
pub open spec fn p_branch(
    ls: Lines,
    pos: int,
    base: int,
    in_loop: bool,
    started: bool,
    branches: Seq<BranchView>,
    otherwise: Option<Seq<StmtView>>,
    span: Span,
) -> (Seq<BranchView>, Option<Seq<StmtView>>, Span, int, Seq<Report>)
    decreases ls.len() - pos, 0int,
{
    if pos < 0 || pos >= ls.len() || branch_marker(ls[pos].kind, started) is None {
        (branches, otherwise, span, pos, Seq::empty())
    } else {
        let line = ls[pos];
        let marker = branch_marker(line.kind, started)->0;
        let body = p_block(ls, pos + 1, base + 1, in_loop);
        let body_span = reach(line.span, body.0);
        let step: (Seq<BranchView>, Option<Seq<StmtView>>, Seq<Report>) = if otherwise is Some {
            (branches, otherwise, seq![branch_after_else(line.span, marker)])
        } else {
            match line.kind {
                LineKindView::Else(rest) => (
                    branches,
                    Some(body.0),
                    empty_bracket_spec(rest, line.span, marker),
                ),
                LineKindView::If(c) => {
                    let cd = condition_spec(c, line.span, marker);
                    match cd.0 {
                        Some(e) => (
                            branches.push(BranchView { condition: e, body: body.0, span: body_span }),
                            otherwise,
                            cd.1,
                        ),
                        None => (branches, otherwise, cd.1),
                    }
                },
                LineKindView::Elif(c) => {
                    let cd = condition_spec(c, line.span, marker);
                    match cd.0 {
                        Some(e) => (
                            branches.push(BranchView { condition: e, body: body.0, span: body_span }),
                            otherwise,
                            cd.1,
                        ),
                        None => (branches, otherwise, cd.1),
                    }
                },
                _ => (branches, otherwise, Seq::empty()),
            }
        };
        (step.0, step.1, join_spec(span, body_span), body.1, body.2 + step.2)
    }
}

/// The `[while]` at line `pos` and the block under it, where `[break]` and
/// `[continue]` may stand. A loop whose condition is dropped is dropped
/// with its body.
pub open spec fn p_while(ls: Lines, pos: int, in_loop: bool) -> (Option<StmtView>, int, Seq<Report>)
    decreases ls.len() - pos, 2int,
{
    if pos < 0 || pos >= ls.len() {
        (None, pos, Seq::empty())
    } else {
        let line = ls[pos];
        match line.kind {
            LineKindView::While(cond) => {
                let body = p_block(ls, pos + 1, line.indent + 1, true);
                let c = condition_spec(cond, line.span, "[while]"@);
                (
                    match c.0 {
                        Some(e) => Some(
                            StmtView { kind: StmtKindView::While(e, body.0), span: reach(line.span, body.0) },
                        ),
                        None => None,
                    },
                    body.1,
                    body.2 + c.1,
                )
            },
            _ => (None, pos + 1, Seq::empty()),
        }
    }
}

/// What a name and its span hold.
pub open spec fn name_of(t: TextView) -> Name {
    (t.value, t.span)
}

/// The single line at `pos`: what it says, jumps to, commands, assigns, or
/// the fault it reports. A stray `[elif]` or `[else]` drops the block under
/// it.
pub open spec fn p_line(ls: Lines, pos: int, in_loop: bool) -> (Option<StmtView>, int, Seq<Report>)
    decreases ls.len() - pos, 2int,
{
    if pos < 0 || pos >= ls.len() {
        (None, pos, Seq::empty())
    } else {
        let line = ls[pos];
        let next = pos + 1;
        match line.kind {
            LineKindView::Say { speaker, text } => {
                let tp = text_parts(text.value, text.span.start as int, 0);
                (
                    Some(
                        StmtView {
                            kind: StmtKindView::Say(
                                match speaker {
                                    Some(s) => Some(name_of(s)),
                                    None => None,
                                },
                                tp.0,
                            ),
                            span: line.span,
                        },
                    ),
                    next,
                    tp.1,
                )
            },
            LineKindView::Jump(name) => if valid_ident(name.value) {
                (Some(StmtView { kind: StmtKindView::Jump(name_of(name)), span: line.span }), next, Seq::empty())
            } else if name.value.len() == 0 {
                (None, next, seq![plain(line.span, DiagnosticKind::EmptyJump)])
            } else {
                (None, next, seq![invalid_node_name(name.span, name.value)])
            },
            LineKindView::Command(cmd) => {
                let c = command_spec(cmd, line.span);
                (c.0, next, c.1)
            },
            LineKindView::Let(body) => {
                let c = let_spec(body, line.span);
                (c.0, next, c.1)
            },
            LineKindView::Elif(_) => {
                let b = p_block(ls, next, line.indent + 1, in_loop);
                (None, b.1, seq![stray_branch(line.span, "[elif]"@)] + b.2)
            },
            LineKindView::Else(_) => {
                let b = p_block(ls, next, line.indent + 1, in_loop);
                (None, b.1, seq![stray_branch(line.span, "[else]"@)] + b.2)
            },
            LineKindView::Break(s) => if !in_loop {
                (None, next, seq![stray_loop_control(line.span, "[break]"@)])
            } else {
                (
                    Some(StmtView { kind: StmtKindView::Break, span: line.span }),
                    next,
                    empty_bracket_spec(s, line.span, "[break]"@),
                )
            },
            LineKindView::Continue(s) => if !in_loop {
                (None, next, seq![stray_loop_control(line.span, "[continue]"@)])
            } else {
                (
                    Some(StmtView { kind: StmtKindView::Continue, span: line.span }),
                    next,
                    empty_bracket_spec(s, line.span, "[continue]"@),
                )
            },
            LineKindView::Malformed(m) => (None, next, seq![malformed_marker(line.span, m.value)]),
            _ => (None, next, Seq::empty()),
        }
    }
}

/// What a node holds: its name, its statements, and its span from its `:=`
/// to its `---`.
pub struct NodeView {
    pub name: Name,
    pub body: Seq<StmtView>,
    pub full_span: Span,
}

/// The node whose `:=` is line `pos`, up to its `---`, the next `:=` or the
/// end of the source: the node, the line after it, and what it reports.
pub open spec fn p_node(ls: Lines, pos: int) -> (NodeView, int, Seq<Report>) {
    let header = ls[pos];
    let name = header.kind->NodeStart_0;
    let indented = if header.indent > 0 {
        seq![plain(header.span, DiagnosticKind::IndentedNodeStart)]
    } else {
        Seq::empty()
    };
    let named = if name.value.len() == 0 {
        seq![plain(name.span, DiagnosticKind::EmptyNodeName)]
    } else if !valid_ident(name.value) {
        seq![invalid_node_name(name.span, name.value)]
    } else {
        Seq::empty()
    };
    let body = p_block(ls, pos + 1, 0, false);
    let p = body.1;
    let end: (Option<Span>, int, Seq<Report>) = if 0 <= p < ls.len() && ls[p].kind is NodeEnd {
        (
            Some(ls[p].span),
            p + 1,
            if ls[p].indent > 0 {
                seq![plain(ls[p].span, DiagnosticKind::IndentedNodeEnd)]
            } else {
                Seq::empty()
            },
        )
    } else if 0 <= p < ls.len() && ls[p].kind is NodeStart {
        (
            None,
            p,
            seq![
                unclosed_node(
                    header.span,
                    name.value,
                    seq![(ls[p].kind->NodeStart_0.span, "the next node starts here"@)],
                ),
            ],
        )
    } else {
        (None, p, seq![unclosed_node(header.span, name.value, Seq::empty())])
    };
    let empty = if body.0.len() == 0 {
        seq![plain(header.span, DiagnosticKind::EmptyNode)]
    } else {
        Seq::empty()
    };
    let full_span = match end.0 {
        Some(s) => join_spec(header.span, s),
        None => reach(header.span, body.0),
    };
    (
        NodeView { name: name_of(name), body: body.0, full_span },
        end.1,
        indented + named + body.2 + end.2 + empty,
    )
}

/// The first line at or after `pos` that is a `:=` or a `---`, or the end.
pub open spec fn next_boundary(ls: Lines, pos: int) -> int
    decreases ls.len() - pos,
{
    if pos < 0 || pos >= ls.len() || at_boundary(ls, pos) {
        pos
    } else {
        next_boundary(ls, pos + 1)
    }
}

/// The next boundary is not before `pos`, and not past the end.
proof fn lemma_next_boundary(ls: Lines, pos: int)
    requires
        0 <= pos <= ls.len(),
    ensures
        pos <= next_boundary(ls, pos) <= ls.len(),
    decreases ls.len() - pos,
{
    if pos < ls.len() && !at_boundary(ls, pos) {
        lemma_next_boundary(ls, pos + 1);
    }
}

/// The nodes of the lines from `pos` on, and what reading them reports. A
/// `---` with no node open is reported, and so is a region outside of any
/// node, once for the whole region.
pub open spec fn p_file(ls: Lines, pos: int) -> (Seq<NodeView>, Seq<Report>)
    decreases ls.len() - pos,
{
    if pos < 0 || pos >= ls.len() {
        (Seq::empty(), Seq::empty())
    } else {
        match ls[pos].kind {
            LineKindView::NodeStart(_) => {
                let n = p_node(ls, pos);
                if n.1 <= pos || n.1 > ls.len() {
                    (seq![n.0], n.2)
                } else {
                    let rest = p_file(ls, n.1);
                    (seq![n.0] + rest.0, n.2 + rest.1)
                }
            },
            LineKindView::NodeEnd => {
                let rest = p_file(ls, pos + 1);
                (rest.0, seq![plain(ls[pos].span, DiagnosticKind::StrayNodeEnd)] + rest.1)
            },
            _ => {
                let q = next_boundary(ls, pos + 1);
                if q <= pos || q > ls.len() {
                    (Seq::empty(), seq![plain(ls[pos].span, DiagnosticKind::ContentOutsideNode)])
                } else {
                    let rest = p_file(ls, q);
                    (rest.0, seq![plain(ls[pos].span, DiagnosticKind::ContentOutsideNode)] + rest.1)
                }
            },
        }
    }
}

/// The jumps of `stmts`, and of the options of their choices, to a node
/// that `names` does not hold.
pub open spec fn jumps_in(stmts: Seq<StmtView>, names: Seq<Seq<char>>) -> Seq<Report>
    decreases stmts,
{
    if stmts.len() == 0 {
        Seq::empty()
    } else {
        jumps_in(stmts.subrange(0, stmts.len() - 1), names) + jumps_of(stmts[stmts.len() - 1], names)
    }
}

/// The jumps of `stmt`, or of the options of its choice, to a node that
/// `names` does not hold.
pub open spec fn jumps_of(stmt: StmtView, names: Seq<Seq<char>>) -> Seq<Report>
    decreases stmt,
{
    match stmt.kind {
        StmtKindView::Jump(n) => if !names.contains(n.0) && n.0 != crate::parser::end_node_name() {
            seq![jump_to_unknown(stmt.span, n.0)]
        } else {
            Seq::empty()
        },
        StmtKindView::Choice(cs) => jumps_in_choices(cs, names),
        _ => Seq::empty(),
    }
}

/// The jumps of the bodies of `cs` to a node that `names` does not hold.
pub open spec fn jumps_in_choices(cs: Seq<ChoiceView>, names: Seq<Seq<char>>) -> Seq<Report>
    decreases cs,
{
    if cs.len() == 0 {
        Seq::empty()
    } else {
        jumps_in_choices(cs.subrange(0, cs.len() - 1), names) + jumps_in(cs[cs.len() - 1].body, names)
    }
}

/// What `a` or `b` holds, `a + b` holds.
proof fn lemma_concat_contains(a: Seq<Report>, b: Seq<Report>)
    ensures
        forall|x: Report| #[trigger] a.contains(x) ==> (a + b).contains(x),
        forall|x: Report| #[trigger] b.contains(x) ==> (a + b).contains(x),
{
    assert forall|x: Report| #[trigger] a.contains(x) implies (a + b).contains(x) by {
        let j = choose|j: int| 0 <= j < a.len() && a[j] == x;
        assert((a + b)[j] == x);
    }
    assert forall|x: Report| #[trigger] b.contains(x) implies (a + b).contains(x) by {
        let j = choose|j: int| 0 <= j < b.len() && b[j] == x;
        assert((a + b)[a.len() + j] == x);
    }
}

/// What is reported for one statement is reported for the statements
/// around it.
proof fn lemma_statement_jumps_reported(stmts: Seq<StmtView>, i: int, names: Seq<Seq<char>>)
    requires
        0 <= i < stmts.len(),
    ensures
        forall|x: Report|
            #[trigger] jumps_of(stmts[i], names).contains(x) ==> jumps_in(stmts, names).contains(x),
    decreases stmts.len(),
{
    let front = stmts.subrange(0, stmts.len() - 1);
    lemma_concat_contains(jumps_in(front, names), jumps_of(stmts[stmts.len() - 1], names));
    if i < stmts.len() - 1 {
        lemma_statement_jumps_reported(front, i, names);
        assert(front[i] == stmts[i]);
    }
}

/// What is reported for the body of one option is reported for the choice.
proof fn lemma_option_jumps_reported(cs: Seq<ChoiceView>, m: int, names: Seq<Seq<char>>)
    requires
        0 <= m < cs.len(),
    ensures
        forall|x: Report|
            #[trigger] jumps_in(cs[m].body, names).contains(x) ==> jumps_in_choices(cs, names).contains(x),
    decreases cs.len(),
{
    let front = cs.subrange(0, cs.len() - 1);
    lemma_concat_contains(jumps_in_choices(front, names), jumps_in(cs[cs.len() - 1].body, names));
    if m < cs.len() - 1 {
        lemma_option_jumps_reported(front, m, names);
        assert(front[m] == cs[m]);
    }
}

/// A jump of a body to a node that is neither `END` nor one of `names` is
/// reported, and so is every such jump in the body of any option of a
/// choice of that body, however deep.
pub proof fn lemma_unknown_jumps_reported(stmts: Seq<StmtView>, i: int, names: Seq<Seq<char>>)
    requires
        0 <= i < stmts.len(),
    ensures
        stmts[i].kind matches StmtKindView::Jump(n) ==> (!names.contains(n.0) && n.0
            != end_node_name() ==> jumps_in(stmts, names).contains(
            jump_to_unknown(stmts[i].span, n.0),
        )),
        stmts[i].kind matches StmtKindView::Choice(cs) ==> forall|m: int, x: Report|
            0 <= m < cs.len() && #[trigger] jumps_in(cs[m].body, names).contains(x) ==> jumps_in(
                stmts,
                names,
            ).contains(x),
{
    lemma_statement_jumps_reported(stmts, i, names);
    match stmts[i].kind {
        StmtKindView::Jump(n) => {
            if !names.contains(n.0) && n.0 != end_node_name() {
                assert(jumps_of(stmts[i], names)[0] == jump_to_unknown(stmts[i].span, n.0));
                assert(jumps_of(stmts[i], names).contains(jump_to_unknown(stmts[i].span, n.0)));
            }
        },
        StmtKindView::Choice(cs) => {
            assert forall|m: int, x: Report|
                0 <= m < cs.len() && #[trigger] jumps_in(cs[m].body, names).contains(x) implies jumps_in(
                stmts,
                names,
            ).contains(x) by {
                lemma_option_jumps_reported(cs, m, names);
                assert(jumps_of(stmts[i], names) == jumps_in_choices(cs, names));
            }
        },
        _ => {},
    }
}

/// What is reported for the body of any node is among what checking the
/// nodes reports.
pub proof fn lemma_node_jumps_validated(nodes: Seq<NodeView>, j: int)
    requires
        0 <= j < nodes.len(),
    ensures
        forall|x: Report|
            #[trigger] jumps_in(nodes[j].body, node_names(nodes)).contains(x) ==> validation(
                nodes,
            ).contains(x),
{
    lemma_node_jumps_among(nodes, j, nodes.len() as int);
    lemma_concat_contains(
        unknown_jumps(nodes, nodes.len() as int),
        reserved_names(nodes, nodes.len() as int),
    );
    lemma_concat_contains(
        unknown_jumps(nodes, nodes.len() as int) + reserved_names(nodes, nodes.len() as int),
        duplicates(nodes, nodes.len() as int),
    );
}

/// What is reported for the body of node `j` is among the unknown jumps of
/// the first `k` nodes, `j` being one of them.
proof fn lemma_node_jumps_among(nodes: Seq<NodeView>, j: int, k: int)
    requires
        0 <= j < k <= nodes.len(),
    ensures
        forall|x: Report|
            #[trigger] jumps_in(nodes[j].body, node_names(nodes)).contains(x) ==> unknown_jumps(
                nodes,
                k,
            ).contains(x),
    decreases k,
{
    lemma_concat_contains(
        unknown_jumps(nodes, k - 1),
        jumps_in(nodes[k - 1].body, node_names(nodes)),
    );
    if j < k - 1 {
        lemma_node_jumps_among(nodes, j, k - 1);
    }
}

/// The names of `nodes`, in order.
pub open spec fn node_names(nodes: Seq<NodeView>) -> Seq<Seq<char>> {
    nodes.map_values(|n: NodeView| n.name.0)
}

/// The jumps of the first `k` nodes to a node that does not exist.
pub open spec fn unknown_jumps(nodes: Seq<NodeView>, k: int) -> Seq<Report>
    decreases k,
{
    if k <= 0 {
        Seq::empty()
    } else {
        unknown_jumps(nodes, k - 1) + jumps_in(nodes[k - 1].body, node_names(nodes))
    }
}

/// The first `k` nodes that take a name the language keeps.
pub open spec fn reserved_names(nodes: Seq<NodeView>, k: int) -> Seq<Report>
    decreases k,
{
    if k <= 0 {
        Seq::empty()
    } else {
        reserved_names(nodes, k - 1) + if nodes[k - 1].name.0 == crate::parser::end_node_name() {
            seq![reserved_node_name(nodes[k - 1].name.1, nodes[k - 1].name.0)]
        } else {
            Seq::empty()
        }
    }
}

/// How many of the first `k` nodes are called `name`.
pub open spec fn count_named(nodes: Seq<NodeView>, name: Seq<char>, k: int) -> nat
    decreases k,
{
    if k <= 0 {
        0
    } else {
        count_named(nodes, name, k - 1) + if nodes[k - 1].name.0 == name {
            1nat
        } else {
            0nat
        }
    }
}

/// A report for each of the first `k` nodes called `name`, in order.
pub open spec fn named_reports(nodes: Seq<NodeView>, name: Seq<char>, k: int) -> Seq<Report>
    decreases k,
{
    if k <= 0 {
        Seq::empty()
    } else {
        named_reports(nodes, name, k - 1) + if nodes[k - 1].name.0 == name {
            seq![duplicate_node(nodes[k - 1].name.1, name)]
        } else {
            Seq::empty()
        }
    }
}

/// Whether node `i` is the first of `nodes` to take its name.
pub open spec fn first_named(nodes: Seq<NodeView>, i: int) -> bool {
    forall|j: int| 0 <= j < i ==> nodes[j].name.0 != nodes[i].name.0
}

/// The nodes that share their name with another, among the names of the
/// first `k` nodes: for each such name, in the order the names first
/// appear, a report at every node that takes it.
pub open spec fn duplicates(nodes: Seq<NodeView>, k: int) -> Seq<Report>
    decreases k,
{
    if k <= 0 {
        Seq::empty()
    } else {
        let i = k - 1;
        let name = nodes[i].name.0;
        duplicates(nodes, k - 1) + if first_named(nodes, i) && count_named(nodes, name, nodes.len() as int) > 1 {
            named_reports(nodes, name, nodes.len() as int)
        } else {
            Seq::empty()
        }
    }
}

/// What checking the nodes of a file reports: the jumps to a node that does
/// not exist, the names the language keeps, then the names taken twice.
pub open spec fn validation(nodes: Seq<NodeView>) -> Seq<Report> {
    unknown_jumps(nodes, nodes.len() as int) + reserved_names(nodes, nodes.len() as int) + duplicates(
        nodes,
        nodes.len() as int,
    )
}

/// Pushing a statement adds its view at the end.
proof fn lemma_stmts_push(v: Seq<Stmt>, x: Stmt)
    ensures
        stmts_view(v.push(x)) == stmts_view(v).push(stmt_view(x)),
{
    assert(v.push(x).subrange(0, v.len() as int) =~= v);
}

/// The views of statements are one per statement, in order.
pub proof fn lemma_stmts_len(v: Seq<Stmt>)
    ensures
        stmts_view(v).len() == v.len(),
        forall|i: int| 0 <= i < v.len() ==> #[trigger] stmts_view(v)[i] == stmt_view(v[i]),
    decreases v.len(),
{
    if v.len() > 0 {
        lemma_stmts_len(v.subrange(0, v.len() - 1));
    }
}

/// The views of choices are one per choice, in order.
pub proof fn lemma_choices_len(v: Seq<Choice>)
    ensures
        choices_view(v).len() == v.len(),
        forall|i: int|
            0 <= i < v.len() ==> #[trigger] choices_view(v)[i] == (ChoiceView {
                text: parts_view(v[i].text@),
                body: stmts_view(v[i].body@),
                span: v[i].span,
            }),
    decreases v.len(),
{
    if v.len() > 0 {
        lemma_choices_len(v.subrange(0, v.len() - 1));
    }
}

/// Pushing a choice adds its view at the end.
proof fn lemma_choices_push(v: Seq<Choice>, x: Choice)
    ensures
        choices_view(v.push(x)) == choices_view(v).push(
            ChoiceView { text: parts_view(x.text@), body: stmts_view(x.body@), span: x.span },
        ),
{
    assert(v.push(x).subrange(0, v.len() as int) =~= v);
}

/// Pushing a branch adds its view at the end.
proof fn lemma_branches_push(v: Seq<Branch>, x: Branch)
    ensures
        branches_view(v.push(x)) == branches_view(v).push(
            BranchView { condition: crate::parser::expr::sview(x.condition), body: stmts_view(x.body@), span: x.span },
        ),
{
    assert(v.push(x).subrange(0, v.len() as int) =~= v);
}

/// The lines of a source being read, the next line to read, and what
/// reading them reported so far.
struct Parser<'a> {
    lines: Vec<RawLine<'a>>,
    pos: usize,
    diags: Diagnostics,
}

impl<'a> Parser<'a> {
    /// The lines, seen as views.
    spec fn ls(self) -> Lines {
        views(self.lines@)
    }

    /// The next line is a line or the end, and every line is whole.
    spec fn wf(self) -> bool {
        &&& self.pos <= self.lines@.len()
        &&& lines_ok(self.ls())
    }

    /// `self` reads the lines of `before`, and reports on the same source.
    spec fn kept(self, before: Self) -> bool {
        &&& self.lines@ == before.lines@
        &&& self.pos <= self.lines@.len()
        &&& self.diags.index() == before.diags.index()
        &&& self.diags.path() == before.diags.path()
    }

    /// What the line `i` holds.
    proof fn lemma_line(self, i: int)
        requires
            self.wf(),
            0 <= i < self.lines@.len(),
        ensures
            self.ls()[i] == self.lines@[i].view(),
            crate::parser::lines::kind_ok(self.lines@[i].kind.view()),
    {
        assert(self.ls()[i] == self.lines@[i].view());
        assert(crate::parser::lines::kind_ok(self.ls()[i].kind));
    }

    /// Whether the block of lines indented at least `min` deep goes on at
    /// the next line.
    fn block_goes_on(&self, min: u32) -> (r: bool)
        requires
            self.wf(),
        ensures
            r == !(self.pos >= self.lines@.len() || (self.ls()[self.pos as int].indent as int) < min
                || at_boundary(self.ls(), self.pos as int)),
    {
        if self.pos >= self.lines.len() {
            return false;
        }
        let line = self.lines[self.pos];
        proof {
            self.lemma_line(self.pos as int);
        }
        if (line.indent as u32) < min {
            return false;
        }
        match line.kind {
            LineKind::NodeStart(_) | LineKind::NodeEnd => false,
            _ => true,
        }
    }

    /// A single line, as [`p_line`] reads it.
    fn parse_line(&mut self, in_loop: bool) -> (r: Option<Stmt>)
        requires
            old(self).wf(),
            old(self).pos < old(self).lines@.len(),
        ensures
            final(self).kept(*old(self)),
            final(self).pos > old(self).pos,
            opt_stmt_view(r) == p_line(old(self).ls(), old(self).pos as int, in_loop).0,
            final(self).pos == p_line(old(self).ls(), old(self).pos as int, in_loop).1,
            reported(old(self).diags.items(), final(self).diags.items(), p_line(old(self).ls(), old(self).pos as int, in_loop).2),
        decreases old(self).lines@.len() - old(self).pos, 2int,
    {
        let ghost ls = self.ls();
        let ghost pos = self.pos as int;
        let ghost d0 = self.diags.items();
        let n = self.lines.len();
        let line = self.lines[self.pos];
        proof {
            self.lemma_line(pos);
            lemma_reported_nothing(d0);
        }
        self.pos = self.pos + 1;
        match line.kind {
            LineKind::Say { speaker, text } => {
                let speaker = match speaker {
                    Some(s) => Some(Spanned::from_str_spanned(s)),
                    None => None,
                };
                let parts = parse_text_line(text, &mut self.diags);
                Some(Stmt { kind: StmtKind::Say { speaker, text: parts }, span: line.span })
            },
            LineKind::Jump(name) => {
                if is_valid_ident(name.value) {
                    Some(Stmt { kind: StmtKind::Jump(Spanned::from_str_spanned(name)), span: line.span })
                } else if name.value.is_empty() {
                    self.diags.report(line.span, DiagnosticKind::EmptyJump);
                    None
                } else {
                    self.diags.report(name.span, DiagnosticKind::InvalidNodeName(text::owned(name.value)));
                    None
                }
            },
            LineKind::Command(cmd) => parse_command(cmd, line.span, &mut self.diags),
            LineKind::Let(body) => parse_let(body, line.span, &mut self.diags),
            LineKind::Elif(_) | LineKind::Else(_) => {
                let marker = match line.kind {
                    LineKind::Elif(_) => "[elif]",
                    _ => "[else]",
                };
                proof {
                    reveal_strlit("[elif]");
                    reveal_strlit("[else]");
                }
                self.diags.report(line.span, DiagnosticKind::StrayBranch(text::owned(marker)));
                let ghost d1 = self.diags.items();
                let _ = self.parse_block(line.indent as u32 + 1, in_loop);
                proof {
                    let b = p_block(ls, pos + 1, line.indent + 1, in_loop);
                    lemma_reported_chain(d0, d1, self.diags.items(), seq![stray_branch(line.span, marker@)], b.2);
                }
                None
            },
            LineKind::Break(rest) | LineKind::Continue(rest) => {
                let marker = match line.kind {
                    LineKind::Break(_) => "[break]",
                    _ => "[continue]",
                };
                proof {
                    reveal_strlit("[break]");
                    reveal_strlit("[continue]");
                }
                if !in_loop {
                    self.diags.report(line.span, DiagnosticKind::StrayLoopControl(text::owned(marker)));
                    return None;
                }
                expect_empty_bracket(rest, line.span, marker, &mut self.diags);
                Some(
                    Stmt {
                        kind: match line.kind {
                            LineKind::Break(_) => StmtKind::Break,
                            _ => StmtKind::Continue,
                        },
                        span: line.span,
                    },
                )
            },
            LineKind::Malformed(marker) => {
                self.diags.report(line.span, DiagnosticKind::MalformedMarker(text::owned(marker.value)));
                None
            },
            _ => None,
        }
    }

    /// The statements of the block indented at least `min` deep, as
    /// [`p_block`] reads them.
    fn parse_block(&mut self, min: u32, in_loop: bool) -> (r: Vec<Stmt>)
        requires
            old(self).wf(),
        ensures
            final(self).kept(*old(self)),
            final(self).pos >= old(self).pos,
            stmts_view(r@) == p_block(old(self).ls(), old(self).pos as int, min as int, in_loop).0,
            final(self).pos == p_block(old(self).ls(), old(self).pos as int, min as int, in_loop).1,
            reported(old(self).diags.items(), final(self).diags.items(), p_block(old(self).ls(), old(self).pos as int, min as int, in_loop).2),
        decreases old(self).lines@.len() - old(self).pos, 4int,
    {
        let ghost ls = self.ls();
        let ghost pos0 = self.pos as int;
        let ghost d0 = self.diags.items();
        let ghost start = *self;
        let mut out: Vec<Stmt> = Vec::new();
        let ghost mut acc: Seq<Report> = Seq::empty();
        proof {
            lemma_reported_nothing(d0);
            assert(stmts_view(out@) =~= Seq::<StmtView>::empty());
            assert(Seq::<StmtView>::empty() + p_block(ls, pos0, min as int, in_loop).0 =~= p_block(ls, pos0, min as int, in_loop).0);
            assert(Seq::<Report>::empty() + p_block(ls, pos0, min as int, in_loop).2 =~= p_block(ls, pos0, min as int, in_loop).2);
        }
        while self.block_goes_on(min)
            invariant
                self.wf(),
                self.kept(start),
                start == *old(self),
                ls == self.ls(),
                pos0 == old(self).pos,
                pos0 <= self.pos,
                stmts_view(out@) + p_block(ls, self.pos as int, min as int, in_loop).0 == p_block(ls, pos0, min as int, in_loop).0,
                p_block(ls, self.pos as int, min as int, in_loop).1 == p_block(ls, pos0, min as int, in_loop).1,
                acc + p_block(ls, self.pos as int, min as int, in_loop).2 == p_block(ls, pos0, min as int, in_loop).2,
                reported(d0, self.diags.items(), acc),
            decreases self.lines@.len() - self.pos,
        {
            let ghost p = self.pos as int;
            let ghost da = self.diags.items();
            let line = self.lines[self.pos];
            proof {
                self.lemma_line(p);
            }
            let ghost pre: Seq<Report> = if line.indent as int > min as int {
                seq![plain(line.span, DiagnosticKind::UnexpectedIndentation)]
            } else {
                Seq::empty()
            };
            if line.indent as u32 > min {
                self.diags.report(line.span, DiagnosticKind::UnexpectedIndentation);
            } else {
                proof {
                    lemma_reported_nothing(da);
                }
            }
            let ghost db = self.diags.items();
            let one = self.parse_statement(in_loop);
            let ghost st = p_statement(ls, p, in_loop);
            proof {
                lemma_reported_chain(da, db, self.diags.items(), pre, st.2);
                lemma_reported_chain(d0, da, self.diags.items(), acc, pre + st.2);
                let rest = p_block(ls, self.pos as int, min as int, in_loop);
                assert(p_block(ls, p, min as int, in_loop) == (seq_of(st.0) + rest.0, rest.1, pre + st.2 + rest.2));
                assert(acc + (pre + st.2) + rest.2 =~= acc + (pre + st.2 + rest.2));
                acc = acc + (pre + st.2);
            }
            let ghost before = out@;
            match one {
                Some(x) => {
                    out.push(x);
                    proof {
                        lemma_stmts_push(before, x);
                    }
                },
                None => {},
            }
            proof {
                let rest = p_block(ls, self.pos as int, min as int, in_loop);
                assert(stmts_view(out@) == stmts_view(before) + seq_of(st.0));
                assert(stmts_view(out@) + rest.0 =~= stmts_view(before) + (seq_of(st.0) + rest.0));
            }
        }
        proof {
            assert(stmts_view(out@) + Seq::<StmtView>::empty() =~= stmts_view(out@));
            assert(acc + Seq::<Report>::empty() =~= acc);
        }
        out
    }

    /// The statement at the next line, as [`p_statement`] reads it.
    fn parse_statement(&mut self, in_loop: bool) -> (r: Option<Stmt>)
        requires
            old(self).wf(),
            old(self).pos < old(self).lines@.len(),
        ensures
            final(self).kept(*old(self)),
            final(self).pos > old(self).pos,
            opt_stmt_view(r) == p_statement(old(self).ls(), old(self).pos as int, in_loop).0,
            final(self).pos == p_statement(old(self).ls(), old(self).pos as int, in_loop).1,
            reported(old(self).diags.items(), final(self).diags.items(), p_statement(old(self).ls(), old(self).pos as int, in_loop).2),
        decreases old(self).lines@.len() - old(self).pos, 3int,
    {
        let line = self.lines[self.pos];
        proof {
            self.lemma_line(self.pos as int);
        }
        match line.kind {
            LineKind::Choice(_) => Some(self.parse_choice_group(in_loop)),
            LineKind::If(_) => Some(self.parse_if(in_loop)),
            LineKind::While(_) => self.parse_while(in_loop),
            _ => self.parse_line(in_loop),
        }
    }

    /// A `[while]` and its body, as [`p_while`] reads them.
    fn parse_while(&mut self, in_loop: bool) -> (r: Option<Stmt>)
        requires
            old(self).wf(),
            old(self).pos < old(self).lines@.len(),
            old(self).ls()[old(self).pos as int].kind is While,
        ensures
            final(self).kept(*old(self)),
            final(self).pos > old(self).pos,
            opt_stmt_view(r) == p_while(old(self).ls(), old(self).pos as int, in_loop).0,
            final(self).pos == p_while(old(self).ls(), old(self).pos as int, in_loop).1,
            reported(old(self).diags.items(), final(self).diags.items(), p_while(old(self).ls(), old(self).pos as int, in_loop).2),
        decreases old(self).lines@.len() - old(self).pos, 2int,
    {
        let ghost ls = self.ls();
        let ghost pos = self.pos as int;
        let ghost d0 = self.diags.items();
        let n = self.lines.len();
        let line = self.lines[self.pos];
        proof {
            self.lemma_line(pos);
        }
        let cond = match line.kind {
            LineKind::While(c) => c,
            _ => {
                self.pos = self.pos + 1;
                return None;
            },
        };
        self.pos = self.pos + 1;
        let body = self.parse_block(line.indent as u32 + 1, true);
        let ghost d1 = self.diags.items();
        let span = match body.last() {
            Some(last) => line.span.join(last.span),
            None => line.span,
        };
        proof {
            reveal_strlit("[while]");
            let b = p_block(ls, pos + 1, line.indent + 1, true);
            lemma_stmts_len(body@);
            assert(span == reach(line.span, b.0));
        }
        let condition = parse_condition(cond, line.span, "[while]", &mut self.diags);
        proof {
            let b = p_block(ls, pos + 1, line.indent + 1, true);
            lemma_reported_chain(d0, d1, self.diags.items(), b.2, condition_spec(tv(cond), line.span, "[while]"@).1);
        }
        match condition {
            Some(condition) => Some(Stmt { kind: StmtKind::While { condition, body }, span }),
            None => None,
        }
    }

    /// A choice group, as [`p_choice_group`] reads it.
    fn parse_choice_group(&mut self, in_loop: bool) -> (r: Stmt)
        requires
            old(self).wf(),
            old(self).pos < old(self).lines@.len(),
            old(self).ls()[old(self).pos as int].kind is Choice,
        ensures
            final(self).kept(*old(self)),
            final(self).pos > old(self).pos,
            stmt_view(r) == p_choice_group(old(self).ls(), old(self).pos as int, in_loop).0,
            final(self).pos == p_choice_group(old(self).ls(), old(self).pos as int, in_loop).1,
            reported(old(self).diags.items(), final(self).diags.items(), p_choice_group(old(self).ls(), old(self).pos as int, in_loop).2),
        decreases old(self).lines@.len() - old(self).pos, 2int,
    {
        let ghost ls = self.ls();
        let ghost pos0 = self.pos as int;
        let ghost d0 = self.diags.items();
        let ghost start = *self;
        let n = self.lines.len();
        let first = self.lines[self.pos];
        proof {
            self.lemma_line(pos0);
        }
        let base = first.indent;
        let mut choices: Vec<Choice> = Vec::new();
        let ghost mut acc: Seq<Report> = Seq::empty();
        proof {
            lemma_reported_nothing(d0);
            assert(choices_view(choices@) =~= Seq::<ChoiceView>::empty());
            assert(Seq::<ChoiceView>::empty() + p_choices(ls, pos0, base as int, in_loop).0 =~= p_choices(ls, pos0, base as int, in_loop).0);
            assert(Seq::<Report>::empty() + p_choices(ls, pos0, base as int, in_loop).2 =~= p_choices(ls, pos0, base as int, in_loop).2);
        }
        while self.choice_goes_on(base)
            invariant
                self.wf(),
                self.kept(start),
                start == *old(self),
                n == self.lines@.len(),
                ls == self.ls(),
                pos0 == old(self).pos,
                pos0 <= self.pos,
                choices_view(choices@) + p_choices(ls, self.pos as int, base as int, in_loop).0 == p_choices(ls, pos0, base as int, in_loop).0,
                p_choices(ls, self.pos as int, base as int, in_loop).1 == p_choices(ls, pos0, base as int, in_loop).1,
                acc + p_choices(ls, self.pos as int, base as int, in_loop).2 == p_choices(ls, pos0, base as int, in_loop).2,
                reported(d0, self.diags.items(), acc),
                choices@.len() > 0 ==> self.pos > pos0,
                choices@.len() == 0 ==> self.pos == pos0,
            decreases self.lines@.len() - self.pos,
        {
            let ghost p = self.pos as int;
            let ghost da = self.diags.items();
            let c = self.parse_choice(base, in_loop);
            let ghost cv = p_choice(ls, p, base as int, in_loop);
            let ghost before = choices@;
            choices.push(c);
            proof {
                lemma_choices_push(before, c);
                lemma_reported_chain(d0, da, self.diags.items(), acc, cv.2);
                let rest = p_choices(ls, self.pos as int, base as int, in_loop);
                assert(p_choices(ls, p, base as int, in_loop) == (seq![cv.0] + rest.0, rest.1, cv.2 + rest.2));
                assert(choices_view(choices@) + rest.0 =~= choices_view(before) + (seq![cv.0] + rest.0));
                assert(acc + cv.2 + rest.2 =~= acc + (cv.2 + rest.2));
                acc = acc + cv.2;
            }
        }
        proof {
            let rest = p_choices(ls, self.pos as int, base as int, in_loop);
            assert(choices_view(choices@) + rest.0 =~= choices_view(choices@));
            assert(acc + rest.2 =~= acc);
            lemma_choices_len(choices@);
        }
        let span = match choices.last() {
            Some(last) => first.span.join(last.span),
            None => first.span,
        };
        let ghost dz = self.diags.items();
        if choices.len() == 1 {
            self.diags.report(span, DiagnosticKind::SingleChoice);
        } else {
            proof {
                lemma_reported_nothing(dz);
            }
        }
        proof {
            let single: Seq<Report> = if choices@.len() == 1 {
                seq![plain(span, DiagnosticKind::SingleChoice)]
            } else {
                Seq::empty()
            };
            lemma_reported_chain(d0, dz, self.diags.items(), acc, single);
        }
        Stmt { kind: StmtKind::Choice { choices }, span }
    }

    /// Whether the next line is a `->` at the indentation `base`.
    fn choice_goes_on(&self, base: u16) -> (r: bool)
        requires
            self.wf(),
        ensures
            r == !(self.pos >= self.lines@.len() || !(self.ls()[self.pos as int].kind is Choice)
                || self.ls()[self.pos as int].indent != base),
    {
        if self.pos >= self.lines.len() {
            return false;
        }
        let line = self.lines[self.pos];
        proof {
            self.lemma_line(self.pos as int);
        }
        match line.kind {
            LineKind::Choice(_) => line.indent == base,
            _ => false,
        }
    }

    /// The option `->` at the next line and its body, as [`p_choice`]
    /// reads them.
    fn parse_choice(&mut self, base: u16, in_loop: bool) -> (r: Choice)
        requires
            old(self).wf(),
            old(self).pos < old(self).lines@.len(),
            old(self).ls()[old(self).pos as int].kind is Choice,
        ensures
            final(self).kept(*old(self)),
            final(self).pos > old(self).pos,
            ({
                let c = p_choice(old(self).ls(), old(self).pos as int, base as int, in_loop);
                &&& ChoiceView { text: parts_view(r.text@), body: stmts_view(r.body@), span: r.span } == c.0
                &&& final(self).pos == c.1
                &&& reported(old(self).diags.items(), final(self).diags.items(), c.2)
            }),
        decreases old(self).lines@.len() - old(self).pos, 0int,
    {
        let ghost ls = self.ls();
        let ghost p = self.pos as int;
        let ghost da = self.diags.items();
        let n = self.lines.len();
        let line = self.lines[self.pos];
        proof {
            self.lemma_line(p);
        }
        let text = match line.kind {
            LineKind::Choice(t) => t,
            _ => {
                self.pos = self.pos + 1;
                return Choice { text: Vec::new(), body: Vec::new(), span: line.span };
            },
        };
        self.pos = self.pos + 1;
        let ghost empty: Seq<Report> = if text.value@.len() == 0 {
            seq![plain(line.span, DiagnosticKind::EmptyChoiceText)]
        } else {
            Seq::empty()
        };
        if text.value.is_empty() {
            self.diags.report(line.span, DiagnosticKind::EmptyChoiceText);
        } else {
            proof {
                lemma_reported_nothing(da);
            }
        }
        let ghost db = self.diags.items();
        let body = self.parse_block(base as u32 + 1, in_loop);
        let ghost dc = self.diags.items();
        let span = match body.last() {
            Some(last) => line.span.join(last.span),
            None => line.span,
        };
        let parts = parse_text_line(text, &mut self.diags);
        proof {
            let b = p_block(ls, p + 1, base + 1, in_loop);
            let tp = text_parts(text.value@, text.span.start as int, 0);
            lemma_stmts_len(body@);
            assert(span == reach(line.span, b.0));
            lemma_reported_chain(da, db, dc, empty, b.2);
            lemma_reported_chain(da, dc, self.diags.items(), empty + b.2, tp.1);
        }
        Choice { text: parts, body, span }
    }

    /// A condition group, as [`p_if`] reads it.
    fn parse_if(&mut self, in_loop: bool) -> (r: Stmt)
        requires
            old(self).wf(),
            old(self).pos < old(self).lines@.len(),
            old(self).ls()[old(self).pos as int].kind is If,
        ensures
            final(self).kept(*old(self)),
            final(self).pos > old(self).pos,
            stmt_view(r) == p_if(old(self).ls(), old(self).pos as int, in_loop).0,
            final(self).pos == p_if(old(self).ls(), old(self).pos as int, in_loop).1,
            reported(old(self).diags.items(), final(self).diags.items(), p_if(old(self).ls(), old(self).pos as int, in_loop).2),
        decreases old(self).lines@.len() - old(self).pos, 2int,
    {
        let ghost ls = self.ls();
        let ghost pos0 = self.pos as int;
        let ghost d0 = self.diags.items();
        let ghost start = *self;
        let first = self.lines[self.pos];
        proof {
            self.lemma_line(pos0);
        }
        let base = first.indent;
        let mut branches: Vec<Branch> = Vec::new();
        let mut otherwise: Option<Vec<Stmt>> = None;
        let mut span = first.span;
        let mut started = false;
        let ghost mut acc: Seq<Report> = Seq::empty();
        let ghost all = p_branches(ls, pos0, base as int, in_loop, false, Seq::empty(), None, first.span);
        proof {
            lemma_reported_nothing(d0);
            assert(branches_view(branches@) =~= Seq::<BranchView>::empty());
            assert(Seq::<Report>::empty() + all.4 =~= all.4);
        }
        while self.branch_goes_on(base, started)
            invariant
                self.wf(),
                self.kept(start),
                start == *old(self),
                ls == self.ls(),
                pos0 == old(self).pos,
                pos0 <= self.pos,
                started ==> self.pos > pos0,
                !started ==> self.pos == pos0,
                all == p_branches(ls, pos0, base as int, in_loop, false, Seq::empty(), None, first.span),
                ({
                    let now = p_branches(ls, self.pos as int, base as int, in_loop, started, branches_view(branches@), opt_body(otherwise), span);
                    &&& now.0 == all.0
                    &&& now.1 == all.1
                    &&& now.2 == all.2
                    &&& now.3 == all.3
                    &&& acc + now.4 == all.4
                }),
                reported(d0, self.diags.items(), acc),
            decreases self.lines@.len() - self.pos,
        {
            let ghost p = self.pos as int;
            let ghost da = self.diags.items();
            let ghost st = p_branch(ls, p, base as int, in_loop, started, branches_view(branches@), opt_body(otherwise), span);
            self.parse_branch(base, in_loop, started, &mut branches, &mut otherwise, &mut span);
            started = true;
            proof {
                lemma_reported_chain(d0, da, self.diags.items(), acc, st.4);
                let rest = p_branches(ls, self.pos as int, base as int, in_loop, true, st.0, st.1, st.2);
                assert(acc + st.4 + rest.4 =~= acc + (st.4 + rest.4));
                acc = acc + st.4;
            }
        }
        proof {
            let now = p_branches(ls, self.pos as int, base as int, in_loop, started, branches_view(branches@), opt_body(otherwise), span);
            assert(acc + now.4 =~= acc);
        }
        Stmt { kind: StmtKind::If { branches, otherwise }, span }
    }

    /// Whether the next line goes on a condition group at the indentation
    /// `base`.
    fn branch_goes_on(&self, base: u16, started: bool) -> (r: bool)
        requires
            self.wf(),
        ensures
            r == !(self.pos >= self.lines@.len() || self.ls()[self.pos as int].indent != base
                || branch_marker(self.ls()[self.pos as int].kind, started) is None),
    {
        if self.pos >= self.lines.len() {
            return false;
        }
        let line = self.lines[self.pos];
        proof {
            self.lemma_line(self.pos as int);
        }
        if line.indent != base {
            return false;
        }
        match line.kind {
            LineKind::If(_) => !started,
            LineKind::Elif(_) => started,
            LineKind::Else(_) => started,
            _ => false,
        }
    }

    /// The branch marker at the next line and its body, read into the
    /// group so far, as [`p_branch`] reads them.
    fn parse_branch(
        &mut self,
        base: u16,
        in_loop: bool,
        started: bool,
        branches: &mut Vec<Branch>,
        otherwise: &mut Option<Vec<Stmt>>,
        span: &mut Span,
    )
        requires
            old(self).wf(),
            old(self).pos < old(self).lines@.len(),
            branch_marker(old(self).ls()[old(self).pos as int].kind, started) is Some,
        ensures
            final(self).kept(*old(self)),
            final(self).pos > old(self).pos,
            ({
                let st = p_branch(
                    old(self).ls(),
                    old(self).pos as int,
                    base as int,
                    in_loop,
                    started,
                    branches_view(old(branches)@),
                    opt_body(*old(otherwise)),
                    *old(span),
                );
                &&& branches_view(final(branches)@) == st.0
                &&& opt_body(*final(otherwise)) == st.1
                &&& *final(span) == st.2
                &&& final(self).pos == st.3
                &&& reported(old(self).diags.items(), final(self).diags.items(), st.4)
            }),
        decreases old(self).lines@.len() - old(self).pos, 0int,
    {
        let ghost ls = self.ls();
        let ghost p = self.pos as int;
        let ghost da = self.diags.items();
        let n = self.lines.len();
        let line = self.lines[self.pos];
        proof {
            self.lemma_line(p);
            reveal_strlit("[if]");
            reveal_strlit("[elif]");
            reveal_strlit("[else]");
        }
        let marker = match line.kind {
            LineKind::If(_) => "[if]",
            LineKind::Elif(_) => "[elif]",
            _ => "[else]",
        };
        proof {
            assert(branch_marker(ls[p].kind, started) == Some(marker@));
        }
        self.pos = self.pos + 1;
        let body = self.parse_block(base as u32 + 1, in_loop);
        let ghost db = self.diags.items();
        let ghost b = p_block(ls, p + 1, base + 1, in_loop);
        let body_span = match body.last() {
            Some(last) => line.span.join(last.span),
            None => line.span,
        };
        proof {
            lemma_stmts_len(body@);
            assert(body_span == reach(line.span, b.0));
        }
        *span = span.join(body_span);
        if otherwise.is_some() {
            self.diags.report(line.span, DiagnosticKind::BranchAfterElse(text::owned(marker)));
            proof {
                lemma_reported_chain(da, db, self.diags.items(), b.2, seq![branch_after_else(line.span, marker@)]);
            }
            return;
        }
        match line.kind {
            LineKind::Else(rest) => {
                expect_empty_bracket(rest, line.span, marker, &mut self.diags);
                proof {
                    lemma_reported_chain(da, db, self.diags.items(), b.2, empty_bracket_spec(tv(rest), line.span, marker@));
                }
                *otherwise = Some(body);
            },
            LineKind::If(cond) | LineKind::Elif(cond) => {
                let condition = parse_condition(cond, line.span, marker, &mut self.diags);
                proof {
                    lemma_reported_chain(da, db, self.diags.items(), b.2, condition_spec(tv(cond), line.span, marker@).1);
                }
                match condition {
                    Some(condition) => {
                        let br = Branch { condition, body, span: body_span };
                        let ghost before = branches@;
                        branches.push(br);
                        proof {
                            lemma_branches_push(before, br);
                        }
                    },
                    None => {},
                }
            },
            _ => {
                proof {
                    lemma_reported_chain(da, db, self.diags.items(), b.2, Seq::empty());
                }
            },
        }
    }

    /// The node whose `:=` is the next line, as [`p_node`] reads it.
    fn parse_node(&mut self) -> (r: NodeDecl)
        requires
            old(self).wf(),
            old(self).pos < old(self).lines@.len(),
            old(self).ls()[old(self).pos as int].kind is NodeStart,
        ensures
            final(self).kept(*old(self)),
            final(self).pos > old(self).pos,
            node_view(r) == p_node(old(self).ls(), old(self).pos as int).0,
            final(self).pos == p_node(old(self).ls(), old(self).pos as int).1,
            reported(old(self).diags.items(), final(self).diags.items(), p_node(old(self).ls(), old(self).pos as int).2),
    {
        let ghost ls = self.ls();
        let ghost p = self.pos as int;
        let ghost d0 = self.diags.items();
        let n = self.lines.len();
        let header = self.lines[self.pos];
        proof {
            self.lemma_line(p);
            lemma_reported_nothing(d0);
        }
        let name = match header.kind {
            LineKind::NodeStart(name) => name,
            _ => {
                self.pos = self.pos + 1;
                return NodeDecl {
                    name: Spanned::new(String::new(), header.span),
                    body: Vec::new(),
                    full_span: header.span,
                };
            },
        };
        self.pos = self.pos + 1;
        let ghost indented: Seq<Report> = if header.indent > 0 {
            seq![plain(header.span, DiagnosticKind::IndentedNodeStart)]
        } else {
            Seq::empty()
        };
        if header.indent > 0 {
            self.diags.report(header.span, DiagnosticKind::IndentedNodeStart);
        }
        let ghost d1 = self.diags.items();
        let ghost named: Seq<Report> = if name.value@.len() == 0 {
            seq![plain(name.span, DiagnosticKind::EmptyNodeName)]
        } else if !valid_ident(name.value@) {
            seq![invalid_node_name(name.span, name.value@)]
        } else {
            Seq::empty()
        };
        if name.value.is_empty() {
            self.diags.report(name.span, DiagnosticKind::EmptyNodeName);
        } else if !is_valid_ident(name.value) {
            self.diags.report(name.span, DiagnosticKind::InvalidNodeName(text::owned(name.value)));
        } else {
            proof {
                lemma_reported_nothing(d1);
            }
        }
        let ghost d2 = self.diags.items();
        let body = self.parse_block(0, false);
        let ghost d3 = self.diags.items();
        let ghost b = p_block(ls, p + 1, 0, false);
        let ghost q = self.pos as int;
        let mut end_span: Option<Span> = None;
        if self.pos < n {
            let next = self.lines[self.pos];
            proof {
                self.lemma_line(q);
            }
            match next.kind {
                LineKind::NodeEnd => {
                    if next.indent > 0 {
                        self.diags.report(next.span, DiagnosticKind::IndentedNodeEnd);
                    } else {
                        proof {
                            lemma_reported_nothing(d3);
                        }
                    }
                    self.pos = self.pos + 1;
                    end_span = Some(next.span);
                },
                LineKind::NodeStart(other) => {
                    let label = Label { span: other.span, message: text::owned("the next node starts here") };
                    let labels = vec![label];
                    proof {
                        reveal_strlit("the next node starts here");
                        assert(label_views(labels@) =~= seq![(other.span, "the next node starts here"@)]);
                    }
                    self.diags.report_labeled(header.span, DiagnosticKind::UnclosedNode(text::owned(name.value)), labels);
                },
                _ => {
                    let labels: Vec<Label> = Vec::new();
                    proof {
                        assert(label_views(labels@) =~= Seq::<(Span, Seq<char>)>::empty());
                    }
                    self.diags.report_labeled(header.span, DiagnosticKind::UnclosedNode(text::owned(name.value)), labels);
                },
            }
        } else {
            let labels: Vec<Label> = Vec::new();
            proof {
                assert(label_views(labels@) =~= Seq::<(Span, Seq<char>)>::empty());
            }
            self.diags.report_labeled(header.span, DiagnosticKind::UnclosedNode(text::owned(name.value)), labels);
        }
        let ghost d4 = self.diags.items();
        let ghost node = p_node(ls, p);
        if body.is_empty() {
            self.diags.report(header.span, DiagnosticKind::EmptyNode);
        } else {
            proof {
                lemma_reported_nothing(d4);
            }
        }
        proof {
            lemma_stmts_len(body@);
            let empty: Seq<Report> = if b.0.len() == 0 {
                seq![plain(header.span, DiagnosticKind::EmptyNode)]
            } else {
                Seq::empty()
            };
            let end: (Option<Span>, int, Seq<Report>) = if 0 <= q < ls.len() && ls[q].kind is NodeEnd {
                (
                    Some(ls[q].span),
                    q + 1,
                    if ls[q].indent > 0 {
                        seq![plain(ls[q].span, DiagnosticKind::IndentedNodeEnd)]
                    } else {
                        Seq::empty()
                    },
                )
            } else if 0 <= q < ls.len() && ls[q].kind is NodeStart {
                (
                    None,
                    q,
                    seq![
                        unclosed_node(
                            header.span,
                            name.value@,
                            seq![(ls[q].kind->NodeStart_0.span, "the next node starts here"@)],
                        ),
                    ],
                )
            } else {
                (None, q, seq![unclosed_node(header.span, name.value@, Seq::empty())])
            };
            assert(node.2 == indented + named + b.2 + end.2 + empty);
            lemma_reported_chain(d0, d1, d2, indented, named);
            lemma_reported_chain(d0, d2, d3, indented + named, b.2);
            lemma_reported_chain(d0, d3, d4, indented + named + b.2, end.2);
            lemma_reported_chain(d0, d4, self.diags.items(), indented + named + b.2 + end.2, empty);
        }
        let full_span = match end_span {
            Some(s) => header.span.join(s),
            None => match body.last() {
                Some(last) => header.span.join(last.span),
                None => header.span,
            },
        };
        NodeDecl { name: Spanned::from_str_spanned(name), body, full_span }
    }

    /// Past the line at hand, and on to the next `:=` or `---`.
    fn skip_to_node_boundary(&mut self)
        requires
            old(self).wf(),
            old(self).pos < old(self).lines@.len(),
        ensures
            final(self).kept(*old(self)),
            final(self).diags == old(self).diags,
            final(self).pos == next_boundary(old(self).ls(), old(self).pos + 1),
    {
        let ghost ls = self.ls();
        let ghost start = *self;
        let n = self.lines.len();
        self.pos = self.pos + 1;
        while self.pos < n && self.not_at_boundary()
            invariant
                self.wf(),
                self.kept(start),
                self.diags == start.diags,
                n == self.lines@.len(),
                ls == self.ls(),
                start.pos < self.pos,
                next_boundary(ls, self.pos as int) == next_boundary(ls, start.pos + 1),
            decreases n - self.pos,
        {
            self.pos = self.pos + 1;
        }
    }

    /// Whether the next line is neither a `:=` nor a `---`.
    fn not_at_boundary(&self) -> (r: bool)
        requires
            self.wf(),
            self.pos < self.lines@.len(),
        ensures
            r == !at_boundary(self.ls(), self.pos as int),
    {
        let line = self.lines[self.pos];
        proof {
            self.lemma_line(self.pos as int);
        }
        match line.kind {
            LineKind::NodeStart(_) | LineKind::NodeEnd => false,
            _ => true,
        }
    }

    /// The nodes of the lines from the next one on, as [`p_file`] reads
    /// them.
    fn parse_file(&mut self) -> (r: Vec<NodeDecl>)
        requires
            old(self).wf(),
        ensures
            final(self).kept(*old(self)),
            nodes_view(r@) == p_file(old(self).ls(), old(self).pos as int).0,
            reported(old(self).diags.items(), final(self).diags.items(), p_file(old(self).ls(), old(self).pos as int).1),
    {
        let ghost ls = self.ls();
        let ghost pos0 = self.pos as int;
        let ghost d0 = self.diags.items();
        let ghost start = *self;
        let n = self.lines.len();
        let mut nodes: Vec<NodeDecl> = Vec::new();
        let ghost mut acc: Seq<Report> = Seq::empty();
        proof {
            lemma_reported_nothing(d0);
            assert(nodes_view(nodes@) + p_file(ls, pos0).0 =~= p_file(ls, pos0).0);
            assert(acc + p_file(ls, pos0).1 =~= p_file(ls, pos0).1);
        }
        while self.pos < n
            invariant
                self.wf(),
                self.kept(start),
                n == self.lines@.len(),
                ls == self.ls(),
                nodes_view(nodes@) + p_file(ls, self.pos as int).0 == p_file(ls, pos0).0,
                acc + p_file(ls, self.pos as int).1 == p_file(ls, pos0).1,
                reported(d0, self.diags.items(), acc),
            decreases n - self.pos,
        {
            let ghost p = self.pos as int;
            let ghost da = self.diags.items();
            let line = self.lines[self.pos];
            proof {
                self.lemma_line(p);
            }
            match line.kind {
                LineKind::NodeStart(_) => {
                    let node = self.parse_node();
                    let ghost before = nodes@;
                    nodes.push(node);
                    proof {
                        let nv = p_node(ls, p);
                        let rest = p_file(ls, self.pos as int);
                        assert(nodes_view(nodes@) =~= nodes_view(before).push(node_view(node)));
                        assert(nodes_view(nodes@) + rest.0 =~= nodes_view(before) + (seq![nv.0] + rest.0));
                        lemma_reported_chain(d0, da, self.diags.items(), acc, nv.2);
                        assert(acc + nv.2 + rest.1 =~= acc + (nv.2 + rest.1));
                        acc = acc + nv.2;
                    }
                },
                LineKind::NodeEnd => {
                    self.diags.report(line.span, DiagnosticKind::StrayNodeEnd);
                    self.pos = self.pos + 1;
                    proof {
                        let here = seq![plain(line.span, DiagnosticKind::StrayNodeEnd)];
                        let rest = p_file(ls, self.pos as int);
                        lemma_reported_chain(d0, da, self.diags.items(), acc, here);
                        assert(acc + here + rest.1 =~= acc + (here + rest.1));
                        acc = acc + here;
                    }
                },
                _ => {
                    self.diags.report(line.span, DiagnosticKind::ContentOutsideNode);
                    self.skip_to_node_boundary();
                    proof {
                        lemma_next_boundary(ls, p + 1);
                        let here = seq![plain(line.span, DiagnosticKind::ContentOutsideNode)];
                        let rest = p_file(ls, self.pos as int);
                        lemma_reported_chain(d0, da, self.diags.items(), acc, here);
                        assert(acc + here + rest.1 =~= acc + (here + rest.1));
                        acc = acc + here;
                    }
                },
            }
        }
        proof {
            assert(nodes_view(nodes@) + p_file(ls, self.pos as int).0 =~= nodes_view(nodes@));
            assert(acc + p_file(ls, self.pos as int).1 =~= acc);
        }
        nodes
    }
}

/// What a node holds.
pub open spec fn node_view(n: NodeDecl) -> NodeView {
    NodeView { name: name_view(n.name), body: stmts_view(n.body@), full_span: n.full_span }
}

/// What the nodes hold.
pub open spec fn nodes_view(v: Seq<NodeDecl>) -> Seq<NodeView> {
    v.map_values(|n: NodeDecl| node_view(n))
}

/// What the body of an `[else]`, when there is one, holds.
pub open spec fn opt_body(o: Option<Vec<Stmt>>) -> Option<Seq<StmtView>> {
    match o {
        Some(b) => Some(stmts_view(b@)),
        None => None,
    }
}

/// Whether one of `nodes` is called `name`.
fn names_contain(nodes: &Vec<NodeDecl>, name: &str) -> (r: bool)
    ensures
        r == node_names(nodes_view(nodes@)).contains(name@),
{
    let ghost names = node_names(nodes_view(nodes@));
    let mut i: usize = 0;
    while i < nodes.len()
        invariant
            i <= nodes@.len(),
            names == node_names(nodes_view(nodes@)),
            names.len() == nodes@.len(),
            forall|j: int| 0 <= j < i ==> names[j] != name@,
        decreases nodes@.len() - i,
    {
        if text::chars_eq(nodes[i].name.value.as_str(), name) {
            proof {
                assert(names[i as int] == name@);
            }
            return true;
        }
        i = i + 1;
    }
    false
}

/// Reports the jumps of `stmts`, and of the options of their choices, to a
/// node that none of `nodes` is.
fn validate_jumps(stmts: &Vec<Stmt>, nodes: &Vec<NodeDecl>, diags: &mut Diagnostics)
    ensures
        reported(old(diags).items(), final(diags).items(), jumps_in(stmts_view(stmts@), node_names(nodes_view(nodes@)))),
        final(diags).index() == old(diags).index(),
        final(diags).path() == old(diags).path(),
    decreases stmts@,
{
    let ghost names = node_names(nodes_view(nodes@));
    let ghost sv = stmts_view(stmts@);
    let ghost d0 = diags.items();
    proof {
        lemma_stmts_len(stmts@);
        lemma_reported_nothing(d0);
        assert(sv.take(0) =~= Seq::<StmtView>::empty());
    }
    let mut i: usize = 0;
    while i < stmts.len()
        invariant
            i <= stmts@.len(),
            sv == stmts_view(stmts@),
            sv.len() == stmts@.len(),
            forall|k: int| 0 <= k < stmts@.len() ==> #[trigger] sv[k] == stmt_view(stmts@[k]),
            names == node_names(nodes_view(nodes@)),
            reported(d0, diags.items(), jumps_in(sv.take(i as int), names)),
            diags.index() == old(diags).index(),
            diags.path() == old(diags).path(),
        decreases stmts@.len() - i,
    {
        let ghost da = diags.items();
        let ghost here = jumps_of(sv[i as int], names);
        proof {
            assert(sv.take(i + 1).subrange(0, i as int) =~= sv.take(i as int));
            assert(jumps_in(sv.take(i + 1), names) == jumps_in(sv.take(i as int), names) + here);
        }
        match &stmts[i].kind {
            StmtKind::Jump(name) => {
                let known = names_contain(nodes, name.value.as_str());
                let end = text::chars_eq(name.value.as_str(), END_NODE_NAME);
                proof {
                    reveal_strlit("END");
                }
                if !known && !end {
                    diags.report(stmts[i].span, DiagnosticKind::JumpToUnknownNode(text::owned(name.value.as_str())));
                } else {
                    proof {
                        lemma_reported_nothing(da);
                    }
                }
            },
            StmtKind::Choice { choices } => {
                let ghost cv = choices_view(choices@);
                proof {
                    lemma_choices_len(choices@);
                    lemma_reported_nothing(da);
                    assert(cv.take(0) =~= Seq::<ChoiceView>::empty());
                }
                let mut j: usize = 0;
                while j < choices.len()
                    invariant
                        i < stmts@.len(),
                        stmts@[i as int].kind == (StmtKind::Choice { choices: *choices }),
                        j <= choices@.len(),
                        cv == choices_view(choices@),
                        cv.len() == choices@.len(),
                        forall|k: int| 0 <= k < choices@.len() ==> #[trigger] cv[k] == (ChoiceView {
                            text: parts_view(choices@[k].text@),
                            body: stmts_view(choices@[k].body@),
                            span: choices@[k].span,
                        }),
                        names == node_names(nodes_view(nodes@)),
                        reported(da, diags.items(), jumps_in_choices(cv.take(j as int), names)),
                        diags.index() == old(diags).index(),
                        diags.path() == old(diags).path(),
                    decreases choices@.len() - j,
                {
                    let ghost db = diags.items();
                    proof {
                        assert(cv.take(j + 1).subrange(0, j as int) =~= cv.take(j as int));
                        let st = stmts@[i as int];
                        let cs = st.kind->choices;
                        assert(cs == *choices);
                        assert(decreases_to!(stmts@ => st));
                        assert(decreases_to!(st => st.kind));
                        assert(decreases_to!(st.kind => cs));
                        assert(decreases_to!(cs => cs@));
                        assert(decreases_to!(cs@ => cs@[j as int]));
                        assert(decreases_to!(cs@[j as int] => cs@[j as int].body));
                        assert(decreases_to!(cs@[j as int].body => cs@[j as int].body@));
                    }
                    validate_jumps(&choices[j].body, nodes, diags);
                    proof {
                        lemma_reported_chain(
                            da,
                            db,
                            diags.items(),
                            jumps_in_choices(cv.take(j as int), names),
                            jumps_in(cv[j as int].body, names),
                        );
                    }
                    j = j + 1;
                }
                proof {
                    assert(cv.take(j as int) =~= cv);
                }
            },
            _ => {
                proof {
                    lemma_reported_nothing(da);
                }
            },
        }
        proof {
            lemma_reported_chain(d0, da, diags.items(), jumps_in(sv.take(i as int), names), here);
        }
        i = i + 1;
    }
    proof {
        assert(sv.take(i as int) =~= sv);
    }
}

/// Reports the nodes that take a name the language keeps, then the nodes
/// that share their name with another, as [`validation`] says after the
/// jumps.
fn validate_names(nodes: &Vec<NodeDecl>, diags: &mut Diagnostics)
    ensures
        reported(
            old(diags).items(),
            final(diags).items(),
            reserved_names(nodes_view(nodes@), nodes@.len() as int) + duplicates(nodes_view(nodes@), nodes@.len() as int),
        ),
        final(diags).index() == old(diags).index(),
        final(diags).path() == old(diags).path(),
{
    let ghost nv = nodes_view(nodes@);
    let ghost d0 = diags.items();
    let n = nodes.len();
    proof {
        lemma_reported_nothing(d0);
    }
    let mut i: usize = 0;
    while i < n
        invariant
            n == nodes@.len(),
            nv == nodes_view(nodes@),
            i <= n,
            reported(d0, diags.items(), reserved_names(nv, i as int)),
            diags.index() == old(diags).index(),
            diags.path() == old(diags).path(),
        decreases n - i,
    {
        let ghost da = diags.items();
        let name = nodes[i].name.value.as_str();
        proof {
            reveal_strlit("END");
            assert(nv[i as int].name.0 == name@);
        }
        if text::chars_eq(name, END_NODE_NAME) {
            diags.report(nodes[i].name.span, DiagnosticKind::ReservedNodeName(text::owned(name)));
        } else {
            proof {
                lemma_reported_nothing(da);
            }
        }
        proof {
            let here: Seq<Report> = if nv[i as int].name.0 == end_node_name() {
                seq![reserved_node_name(nv[i as int].name.1, nv[i as int].name.0)]
            } else {
                Seq::empty()
            };
            lemma_reported_chain(d0, da, diags.items(), reserved_names(nv, i as int), here);
        }
        i = i + 1;
    }
    let ghost d1 = diags.items();
    proof {
        lemma_reported_nothing(d1);
    }
    let mut i: usize = 0;
    while i < n
        invariant
            n == nodes@.len(),
            nv == nodes_view(nodes@),
            i <= n,
            reported(d1, diags.items(), duplicates(nv, i as int)),
            diags.index() == old(diags).index(),
            diags.path() == old(diags).path(),
        decreases n - i,
    {
        let ghost da = diags.items();
        let name = nodes[i].name.value.as_str();
        let first = first_of_name(nodes, i);
        let count = count_of_name(nodes, name);
        proof {
            assert(nv[i as int].name.0 == name@);
        }
        if first && count > 1 {
            report_named(nodes, name, diags);
        } else {
            proof {
                lemma_reported_nothing(da);
            }
        }
        proof {
            let here: Seq<Report> = if first_named(nv, i as int) && count_named(nv, name@, n as int) > 1 {
                named_reports(nv, name@, n as int)
            } else {
                Seq::empty()
            };
            lemma_reported_chain(d1, da, diags.items(), duplicates(nv, i as int), here);
        }
        i = i + 1;
    }
    proof {
        lemma_reported_chain(d0, d1, diags.items(), reserved_names(nv, n as int), duplicates(nv, n as int));
    }
}

/// Whether node `i` is the first of `nodes` to take its name.
fn first_of_name(nodes: &Vec<NodeDecl>, i: usize) -> (r: bool)
    requires
        i < nodes@.len(),
    ensures
        r == first_named(nodes_view(nodes@), i as int),
{
    let ghost nv = nodes_view(nodes@);
    let mut j: usize = 0;
    while j < i
        invariant
            i < nodes@.len(),
            nv == nodes_view(nodes@),
            j <= i,
            forall|k: int| 0 <= k < j ==> nv[k].name.0 != nv[i as int].name.0,
        decreases i - j,
    {
        if text::chars_eq(nodes[j].name.value.as_str(), nodes[i].name.value.as_str()) {
            proof {
                assert(nv[j as int].name.0 == nv[i as int].name.0);
            }
            return false;
        }
        j = j + 1;
    }
    true
}

/// How many of `nodes` are called `name`.
fn count_of_name(nodes: &Vec<NodeDecl>, name: &str) -> (r: usize)
    ensures
        r == count_named(nodes_view(nodes@), name@, nodes@.len() as int),
{
    let ghost nv = nodes_view(nodes@);
    let mut c: usize = 0;
    let mut j: usize = 0;
    while j < nodes.len()
        invariant
            nv == nodes_view(nodes@),
            j <= nodes@.len(),
            c == count_named(nv, name@, j as int),
            c <= j,
        decreases nodes@.len() - j,
    {
        if text::chars_eq(nodes[j].name.value.as_str(), name) {
            c = c + 1;
        }
        j = j + 1;
    }
    c
}

/// Reports each of `nodes` called `name`, in order.
fn report_named(nodes: &Vec<NodeDecl>, name: &str, diags: &mut Diagnostics)
    ensures
        reported(old(diags).items(), final(diags).items(), named_reports(nodes_view(nodes@), name@, nodes@.len() as int)),
        final(diags).index() == old(diags).index(),
        final(diags).path() == old(diags).path(),
{
    let ghost nv = nodes_view(nodes@);
    let ghost d0 = diags.items();
    proof {
        lemma_reported_nothing(d0);
    }
    let mut j: usize = 0;
    while j < nodes.len()
        invariant
            nv == nodes_view(nodes@),
            j <= nodes@.len(),
            reported(d0, diags.items(), named_reports(nv, name@, j as int)),
            diags.index() == old(diags).index(),
            diags.path() == old(diags).path(),
        decreases nodes@.len() - j,
    {
        let ghost da = diags.items();
        if text::chars_eq(nodes[j].name.value.as_str(), name) {
            diags.report(nodes[j].name.span, DiagnosticKind::DuplicateNodeFound(text::owned(name)));
        } else {
            proof {
                lemma_reported_nothing(da);
            }
        }
        proof {
            let here: Seq<Report> = if nv[j as int].name.0 == name@ {
                seq![duplicate_node(nv[j as int].name.1, name@)]
            } else {
                Seq::empty()
            };
            lemma_reported_chain(d0, da, diags.items(), named_reports(nv, name@, j as int), here);
        }
        j = j + 1;
    }
}

/// Reports what checking `nodes` finds, as [`validation`] says: the jumps
/// to a node that does not exist, the names the language keeps, then the
/// names taken twice.
fn validate_nodes(nodes: &Vec<NodeDecl>, diags: &mut Diagnostics)
    ensures
        reported(old(diags).items(), final(diags).items(), validation(nodes_view(nodes@))),
        final(diags).index() == old(diags).index(),
        final(diags).path() == old(diags).path(),
{
    let ghost nv = nodes_view(nodes@);
    let ghost d0 = diags.items();
    proof {
        lemma_reported_nothing(d0);
    }
    let mut i: usize = 0;
    while i < nodes.len()
        invariant
            nv == nodes_view(nodes@),
            i <= nodes@.len(),
            reported(d0, diags.items(), unknown_jumps(nv, i as int)),
            diags.index() == old(diags).index(),
            diags.path() == old(diags).path(),
        decreases nodes@.len() - i,
    {
        let ghost da = diags.items();
        validate_jumps(&nodes[i].body, nodes, diags);
        proof {
            lemma_reported_chain(d0, da, diags.items(), unknown_jumps(nv, i as int), jumps_in(nv[i as int].body, node_names(nv)));
        }
        i = i + 1;
    }
    let ghost d1 = diags.items();
    validate_names(nodes, diags);
    proof {
        lemma_reported_chain(
            d0,
            d1,
            diags.items(),
            unknown_jumps(nv, nv.len() as int),
            reserved_names(nv, nv.len() as int) + duplicates(nv, nv.len() as int),
        );
        assert(unknown_jumps(nv, nv.len() as int) + (reserved_names(nv, nv.len() as int) + duplicates(nv, nv.len() as int))
            =~= validation(nv));
    }
}

/// Outcome of a parse. There is no `Err`: a broken file still yields the
/// nodes it does contain, alongside the diagnostics explaining what is
/// wrong.
pub struct Parsed {
    pub nodes: Vec<NodeDecl>,
    pub diagnostics: Diagnostics,
}

/// The lines of `src`.
pub open spec fn src_lines(src: Seq<char>) -> Lines {
    split_spec(src, nl_starts(src).len() as int)
}

/// What parsing `src` gives: its nodes, and what it reports, in order: the
/// faults of its lines, those of its nodes and statements, then those the
/// checks of the whole file find.
pub open spec fn parse_spec(src: Seq<char>) -> (Seq<NodeView>, Seq<Report>) {
    let f = p_file(src_lines(src), 0);
    (f.0, split_reports(src, nl_starts(src).len() as int) + f.1 + validation(f.0))
}

/// Parses `src` into its nodes. Nothing fails: what is wrong is reported,
/// and the rest of the file is still read.
pub fn parse(src: &str) -> (r: Parsed)
    requires
        text::blen(src@) < usize::MAX,
    ensures
        nodes_view(r.nodes@) == parse_spec(src@).0,
        reported(Seq::empty(), r.diagnostics.items(), parse_spec(src@).1),
        r.diagnostics.index().source() == src@,
        r.diagnostics.path() is None,
{
    let mut diagnostics = Diagnostics::from_src(src);
    let ghost d0 = diagnostics.items();
    let lines = split_lines(src, &mut diagnostics);
    let ghost d1 = diagnostics.items();
    let mut parser = Parser { lines, pos: 0, diags: diagnostics };
    let nodes = parser.parse_file();
    let ghost d2 = parser.diags.items();
    validate_nodes(&nodes, &mut parser.diags);
    proof {
        let f = p_file(src_lines(src@), 0);
        lemma_reported_chain(d0, d1, d2, split_reports(src@, nl_starts(src@).len() as int), f.1);
        lemma_reported_chain(
            d0,
            d2,
            parser.diags.items(),
            split_reports(src@, nl_starts(src@).len() as int) + f.1,
            validation(f.0),
        );
    }
    Parsed { nodes, diagnostics: parser.diags }
}

/// Between a line and the next `:=` or `---`, every line has that same
/// next boundary.
proof fn lemma_boundary_between(ls: Lines, pos: int, j: int)
    requires
        0 <= pos <= j <= next_boundary(ls, pos),
        next_boundary(ls, pos) <= ls.len(),
    ensures
        next_boundary(ls, j) == next_boundary(ls, pos),
    decreases j - pos,
{
    if pos < j {
        lemma_boundary_between(ls, pos + 1, j);
    }
}

/// A block stays between its first line and the next `:=` or `---`.
pub proof fn lemma_block_bounds(ls: Lines, pos: int, min: int, in_loop: bool)
    requires
        0 <= pos <= ls.len(),
    ensures
        pos <= p_block(ls, pos, min, in_loop).1 <= next_boundary(ls, pos),
    decreases ls.len() - pos, 4int,
{
    lemma_next_boundary(ls, pos);
    if !(pos >= ls.len() || (ls[pos].indent as int) < min || at_boundary(ls, pos)) {
        lemma_statement_bounds(ls, pos, in_loop);
        let one = p_statement(ls, pos, in_loop);
        lemma_next_boundary(ls, pos + 1);
        lemma_boundary_between(ls, pos, one.1);
        lemma_block_bounds(ls, one.1, min, in_loop);
    }
}

/// A statement takes its own line, and stays before the next `:=` or `---`.
pub proof fn lemma_statement_bounds(ls: Lines, pos: int, in_loop: bool)
    requires
        0 <= pos < ls.len(),
        !at_boundary(ls, pos),
    ensures
        pos < p_statement(ls, pos, in_loop).1 <= next_boundary(ls, pos),
    decreases ls.len() - pos, 3int,
{
    match ls[pos].kind {
        LineKindView::Choice(_) => lemma_choice_group_bounds(ls, pos, in_loop),
        LineKindView::If(_) => lemma_if_bounds(ls, pos, in_loop),
        LineKindView::While(_) => lemma_while_bounds(ls, pos, in_loop),
        _ => lemma_line_bounds(ls, pos, in_loop),
    }
}

/// A choice group stays before the next `:=` or `---`.
proof fn lemma_choice_group_bounds(ls: Lines, pos: int, in_loop: bool)
    requires
        0 <= pos < ls.len(),
        ls[pos].kind is Choice,
    ensures
        pos < p_choice_group(ls, pos, in_loop).1 <= next_boundary(ls, pos),
    decreases ls.len() - pos, 2int,
{
    lemma_choices_bounds(ls, pos, ls[pos].indent as int, in_loop);
    lemma_choice_bounds(ls, pos, ls[pos].indent as int, in_loop);
}

/// The options of a group stay before the next `:=` or `---`.
proof fn lemma_choices_bounds(ls: Lines, pos: int, base: int, in_loop: bool)
    requires
        0 <= pos <= ls.len(),
    ensures
        pos <= p_choices(ls, pos, base, in_loop).1 <= next_boundary(ls, pos),
        0 <= pos < ls.len() && ls[pos].kind is Choice && ls[pos].indent == base ==> p_choices(ls, pos, base, in_loop).1 > pos,
    decreases ls.len() - pos, 1int,
{
    lemma_next_boundary(ls, pos);
    if !(pos >= ls.len() || !(ls[pos].kind is Choice) || ls[pos].indent != base) {
        lemma_choice_bounds(ls, pos, base, in_loop);
        let c = p_choice(ls, pos, base, in_loop);
        lemma_boundary_between(ls, pos, c.1);
        lemma_choices_bounds(ls, c.1, base, in_loop);
    }
}

/// An option takes its `->` and stays before the next `:=` or `---`.
proof fn lemma_choice_bounds(ls: Lines, pos: int, base: int, in_loop: bool)
    requires
        0 <= pos < ls.len(),
        ls[pos].kind is Choice,
    ensures
        pos < p_choice(ls, pos, base, in_loop).1 <= next_boundary(ls, pos),
    decreases ls.len() - pos, 0int,
{
    lemma_block_bounds(ls, pos + 1, base + 1, in_loop);
}

/// A condition group stays before the next `:=` or `---`.
proof fn lemma_if_bounds(ls: Lines, pos: int, in_loop: bool)
    requires
        0 <= pos < ls.len(),
        ls[pos].kind is If,
    ensures
        pos < p_if(ls, pos, in_loop).1 <= next_boundary(ls, pos),
    decreases ls.len() - pos, 2int,
{
    let first = ls[pos];
    lemma_branches_bounds(ls, pos, first.indent as int, in_loop, false, Seq::empty(), None, first.span);
}

/// The branches of a group stay before the next `:=` or `---`, and take
/// the line at hand when it goes on the group.
proof fn lemma_branches_bounds(
    ls: Lines,
    pos: int,
    base: int,
    in_loop: bool,
    started: bool,
    branches: Seq<BranchView>,
    otherwise: Option<Seq<StmtView>>,
    span: Span,
)
    requires
        0 <= pos <= ls.len(),
    ensures
        pos <= p_branches(ls, pos, base, in_loop, started, branches, otherwise, span).3 <= next_boundary(ls, pos),
        0 <= pos < ls.len() && ls[pos].indent == base && branch_marker(ls[pos].kind, started) is Some
            ==> p_branches(ls, pos, base, in_loop, started, branches, otherwise, span).3 > pos,
    decreases ls.len() - pos, 1int,
{
    lemma_next_boundary(ls, pos);
    if !(pos >= ls.len() || ls[pos].indent != base || branch_marker(ls[pos].kind, started) is None) {
        lemma_branch_bounds(ls, pos, base, in_loop, started, branches, otherwise, span);
        let st = p_branch(ls, pos, base, in_loop, started, branches, otherwise, span);
        lemma_boundary_between(ls, pos, st.3);
        lemma_branches_bounds(ls, st.3, base, in_loop, true, st.0, st.1, st.2);
    }
}

/// A branch takes its marker and stays before the next `:=` or `---`.
proof fn lemma_branch_bounds(
    ls: Lines,
    pos: int,
    base: int,
    in_loop: bool,
    started: bool,
    branches: Seq<BranchView>,
    otherwise: Option<Seq<StmtView>>,
    span: Span,
)
    requires
        0 <= pos < ls.len(),
        branch_marker(ls[pos].kind, started) is Some,
    ensures
        pos < p_branch(ls, pos, base, in_loop, started, branches, otherwise, span).3 <= next_boundary(ls, pos),
    decreases ls.len() - pos, 0int,
{
    lemma_block_bounds(ls, pos + 1, base + 1, in_loop);
}

/// A loop stays before the next `:=` or `---`.
proof fn lemma_while_bounds(ls: Lines, pos: int, in_loop: bool)
    requires
        0 <= pos < ls.len(),
        ls[pos].kind is While,
    ensures
        pos < p_while(ls, pos, in_loop).1 <= next_boundary(ls, pos),
    decreases ls.len() - pos, 2int,
{
    lemma_block_bounds(ls, pos + 1, ls[pos].indent + 1, true);
}

/// A single line, and the block a stray branch drops, stay before the next
/// `:=` or `---`.
proof fn lemma_line_bounds(ls: Lines, pos: int, in_loop: bool)
    requires
        0 <= pos < ls.len(),
        !at_boundary(ls, pos),
    ensures
        pos < p_line(ls, pos, in_loop).1 <= next_boundary(ls, pos),
    decreases ls.len() - pos, 2int,
{
    lemma_next_boundary(ls, pos + 1);
    lemma_block_bounds(ls, pos + 1, ls[pos].indent + 1, in_loop);
}

/// The block of a node, which no indentation ends, runs to the next `:=`
/// or `---`.
pub proof fn lemma_top_block(ls: Lines, pos: int)
    requires
        0 <= pos <= ls.len(),
    ensures
        p_block(ls, pos, 0, false).1 == next_boundary(ls, pos),
    decreases ls.len() - pos,
{
    lemma_next_boundary(ls, pos);
    if !(pos >= ls.len() || at_boundary(ls, pos)) {
        lemma_statement_bounds(ls, pos, false);
        let one = p_statement(ls, pos, false);
        lemma_boundary_between(ls, pos, one.1);
        lemma_top_block(ls, one.1);
    }
}

/// A node runs from its `:=` to the next `:=` or `---`, and takes that
/// `---` when it is one.
pub proof fn lemma_node_end(ls: Lines, pos: int)
    requires
        0 <= pos < ls.len(),
        ls[pos].kind is NodeStart,
    ensures
        ({
            let q = next_boundary(ls, pos + 1);
            p_node(ls, pos).1 == if q < ls.len() && ls[q].kind is NodeEnd {
                q + 1
            } else {
                q
            }
        }),
{
    lemma_top_block(ls, pos + 1);
    lemma_next_boundary(ls, pos + 1);
}

/// Reading the file from any line up to a `:=` that follows a `---` gets
/// to that `:=`, and reads its node.
proof fn lemma_reaches_node(ls: Lines, pos: int, k: int)
    requires
        0 <= pos <= k + 1,
        0 <= k,
        k + 1 < ls.len(),
        ls[k].kind is NodeEnd,
        ls[k + 1].kind is NodeStart,
    ensures
        p_file(ls, pos).0.contains(p_node(ls, k + 1).0),
    decreases k + 1 - pos,
{
    if pos == k + 1 {
        let n = p_node(ls, pos);
        lemma_node_end(ls, pos);
        lemma_next_boundary(ls, pos + 1);
        assert(p_file(ls, pos).0[0] == n.0);
    } else {
        lemma_next_boundary(ls, pos + 1);
        if pos + 1 <= k {
            lemma_nb_at_most(ls, pos + 1, k);
        }
        match ls[pos].kind {
            LineKindView::NodeStart(_) => {
                lemma_node_end(ls, pos);
                let n = p_node(ls, pos);
                lemma_reaches_node(ls, n.1, k);
                let rest = p_file(ls, n.1).0;
                let w = choose|w: int| 0 <= w < rest.len() && rest[w] == p_node(ls, k + 1).0;
                assert((seq![n.0] + rest)[w + 1] == rest[w]);
            },
            LineKindView::NodeEnd => {
                lemma_reaches_node(ls, pos + 1, k);
            },
            _ => {
                lemma_reaches_node(ls, next_boundary(ls, pos + 1), k);
            },
        }
    }
}

/// The next boundary is no further than any boundary after it.
proof fn lemma_nb_at_most(ls: Lines, pos: int, k: int)
    requires
        0 <= pos <= k < ls.len(),
        at_boundary(ls, k),
    ensures
        next_boundary(ls, pos) <= k,
    decreases k - pos,
{
    if pos < k && !at_boundary(ls, pos) {
        lemma_nb_at_most(ls, pos + 1, k);
    }
}

/// What a broken line damages stays in its node: whatever the lines before
/// a `---` hold, the `:=` right after it starts a node of the file, and
/// that node is read from its own lines alone, as if they were the whole
/// file.
pub proof fn lemma_damage_is_bounded(ls: Lines, k: int)
    requires
        0 <= k,
        k + 1 < ls.len(),
        ls[k].kind is NodeEnd,
        ls[k + 1].kind is NodeStart,
    ensures
        p_file(ls, 0).0.contains(p_node(ls.skip(k + 1), 0).0),
{
    lemma_reaches_node(ls, 0, k);
    lemma_node_local(ls, k + 1);
}

/// The next boundary depends on the lines from `pos` on alone.
proof fn lemma_boundary_local(ls: Lines, a: int, pos: int)
    requires
        0 <= a <= pos <= ls.len(),
    ensures
        next_boundary(ls, pos) == next_boundary(ls.skip(a), pos - a) + a,
    decreases ls.len() - pos,
{
    if pos < ls.len() && !at_boundary(ls, pos) {
        lemma_boundary_local(ls, a, pos + 1);
    }
}

/// A block depends on the lines from its first one on alone.
proof fn lemma_block_local(ls: Lines, a: int, pos: int, min: int, in_loop: bool)
    requires
        0 <= a <= pos <= ls.len(),
    ensures
        ({
            let r1 = p_block(ls, pos, min, in_loop);
            let r2 = p_block(ls.skip(a), pos - a, min, in_loop);
            r1.0 == r2.0 && r1.1 == r2.1 + a && r1.2 == r2.2
        }),
    decreases ls.len() - pos, 4int,
{
    if pos < ls.len() {
        assert(ls.skip(a)[pos - a] == ls[pos]);
    }
    lemma_next_boundary(ls, pos);
    if !(pos >= ls.len() || (ls[pos].indent as int) < min || at_boundary(ls, pos)) {
        lemma_statement_local(ls, a, pos, in_loop);
        lemma_statement_bounds(ls, pos, in_loop);
        let one = p_statement(ls, pos, in_loop);
        lemma_block_local(ls, a, one.1, min, in_loop);
    }
}

/// A statement depends on the lines from its own on alone.
proof fn lemma_statement_local(ls: Lines, a: int, pos: int, in_loop: bool)
    requires
        0 <= a <= pos < ls.len(),
    ensures
        ({
            let r1 = p_statement(ls, pos, in_loop);
            let r2 = p_statement(ls.skip(a), pos - a, in_loop);
            r1.0 == r2.0 && r1.1 == r2.1 + a && r1.2 == r2.2
        }),
    decreases ls.len() - pos, 3int,
{
    assert(ls.skip(a)[pos - a] == ls[pos]);
    match ls[pos].kind {
        LineKindView::Choice(_) => lemma_choice_group_local(ls, a, pos, in_loop),
        LineKindView::If(_) => lemma_if_local(ls, a, pos, in_loop),
        LineKindView::While(_) => lemma_while_local(ls, a, pos, in_loop),
        _ => lemma_line_local(ls, a, pos, in_loop),
    }
}

/// A choice group depends on the lines from its first one on alone.
proof fn lemma_choice_group_local(ls: Lines, a: int, pos: int, in_loop: bool)
    requires
        0 <= a <= pos < ls.len(),
    ensures
        ({
            let r1 = p_choice_group(ls, pos, in_loop);
            let r2 = p_choice_group(ls.skip(a), pos - a, in_loop);
            r1.0 == r2.0 && r1.1 == r2.1 + a && r1.2 == r2.2
        }),
    decreases ls.len() - pos, 2int,
{
    assert(ls.skip(a)[pos - a] == ls[pos]);
    lemma_choices_local(ls, a, pos, ls[pos].indent as int, in_loop);
}

/// The options of a group depend on the lines from the first one on alone.
proof fn lemma_choices_local(ls: Lines, a: int, pos: int, base: int, in_loop: bool)
    requires
        0 <= a <= pos <= ls.len(),
    ensures
        ({
            let r1 = p_choices(ls, pos, base, in_loop);
            let r2 = p_choices(ls.skip(a), pos - a, base, in_loop);
            r1.0 == r2.0 && r1.1 == r2.1 + a && r1.2 == r2.2
        }),
    decreases ls.len() - pos, 1int,
{
    if pos < ls.len() {
        assert(ls.skip(a)[pos - a] == ls[pos]);
    }
    lemma_next_boundary(ls, pos);
    if !(pos >= ls.len() || !(ls[pos].kind is Choice) || ls[pos].indent != base) {
        lemma_choice_local(ls, a, pos, base, in_loop);
        lemma_choice_bounds(ls, pos, base, in_loop);
        let c = p_choice(ls, pos, base, in_loop);
        lemma_choices_local(ls, a, c.1, base, in_loop);
    }
}

/// An option depends on the lines from its `->` on alone.
proof fn lemma_choice_local(ls: Lines, a: int, pos: int, base: int, in_loop: bool)
    requires
        0 <= a <= pos < ls.len(),
    ensures
        ({
            let r1 = p_choice(ls, pos, base, in_loop);
            let r2 = p_choice(ls.skip(a), pos - a, base, in_loop);
            r1.0 == r2.0 && r1.1 == r2.1 + a && r1.2 == r2.2
        }),
    decreases ls.len() - pos, 0int,
{
    assert(ls.skip(a)[pos - a] == ls[pos]);
    lemma_block_local(ls, a, pos + 1, base + 1, in_loop);
}

/// A condition group depends on the lines from its `[if]` on alone.
proof fn lemma_if_local(ls: Lines, a: int, pos: int, in_loop: bool)
    requires
        0 <= a <= pos < ls.len(),
    ensures
        ({
            let r1 = p_if(ls, pos, in_loop);
            let r2 = p_if(ls.skip(a), pos - a, in_loop);
            r1.0 == r2.0 && r1.1 == r2.1 + a && r1.2 == r2.2
        }),
    decreases ls.len() - pos, 2int,
{
    assert(ls.skip(a)[pos - a] == ls[pos]);
    let first = ls[pos];
    lemma_branches_local(ls, a, pos, first.indent as int, in_loop, false, Seq::empty(), None, first.span);
}

/// The branches of a group depend on the lines from `pos` on alone.
#[verifier::rlimit(40)]
proof fn lemma_branches_local(
    ls: Lines,
    a: int,
    pos: int,
    base: int,
    in_loop: bool,
    started: bool,
    branches: Seq<BranchView>,
    otherwise: Option<Seq<StmtView>>,
    span: Span,
)
    requires
        0 <= a <= pos <= ls.len(),
    ensures
        ({
            let r1 = p_branches(ls, pos, base, in_loop, started, branches, otherwise, span);
            let r2 = p_branches(ls.skip(a), pos - a, base, in_loop, started, branches, otherwise, span);
            r1.0 == r2.0 && r1.1 == r2.1 && r1.2 == r2.2 && r1.3 == r2.3 + a && r1.4 == r2.4
        }),
    decreases ls.len() - pos, 1int,
{
    if pos < ls.len() {
        assert(ls.skip(a)[pos - a] == ls[pos]);
    }
    lemma_next_boundary(ls, pos);
    if !(pos >= ls.len() || ls[pos].indent != base || branch_marker(ls[pos].kind, started) is None) {
        lemma_branch_local(ls, a, pos, base, in_loop, started, branches, otherwise, span);
        lemma_branch_bounds(ls, pos, base, in_loop, started, branches, otherwise, span);
        let st = p_branch(ls, pos, base, in_loop, started, branches, otherwise, span);
        lemma_branches_local(ls, a, st.3, base, in_loop, true, st.0, st.1, st.2);
    }
}

/// A branch depends on the lines from its marker on alone.
proof fn lemma_branch_local(
    ls: Lines,
    a: int,
    pos: int,
    base: int,
    in_loop: bool,
    started: bool,
    branches: Seq<BranchView>,
    otherwise: Option<Seq<StmtView>>,
    span: Span,
)
    requires
        0 <= a <= pos < ls.len(),
    ensures
        ({
            let r1 = p_branch(ls, pos, base, in_loop, started, branches, otherwise, span);
            let r2 = p_branch(ls.skip(a), pos - a, base, in_loop, started, branches, otherwise, span);
            r1.0 == r2.0 && r1.1 == r2.1 && r1.2 == r2.2 && r1.3 == r2.3 + a && r1.4 == r2.4
        }),
    decreases ls.len() - pos, 0int,
{
    assert(ls.skip(a)[pos - a] == ls[pos]);
    lemma_block_local(ls, a, pos + 1, base + 1, in_loop);
}

/// A loop depends on the lines from its `[while]` on alone.
proof fn lemma_while_local(ls: Lines, a: int, pos: int, in_loop: bool)
    requires
        0 <= a <= pos < ls.len(),
    ensures
        ({
            let r1 = p_while(ls, pos, in_loop);
            let r2 = p_while(ls.skip(a), pos - a, in_loop);
            r1.0 == r2.0 && r1.1 == r2.1 + a && r1.2 == r2.2
        }),
    decreases ls.len() - pos, 2int,
{
    assert(ls.skip(a)[pos - a] == ls[pos]);
    lemma_block_local(ls, a, pos + 1, ls[pos].indent + 1, true);
}

/// A single line depends on the lines from its own on alone.
proof fn lemma_line_local(ls: Lines, a: int, pos: int, in_loop: bool)
    requires
        0 <= a <= pos < ls.len(),
    ensures
        ({
            let r1 = p_line(ls, pos, in_loop);
            let r2 = p_line(ls.skip(a), pos - a, in_loop);
            r1.0 == r2.0 && r1.1 == r2.1 + a && r1.2 == r2.2
        }),
    decreases ls.len() - pos, 2int,
{
    assert(ls.skip(a)[pos - a] == ls[pos]);
    lemma_block_local(ls, a, pos + 1, ls[pos].indent + 1, in_loop);
}

/// A node is read from its own lines alone: from its `:=` on, whatever
/// lines come before it.
pub proof fn lemma_node_local(ls: Lines, pos: int)
    requires
        0 <= pos < ls.len(),
    ensures
        p_node(ls, pos).0 == p_node(ls.skip(pos), 0).0,
        p_node(ls, pos).2 == p_node(ls.skip(pos), 0).2,
{
    lemma_block_local(ls, pos, pos + 1, 0, false);
    lemma_block_bounds(ls, pos + 1, 0, false);
    lemma_next_boundary(ls, pos + 1);
    let sk = ls.skip(pos);
    assert(sk[0] == ls[pos]);
    let p = p_block(ls, pos + 1, 0, false).1;
    if p < ls.len() {
        assert(sk[p - pos] == ls[p]);
    }
}

/// A line that opens no block costs exactly one line, whether it reads or
/// is dropped: only a stray `[elif]` or `[else]` takes the block under it
/// along.
pub proof fn lemma_one_line(ls: Lines, pos: int, in_loop: bool)
    requires
        0 <= pos < ls.len(),
        !(ls[pos].kind is Elif),
        !(ls[pos].kind is Else),
    ensures
        p_line(ls, pos, in_loop).1 == pos + 1,
{
}

} // verus!
