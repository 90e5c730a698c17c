use replique::parser::diagnostic::{Diagnostic, DiagnosticKind, Diagnostics};
use replique::parser::lines::{classify, split_lines, LineKind, RawLine};
use replique::parser::{LineIndex, Spanned};

fn split(src: &str) -> (Vec<RawLine<'_>>, Vec<Diagnostic>) {
    let mut diagnostics = Diagnostics::new(LineIndex::new(src));
    let lines = split_lines(src, &mut diagnostics);
    (lines, diagnostics.iter().cloned().collect::<Vec<_>>())
}

fn texts(src: &str) -> Vec<&str> {
    split(src).0.into_iter().map(|l| l.text).collect()
}

#[test]
fn split_lines_keeps_the_content_of_every_line() {
    assert_eq!(
        texts(":= start\nAlice: Salut\n---"),
        [":= start", "Alice: Salut", "---"]
    );
}

#[test]
fn split_lines_skips_blank_lines() {
    assert_eq!(
        texts("\nAlice: Salut\n\n   \n\t\nBob: Salut\n"),
        ["Alice: Salut", "Bob: Salut"]
    );
}

#[test]
fn split_lines_trims_indentation_and_trailing_spaces() {
    assert_eq!(texts("    -> Un choix   "), ["-> Un choix"]);
}

#[test]
fn split_lines_counts_one_indent_level_per_four_spaces() {
    let (lines, diagnostics) = split("Alice: a\n    -> b\n        Bob: c");

    assert_eq!(
        lines.iter().map(|l| l.indent).collect::<Vec<_>>(),
        [0, 1, 2]
    );
    assert!(diagnostics.is_empty());
}

#[test]
fn split_lines_strips_comments() {
    assert_eq!(texts("Alice: Salut // Comments"), ["Alice: Salut"]);
    assert_eq!(texts("Alice: Salut// Comments"), ["Alice: Salut"]);
    assert!(texts("    // Comments").is_empty());
}

#[test]
fn split_lines_spans_point_at_the_trimmed_text() {
    let src = "Alice: a\n    -> b // c\n";
    let (lines, _) = split(src);

    for line in &lines {
        assert_eq!(&src[line.span.start..line.span.end], line.text);
    }
    assert_eq!(lines[1].span.start, 13);
    assert_eq!(lines[1].span.end, 17);
}

#[test]
fn split_lines_handles_crlf_endings() {
    let src = "Alice: Salut\r\nBob: Salut\r\n";
    let (lines, _) = split(src);

    assert_eq!(
        lines.iter().map(|l| l.text).collect::<Vec<_>>(),
        ["Alice: Salut", "Bob: Salut"]
    );
    assert_eq!(&src[lines[0].span.start..lines[0].span.end], "Alice: Salut");
}

#[test]
fn error_on_tab_indentation() {
    let (lines, diagnostics) = split("\t-> Un choix");

    assert_eq!(lines.len(), 1);
    assert_eq!(diagnostics.len(), 1);
    assert!(matches!(
        diagnostics[0].kind,
        DiagnosticKind::TabIndentation
    ));
    assert_eq!(diagnostics[0].span.start, 0);
    assert_eq!(diagnostics[0].span.end, 1);
}

#[test]
fn error_on_irregular_indentation() {
    let (_, diagnostics) = split("  -> Un choix");

    assert_eq!(diagnostics.len(), 1);
    assert!(matches!(
        diagnostics[0].kind,
        DiagnosticKind::IrregularIndentation
    ));
    assert_eq!(diagnostics[0].span.start, 0);
    assert_eq!(diagnostics[0].span.end, 2);
}

#[test]
fn split_lines_does_not_report_indentation_on_blank_lines() {
    let (_, diagnostics) = split("Alice: a\n\n   \nBob: b\n");

    assert!(diagnostics.is_empty());
}

#[test]
fn classify_detects_the_end_marker() {
    assert_eq!(classify("---", 0), LineKind::NodeEnd);
}

#[test]
fn classify_detects_a_node_start() {
    assert_eq!(
        classify(":= start", 0),
        LineKind::NodeStart(Spanned::from_text("start", 3))
    );
    assert_eq!(
        classify(":=", 0),
        LineKind::NodeStart(Spanned::from_text("", 2))
    );
}

#[test]
fn classify_detects_a_jump() {
    assert_eq!(
        classify("=> meeting", 0),
        LineKind::Jump(Spanned::from_text("meeting", 3))
    );
}

#[test]
fn classify_detects_a_choice() {
    assert_eq!(
        classify("-> Un choix", 0),
        LineKind::Choice(Spanned::from_text("Un choix", 3))
    );
}

#[test]
fn classify_detects_a_command() {
    assert_eq!(
        classify(">> command(arg1, arg2)", 0),
        LineKind::Command(Spanned::from_text("command(arg1, arg2)", 3))
    );
}

#[test]
fn classify_detects_a_line_with_a_speaker() {
    assert_eq!(
        classify("Alice: Salut !", 0),
        LineKind::Say {
            speaker: Some(Spanned::from_text("Alice", 0)),
            text: Spanned::from_text("Salut !", 7)
        }
    );
}

#[test]
fn classify_splits_a_line_on_its_first_colon_only() {
    assert_eq!(
        classify("Alice: Il est 12:30", 0),
        LineKind::Say {
            speaker: Some(Spanned::from_text("Alice", 0)),
            text: Spanned::from_text("Il est 12:30", 7)
        }
    );
}

#[test]
fn classify_detects_a_line_without_a_speaker() {
    assert_eq!(
        classify("Salut !", 0),
        LineKind::Say {
            speaker: None,
            text: Spanned::from_text("Salut !", 0)
        }
    );
}

#[test]
fn classify_detects_an_assignment() {
    assert_eq!(
        classify("[let $gold = 10]", 0),
        LineKind::Let(Spanned::from_text(" $gold = 10]", 4))
    );
}

/// The closing `]` belongs to the payload: this pass says what a line is,
/// and `ast` is what reads and checks what it holds.
#[test]
fn classify_keeps_an_assignment_the_line_never_closes() {
    assert_eq!(
        classify("[let $gold = 10", 0),
        LineKind::Let(Spanned::from_text(" $gold = 10", 4))
    );
}

/// `[let` opens an assignment without a blank after it, unlike the other
/// markers, but only when what follows cannot continue a word.
#[test]
fn classify_tells_an_assignment_from_a_word_starting_with_let() {
    assert_eq!(
        classify("[let]", 0),
        LineKind::Let(Spanned::from_text("]", 4))
    );
    assert_eq!(
        classify("[letter", 0),
        LineKind::Say {
            speaker: None,
            text: Spanned::from_text("[letter", 0)
        }
    );
}

#[test]
fn classify_detects_the_branches_of_a_condition() {
    assert_eq!(
        classify("[if $gold > 5]", 0),
        LineKind::If(Spanned::from_text(" $gold > 5]", 3))
    );
    assert_eq!(
        classify("[elif $gold > 1]", 0),
        LineKind::Elif(Spanned::from_text(" $gold > 1]", 5))
    );
    assert_eq!(
        classify("[else]", 0),
        LineKind::Else(Spanned::from_text("]", 5))
    );
}

/// `[elif` and `[else` share their first two letters with nothing else,
/// but `[if` is a prefix of no marker and `[iffy` is a line of text.
#[test]
fn classify_tells_a_branch_from_a_word_starting_with_it() {
    assert_eq!(
        classify("[iffy", 0),
        LineKind::Say {
            speaker: None,
            text: Spanned::from_text("[iffy", 0)
        }
    );
}

#[test]
fn classify_requires_a_blank_after_a_marker() {
    assert_eq!(
        classify(":=start", 0),
        LineKind::Malformed(Spanned::from_text(":=", 0))
    );
    assert_eq!(
        classify("->>a", 0),
        LineKind::Malformed(Spanned::from_text("->>", 0))
    );
}

#[test]
fn classify_detects_malformed_markers() {
    assert_eq!(
        classify("----", 0),
        LineKind::Malformed(Spanned::from_text("----", 0))
    );
    assert_eq!(
        classify("==> start", 0),
        LineKind::Malformed(Spanned::from_text("==>", 0))
    );
    assert_eq!(
        classify(":== start", 0),
        LineKind::Malformed(Spanned::from_text(":==", 0))
    );
}

#[test]
fn classify_moves_every_span_by_the_offset() {
    for line in ["-> go", ":= start", "Alice: Hi!", "[if $x]", "==> nope", ">> fade_in()", "---"] {
        let at_zero = classify(line, 0);
        let further = classify(line, 7);
        let moved = match at_zero {
            LineKind::Say { speaker, text } => LineKind::Say {
                speaker: speaker.map(|s| Spanned::new(s.value, shift(s.span))),
                text: Spanned::new(text.value, shift(text.span)),
            },
            LineKind::Choice(s) => LineKind::Choice(Spanned::new(s.value, shift(s.span))),
            LineKind::NodeStart(s) => LineKind::NodeStart(Spanned::new(s.value, shift(s.span))),
            LineKind::If(s) => LineKind::If(Spanned::new(s.value, shift(s.span))),
            LineKind::Malformed(s) => LineKind::Malformed(Spanned::new(s.value, shift(s.span))),
            LineKind::Command(s) => LineKind::Command(Spanned::new(s.value, shift(s.span))),
            other => other,
        };
        assert_eq!(further, moved, "{line:?}");
    }
}

fn shift(span: replique::parser::Span) -> replique::parser::Span {
    replique::parser::Span {
        start: span.start + 7,
        end: span.end + 7,
    }
}
