use replique::parser::diagnostic::{Diagnostic, DiagnosticKind, Diagnostics, Label, Severity};
use replique::parser::{LineIndex, Span};

/// ":= start\n   Alice: Hi!\n---"
/// The three spaces indenting `Alice` start at offset 9.
const SRC: &str = ":= start\n   Alice: Hi!\n---";
const INDENT: Span = Span { start: 9, end: 12 };

fn diag(kind: DiagnosticKind, span: Span) -> Diagnostic {
    Diagnostic {
        kind,
        span,
        labels: Vec::new(),
    }
}

fn diags(src: &str, kinds: &[(Span, DiagnosticKind)]) -> Diagnostics {
    let mut diags = Diagnostics::new(LineIndex::new(src));
    for (span, kind) in kinds {
        diags.push(*span, kind.clone());
    }
    diags
}

/// Drop every `ESC [ ... m` sequence.
fn strip_ansi(s: &str) -> String {
    let mut out = String::new();
    let mut chars = s.chars();
    while let Some(c) = chars.next() {
        if c == '\u{1b}' {
            for c in chars.by_ref() {
                if c == 'm' {
                    break;
                }
            }
        } else {
            out.push(c);
        }
    }
    out
}

fn file_path() -> Option<&'static str> {
    Some("file.rep")
}

#[test]
fn severity_orders_warning_before_error() {
    assert!(Severity::Warning < Severity::Error);
    assert_eq!(Severity::Warning.to_string(), "warning");
    assert_eq!(Severity::Error.to_string(), "error");
}

#[test]
fn diagnostic_severity_delegates_to_kind() {
    let diag = diag(DiagnosticKind::TabIndentation, INDENT);
    assert_eq!(diag.severity(), DiagnosticKind::TabIndentation.severity());
}

#[test]
fn render_short_uses_one_based_line_and_col() {
    let line_index = LineIndex::new(SRC);
    let diag = diag(DiagnosticKind::IrregularIndentation, INDENT);

    assert_eq!(
        diag.render_short(SRC, &line_index, file_path(), false),
        "file.rep:2:1: error[irregular-indentation]: indentation is not a multiple of the indentation width\n"
    );
}

#[test]
fn render_short_omits_the_path_when_absent() {
    let line_index = LineIndex::new(SRC);
    let diag = diag(DiagnosticKind::IrregularIndentation, INDENT);

    assert_eq!(
        diag.render_short(SRC, &line_index, None, false),
        "2:1: error[irregular-indentation]: indentation is not a multiple of the indentation width\n"
    );
}

#[test]
fn render_points_at_the_faulty_line() {
    let line_index = LineIndex::new(SRC);
    let diag = diag(DiagnosticKind::IrregularIndentation, INDENT);

    assert_eq!(
        diag.render(SRC, &line_index, file_path(), false),
        "error[irregular-indentation]: indentation is not a multiple of the indentation width\n  --> file.rep:2:1\n  |\n2 |    Alice: Hi!\n  | ^^^\n"
    );
}

#[test]
fn render_handles_a_diagnostic_on_the_last_line() {
    let src = ":= start\n---";
    let line_index = LineIndex::new(src);
    let diag = diag(DiagnosticKind::TabIndentation, Span::new(9, 12));

    assert_eq!(
        diag.render(src, &line_index, None, false),
        "error[tab-indentation]: indentation uses a tab, use spaces instead\n  --> 2:1\n  |\n2 | ---\n  | ^^^\n"
    );
}

/// A zero-width span still gets one marker, otherwise it renders invisibly.
#[test]
fn render_handles_an_empty_source() {
    let line_index = LineIndex::new("");
    let diag = diag(DiagnosticKind::TabIndentation, Span::new(0, 0));

    assert_eq!(
        diag.render("", &line_index, None, false),
        "error[tab-indentation]: indentation uses a tab, use spaces instead\n  --> 1:1\n  |\n1 | \n  | ^\n"
    );
}

#[test]
fn render_widens_the_gutter_for_large_line_numbers() {
    let src = "\n".repeat(9) + "   Alice: Hi!";
    let line_index = LineIndex::new(&src);
    let diag = diag(DiagnosticKind::IrregularIndentation, Span::new(9, 12));

    let rendered = diag.render(&src, &line_index, None, false);
    let lines: Vec<_> = rendered.lines().collect();
    assert_eq!(lines[3], "10 |    Alice: Hi!");
    assert_eq!(lines[4], "   | ^^^");
}

/// Columns and marker widths are counted in characters, not bytes.
#[test]
fn markers_stay_aligned_on_accented_text() {
    let src = "Alice: héhé\n";
    // Span on the second `hé`, which sits after two multi-byte characters.
    let start = src.find("héhé").unwrap() + "hé".len();
    let line_index = LineIndex::new(src);
    let diag = diag(
        DiagnosticKind::EmptyChoiceText,
        Span::from_length(start, "hé".len()),
    );

    let out = diag.render(src, &line_index, file_path(), false);

    // 9 characters before the span, not the 11 bytes.
    assert!(out.contains("--> file.rep:1:10"), "{out}");
    let caret_line = out.lines().find(|line| line.contains('^')).unwrap();
    assert_eq!(caret_line, format!("  | {}^^", " ".repeat(9)), "{out}");
}

/// A span reaching the next lines is drawn on its first line only.
#[test]
fn a_span_crossing_lines_is_cut_at_its_first_line() {
    let line_index = LineIndex::new(SRC);
    let diag = diag(DiagnosticKind::IrregularIndentation, Span::new(9, 25));

    let out = diag.render(SRC, &line_index, None, false);
    let caret_line = out.lines().find(|line| line.contains('^')).unwrap();
    assert_eq!(caret_line, format!("  | {}", "^".repeat(13)), "{out}");
}

#[test]
fn labels_are_rendered_under_their_own_line() {
    let src = ":= start\n---\n:= start\n---\n";
    let line_index = LineIndex::new(src);
    let diag = Diagnostic {
        kind: DiagnosticKind::DuplicateNodeFound("start".into()),
        span: Span::new(13, 21),
        labels: vec![Label {
            span: Span::new(0, 8),
            message: "first definition here".into(),
        }],
    };

    assert_eq!(
        diag.render(src, &line_index, file_path(), false),
        "error[duplicate-node-found]: node `start` is declared more than once\n  --> file.rep:3:1\n  |\n3 | := start\n  | ^^^^^^^^\n  |\n1 | := start\n  | -------- first definition here\n"
    );
}

/// The gutter is as wide as the widest line number of the whole block,
/// labels included.
#[test]
fn gutter_width_accounts_for_label_lines() {
    let src = "a\nb\nc\nd\ne\nf\ng\nh\ni\nj\nk\n";
    let line_index = LineIndex::new(src);
    let diag = Diagnostic {
        kind: DiagnosticKind::StrayNodeEnd,
        span: Span::new(18, 19),
        labels: vec![Label {
            span: Span::new(0, 1),
            message: "opened here".into(),
        }],
    };

    let out = diag.render(src, &line_index, None, false);
    let lines: Vec<_> = out.lines().collect();
    assert_eq!(lines[3], "10 | j", "{out}");
    assert_eq!(lines[4], "   | ^", "{out}");
    assert_eq!(lines[6], " 1 | a", "{out}");
    assert_eq!(lines[7], "   | - opened here", "{out}");
}

#[test]
fn color_is_opt_in() {
    let line_index = LineIndex::new(SRC);
    let diag = diag(DiagnosticKind::IrregularIndentation, INDENT);

    let plain = diag.render(SRC, &line_index, file_path(), false);
    let colored = diag.render(SRC, &line_index, file_path(), true);

    assert!(!plain.contains('\u{1b}'), "{plain}");
    assert!(
        colored.contains("\u{1b}[1;31merror[irregular-indentation]"),
        "{colored}"
    );
    // Same text once the escape codes are stripped out.
    assert_eq!(strip_ansi(&colored), plain);
}

#[test]
fn counts_split_errors_and_warnings() {
    let diags = diags(
        SRC,
        &[
            (INDENT, DiagnosticKind::IrregularIndentation),
            (INDENT, DiagnosticKind::TabIndentation),
        ],
    );

    assert_eq!(diags.iter().count(), 2);
    assert_eq!(diags.errors() + diags.warnings(), diags.iter().count());
    assert_eq!(diags.errors(), 2);
    assert_eq!(diags.warnings(), 0);
}

#[test]
fn empty_diagnostics_render_to_nothing() {
    let diags = diags(SRC, &[]);

    assert_eq!(diags.errors(), 0);
    assert_eq!(diags.warnings(), 0);
    assert_eq!(diags.render_short(SRC, false), "");
    assert_eq!(diags.render(SRC, false), "");
}

#[test]
fn render_short_concatenates_one_line_per_diagnostic() {
    let diags = diags(
        SRC,
        &[
            (INDENT, DiagnosticKind::IrregularIndentation),
            (Span::new(12, 17), DiagnosticKind::TabIndentation),
        ],
    )
    .with_path(file_path().unwrap());

    assert_eq!(
        diags.render_short(SRC, false),
        "file.rep:2:1: error[irregular-indentation]: indentation is not a multiple of the indentation width\nfile.rep:2:4: error[tab-indentation]: indentation uses a tab, use spaces instead\n"
    );
}

#[test]
fn blocks_are_separated_by_a_blank_line() {
    let diags = diags(
        SRC,
        &[
            (INDENT, DiagnosticKind::IrregularIndentation),
            (Span::new(12, 17), DiagnosticKind::TabIndentation),
        ],
    );

    let out = diags.render(SRC, false);
    assert_eq!(out.matches("\n\n").count(), 1, "{out}");
    assert!(out.contains("^^^\n\nerror[tab-indentation]"), "{out}");
}

#[test]
fn with_path_is_reflected_in_both_renderings() {
    let diags = diags(SRC, &[(INDENT, DiagnosticKind::IrregularIndentation)]);
    assert!(diags.render_short(SRC, false).starts_with("2:1:"));
    assert!(diags.render(SRC, false).contains("  --> 2:1\n"));

    let diags = diags.with_path(file_path().unwrap());
    assert!(diags.render_short(SRC, false).starts_with("file.rep:2:1:"));
    assert!(diags.render(SRC, false).contains("  --> file.rep:2:1\n"));
}

#[test]
fn color_applies_to_the_whole_batch() {
    let diags = diags(SRC, &[(INDENT, DiagnosticKind::IrregularIndentation)]);

    assert!(diags.render(SRC, true).contains('\u{1b}'));
    assert!(diags.render_short(SRC, true).contains('\u{1b}'));
}

#[test]
fn colors_only_add_escape_codes_around_labels_too() {
    let line_index = LineIndex::new(SRC);
    let diag = Diagnostic {
        kind: DiagnosticKind::SingleChoice,
        span: INDENT,
        labels: vec![Label {
            span: Span { start: 0, end: 2 },
            message: "opened here".to_string(),
        }],
    };

    let plain = diag.render(SRC, &line_index, file_path(), false);
    let colored = diag.render(SRC, &line_index, file_path(), true);
    assert!(!plain.contains('\u{1b}'), "{plain}");
    assert!(colored.contains('\u{1b}'), "{colored}");
    assert_eq!(strip_ansi(&colored), plain);

    let short_plain = diag.render_short(SRC, &line_index, None, false);
    let short_colored = diag.render_short(SRC, &line_index, None, true);
    assert_eq!(strip_ansi(&short_colored), short_plain);
}

#[test]
fn every_kind_has_a_code_of_its_own() {
    let s = || "x".to_string();
    let kinds = vec![
        DiagnosticKind::TabIndentation,
        DiagnosticKind::IrregularIndentation,
        DiagnosticKind::UnclosedNode(s()),
        DiagnosticKind::StrayNodeEnd,
        DiagnosticKind::ContentOutsideNode,
        DiagnosticKind::EmptyNodeName,
        DiagnosticKind::InvalidNodeName(s()),
        DiagnosticKind::EmptyJump,
        DiagnosticKind::EmptyChoiceText,
        DiagnosticKind::MalformedMarker(s()),
        DiagnosticKind::EmptyNode,
        DiagnosticKind::SingleChoice,
        DiagnosticKind::UnexpectedIndentation,
        DiagnosticKind::IndentedNodeStart,
        DiagnosticKind::IndentedNodeEnd,
        DiagnosticKind::DuplicateNodeFound(s()),
        DiagnosticKind::JumpToUnknownNode(s()),
        DiagnosticKind::ReservedNodeName(s()),
        DiagnosticKind::EmptyCommand,
        DiagnosticKind::ExpectedCommand,
        DiagnosticKind::InvalidCommandName(s()),
        DiagnosticKind::ReservedCommandName(s()),
        DiagnosticKind::UnclosedCall,
        DiagnosticKind::InvalidCommandArgument(s()),
        DiagnosticKind::TrailingAfterCommand,
        DiagnosticKind::UnterminatedString,
        DiagnosticKind::EmptyVariableName,
        DiagnosticKind::InvalidNumber(s()),
        DiagnosticKind::UnknownExpressionCharacter('#'),
        DiagnosticKind::ExpectedExpression,
        DiagnosticKind::UnclosedParenthesis,
        DiagnosticKind::ExpectedSeparator,
        DiagnosticKind::InvalidUnaryOperand {
            op: s(),
            expected: s(),
            received: s(),
        },
        DiagnosticKind::InvalidBinaryOperands {
            op: s(),
            lhs: s(),
            rhs: s(),
        },
        DiagnosticKind::UnclosedBracket(s()),
        DiagnosticKind::ExpectedAssignment,
        DiagnosticKind::UnexpectedTextInBracket,
        DiagnosticKind::ConditionIsNotABool(s()),
        DiagnosticKind::StrayBranch(s()),
        DiagnosticKind::BranchAfterElse(s()),
        DiagnosticKind::AttributeOnNonVariable,
        DiagnosticKind::UnclosedDict,
        DiagnosticKind::ExpectedColon,
        DiagnosticKind::ExpectedKey,
        DiagnosticKind::DuplicateKey(s()),
        DiagnosticKind::StrayLoopControl(s()),
    ];
    for (i, a) in kinds.iter().enumerate() {
        for b in &kinds[i + 1..] {
            assert_ne!(a.code(), b.code(), "{a:?} and {b:?}");
        }
    }
    assert_eq!(
        DiagnosticKind::JumpToUnknownNode("nope".to_string()).code(),
        DiagnosticKind::JumpToUnknownNode("other".to_string()).code()
    );
}

#[test]
fn lines_count_one_more_than_their_breaks_and_give_the_source_back() {
    let src = "a\nbb\n\nc";
    let index = LineIndex::new(src);
    assert_eq!(index.line_count(), 1 + src.matches('\n').count());
    let lines: Vec<&str> = (0..index.line_count()).map(|i| index.line_text(src, i)).collect();
    assert_eq!(lines, ["a\n", "bb\n", "\n", "c"]);
    assert_eq!(lines.concat(), src);

    let empty = LineIndex::new("");
    assert_eq!(empty.line_count(), 1);
    assert_eq!(empty.line_text("", 0), "");
}
