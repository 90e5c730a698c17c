use replique::document::{Document, Position, Range};
use replique::parser::diagnostic::Severity;
use replique::parser::Span;

fn doc(src: &str) -> Document {
    Document::new("file:///intro.rep".to_string(), src.to_string())
}

#[test]
fn a_position_counts_lines_from_zero_and_columns_in_utf16_units() {
    let d = doc(":= start\nAé😀b: hi\n---\n");
    assert_eq!(d.offset_to_position(0), Position { line: 0, character: 0 });
    // `A` takes one byte, `é` two and `😀` four: `b` is at byte 7 of its line.
    assert_eq!(d.offset_to_position(9 + 7), Position { line: 1, character: 4 });
    assert_eq!(d.offset_to_position(9 + 3), Position { line: 1, character: 2 });
}

#[test]
fn a_position_past_the_end_of_its_line_stops_there() {
    let d = doc("ab\ncd");
    assert_eq!(d.offset_to_position(2), Position { line: 0, character: 2 });
    assert_eq!(d.offset_to_position(5), Position { line: 1, character: 2 });
}

#[test]
fn a_span_becomes_a_range() {
    let d = doc("abc\ndef\n");
    let r = d.span_to_range(Span { start: 1, end: 6 });
    assert_eq!(r, Range { start: Position { line: 0, character: 1 }, end: Position { line: 1, character: 2 } });
}

#[test]
fn diagnostics_are_placed_for_an_editor() {
    let d = doc(":= start\n\tAlice: Hi\n---\n");
    assert!(d.can_place());
    let ds = d.diagnostics();
    assert_eq!(ds.len(), d.diagnostics.len());
    let tab = ds.iter().find(|e| e.code == "tab-indentation").expect("a tab is reported");
    assert_eq!(tab.severity, Severity::Error);
    assert_eq!(tab.source, "replique-lsp");
    assert_eq!(tab.range.start.line, 1);
}

#[test]
fn completion_after_a_dollar_offers_the_variables() {
    let d = doc(":= start\n[let $gold = 1]\nAlice: [$\n---\n");
    let items = d.completions(Position { line: 2, character: 9 }, false);
    assert!(items.iter().any(|i| i.label == "gold"));
}

#[test]
fn completion_past_the_last_line_offers_nothing() {
    let d = doc(":= start\nAlice: hi\n---\n");
    assert!(d.completions(Position { line: 40, character: 0 }, false).is_empty());
}

#[test]
fn completion_at_the_start_of_a_line_offers_speakers() {
    let d = doc(":= start\nAlice: hi\n\n---\n");
    let items = d.completions(Position { line: 2, character: 0 }, false);
    assert!(items.iter().any(|i| i.label == "Alice"));
}
