use replique::completion::{context, Completion, Context};
use replique::parser::parse;

const SOURCE: &str = "\
:= start
Alice: Hi!
>> play(\"bell\")
[let $gold = 1]
-> A choice
    Bob: Hidden in a choice
[if $gold > 0]
    >> shake()
[else]
    Caroline: Hidden in an else
=> meeting
---

:= meeting
Alice: Here we are.
---
";

fn completion() -> Completion {
    Completion::new(&parse(SOURCE).nodes)
}

#[test]
fn collects_names_from_nested_blocks() {
    let c = completion();

    let sorted = |set: &Vec<String>| {
        let mut v = set.iter().cloned().collect::<Vec<_>>();
        v.sort();
        v
    };

    assert_eq!(sorted(&c.characters), ["Alice", "Bob", "Caroline"]);
    assert_eq!(sorted(&c.commands), ["play", "shake"]);
    assert_eq!(sorted(&c.vars), ["gold"]);
    assert_eq!(sorted(&c.nodes), ["meeting", "start"]);
}

#[test]
fn variables_win_wherever_the_sigil_is() {
    assert_eq!(context("[if $go"), Some(Context::Variable));
    assert_eq!(context("[let $"), Some(Context::Variable));
    assert_eq!(context(">> play($go"), Some(Context::Variable));
    // The sigil is closed: back to the command.
    assert_eq!(context("[if $gold > "), None);
}

#[test]
fn markers_ask_for_their_own_names() {
    assert_eq!(
        context(">> pl"),
        Some(Context::Command { needs_space: false })
    );
    assert_eq!(
        context("    => "),
        Some(Context::Node { needs_space: false })
    );
    assert_eq!(context(">>"), Some(Context::Command { needs_space: true }));
    assert_eq!(context("=>"), Some(Context::Node { needs_space: true }));
}

#[test]
fn markers_stop_offering_once_they_are_past_their_name() {
    assert_eq!(context(">> play("), None);
    assert_eq!(context("=> meeting "), None);
}

#[test]
fn line_start_is_the_first_word_only() {
    assert_eq!(context(""), Some(Context::LineStart));
    assert_eq!(context("    Ali"), Some(Context::LineStart));
    // A blank, or a `:`, means the speaker is behind us.
    assert_eq!(context("Alice "), None);
    assert_eq!(context("Alice: Hi"), None);
    // Other markers own their line.
    assert_eq!(context("-> a choice"), None);
    assert_eq!(context("--"), None);
    assert_eq!(context("[if"), None);
}

#[test]
fn line_start_offers_speakers_then_commands() {
    let items = completion().items(Context::LineStart, true);

    let shown = items
        .iter()
        .map(|i| (i.label.as_str(), i.insert_text.as_deref().unwrap()))
        .collect::<Vec<_>>();

    assert_eq!(
        shown,
        [
            ("Alice", "Alice: "),
            ("Bob", "Bob: "),
            ("Caroline", "Caroline: "),
            ("play", ">> play($0)"),
            ("shake", ">> shake($0)"),
        ]
    );
}

#[test]
fn a_command_opens_its_parentheses() {
    let c = completion();

    let insert = |snippets| {
        c.items(Context::Command { needs_space: true }, snippets)
            .into_iter()
            .map(|i| i.insert_text.unwrap())
            .collect::<Vec<_>>()
    };

    assert_eq!(insert(true), [" play($0)", " shake($0)"]);
    assert_eq!(insert(false), [" play()", " shake()"]);
}

#[test]
fn a_marker_missing_its_blank_gets_one() {
    let c = completion();

    let insert = |context| {
        c.items(context, true)
            .into_iter()
            .map(|i| i.insert_text.unwrap())
            .collect::<Vec<_>>()
    };

    assert_eq!(
        insert(Context::Node { needs_space: true }),
        [" meeting", " start"]
    );
    assert_eq!(
        insert(Context::Node { needs_space: false }),
        ["meeting", "start"]
    );
}
