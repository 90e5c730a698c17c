use replique::parser::command::{split_args, split_command, CommandParts};
use replique::parser::{Span, Spanned};

fn text(text: &str) -> Spanned<&str> {
    Spanned::from_text(text, 0)
}

/// Expected parts of a command whose list is properly closed.
fn closed<'a>(name: Spanned<&'a str>, args: Vec<Spanned<&'a str>>) -> CommandParts<'a> {
    CommandParts {
        name,
        args,
        has_parens: true,
        closed: true,
        trailing: None,
        unterminated_string: None,
    }
}

#[test]
fn a_payload_without_parentheses_is_all_name() {
    assert_eq!(
        split_command(text("fade_in")),
        CommandParts {
            name: Spanned::from_text("fade_in", 0),
            args: vec![],
            has_parens: false,
            closed: true,
            trailing: None,
            unterminated_string: None,
        }
    );
}

/// `f` and `f()` both take no argument, but only one of them was written
/// with a list: the language server needs to tell them apart.
#[test]
fn empty_parentheses_are_kept_apart_from_no_parentheses() {
    let bare = split_command(text("fade_in"));
    let empty = split_command(text("fade_in()"));

    assert_eq!(bare.args, empty.args);
    assert!(!bare.has_parens);
    assert!(empty.has_parens);
    assert!(empty.closed);
}

#[test]
fn a_closed_list_gives_back_what_it_holds() {
    assert_eq!(
        split_command(text("play(1, 2)")),
        closed(
            Spanned::from_text("play", 0),
            vec![Spanned::from_text("1", 5), Spanned::from_text("2", 8)]
        )
    );
    assert_eq!(
        split_command(text("play ( 1 )")),
        closed(
            Spanned::from_text("play", 0),
            vec![Spanned::from_text("1", 7)]
        )
    );
}

#[test]
fn a_nested_call_is_a_single_argument() {
    assert_eq!(
        split_command(text("play(g(1, 2), $x)")),
        closed(
            Spanned::from_text("play", 0),
            vec![
                Spanned::from_text("g(1, 2)", 5),
                Spanned::from_text("$x", 14)
            ]
        )
    );
}

#[test]
fn a_missing_parenthesis_leaves_the_list_unclosed() {
    assert_eq!(
        split_command(text("play(1")),
        CommandParts {
            name: Spanned::from_text("play", 0),
            args: vec![Spanned::from_text("1", 5)],
            has_parens: true,
            closed: false,
            trailing: None,
            unterminated_string: None,
        }
    );
}

/// The arguments stay valid: only what follows the `)` is at fault.
#[test]
fn a_trailing_token_is_reported_apart_from_the_arguments() {
    assert_eq!(
        split_command(text("play(1) toto")),
        CommandParts {
            name: Spanned::from_text("play", 0),
            args: vec![Spanned::from_text("1", 5)],
            has_parens: true,
            closed: false,
            trailing: Some(Spanned::from_text("toto", 8)),
            unterminated_string: None,
        }
    );
    assert_eq!(
        split_command(text("play(1))")),
        CommandParts {
            name: Spanned::from_text("play", 0),
            args: vec![Spanned::from_text("1", 5)],
            has_parens: true,
            closed: false,
            trailing: Some(Spanned::from_text(")", 7)),
            unterminated_string: None,
        }
    );
}

/// A `)` inside a string must not be taken for the closing one.
#[test]
fn an_unterminated_string_does_not_close_the_list() {
    assert_eq!(
        split_command(text(r#"log("oops)"#)),
        CommandParts {
            name: Spanned::from_text("log", 0),
            args: vec![Spanned::from_text(r#""oops)"#, 4)],
            has_parens: true,
            closed: false,
            trailing: None,
            unterminated_string: Some(Span::new(4, 10)),
        }
    );
}

#[test]
fn parentheses_inside_a_string_are_not_counted() {
    assert_eq!(
        split_command(text(r#"say("(hi)")"#)),
        closed(
            Spanned::from_text("say", 0),
            vec![Spanned::from_text(r#""(hi)""#, 4)]
        )
    );
}

#[test]
fn an_escaped_quote_does_not_end_its_string() {
    assert_eq!(
        split_command(text(r#"f("a\",b", 2)"#)),
        closed(
            Spanned::from_text("f", 0),
            vec![
                Spanned::from_text(r#""a\",b""#, 2),
                Spanned::from_text("2", 11)
            ]
        )
    );
}

#[test]
fn an_empty_list_holds_no_argument() {
    assert!(split_args(text("")).is_empty());
    assert!(split_args(text("   ")).is_empty());
}

#[test]
fn a_nested_call_stays_one_argument() {
    assert_eq!(
        split_args(text("g(1, 2), $x")),
        vec![
            Spanned::from_text("g(1, 2)", 0),
            Spanned::from_text("$x", 9)
        ]
    );
    assert_eq!(
        split_args(text("f(g(1, 2)), 3")),
        vec![
            Spanned::from_text("f(g(1, 2))", 0),
            Spanned::from_text("3", 12)
        ]
    );
}

#[test]
fn an_expression_keeps_its_operators() {
    assert_eq!(
        split_args(text(r#"$hp + 1, "a""#)),
        vec![
            Spanned::from_text("$hp + 1", 0),
            Spanned::from_text(r#""a""#, 9)
        ]
    );
}

/// An unbalanced `)` must not make the following commas disappear.
#[test]
fn an_unbalanced_paren_does_not_swallow_the_list() {
    assert_eq!(
        split_args(text("1), 2")),
        vec![Spanned::from_text("1)", 0), Spanned::from_text("2", 4)]
    );
}

#[test]
fn arguments_are_split_on_their_commas_only() {
    assert_eq!(
        split_args(text("1, 2 ,3")),
        vec![
            Spanned::from_text("1", 0),
            Spanned::from_text("2", 3),
            Spanned::from_text("3", 6)
        ]
    );
    assert_eq!(
        split_args(text(r#""un, deux", 3"#)),
        vec![
            Spanned::from_text(r#""un, deux""#, 0),
            Spanned::from_text("3", 12)
        ]
    );
    assert_eq!(
        split_args(text("1,")),
        vec![Spanned::from_text("1", 0), Spanned::from_text("", 2)]
    );
}

/// Every span must slice back to exactly the text it describes.
#[test]
fn spans_slice_back_to_their_text() {
    for payload in [
        "fade_in",
        "play(1, 2)",
        "play ( 1 )",
        "play(1) toto",
        r#"log("oops)"#,
        r#"say("(hi)")"#,
        r#"say("héhé", $x + 1)"#,
        "play(g(1, 2), $x)",
    ] {
        let parts = split_command(Spanned::from_text(payload, 0));
        let slice = |s: Spanned<&str>| &payload[s.span.start..s.span.end];

        assert_eq!(slice(parts.name), parts.name.value, "name of {payload:?}");
        for arg in &parts.args {
            assert_eq!(slice(*arg), arg.value, "argument of {payload:?}");
        }
        if let Some(trailing) = parts.trailing {
            assert_eq!(slice(trailing), trailing.value, "trailing of {payload:?}");
        }
    }
}

#[test]
fn closed_lists_leave_nothing_trailing() {
    for payload in ["fade_in", "fade_in()", "f(1) x", "f(1", "f(\"a)\")", "f((1), 2)  "] {
        let parts = split_command(text(payload));
        if !parts.has_parens {
            assert!(parts.args.is_empty() && parts.closed && parts.trailing.is_none());
            assert_eq!(parts.name, text(payload));
        }
        if parts.closed {
            assert!(parts.trailing.is_none(), "{payload:?}");
        }
    }
    let trailing = split_command(text("f(1) x"));
    assert!(trailing.has_parens && !trailing.closed);
    assert_eq!(trailing.trailing.map(|t| t.value), Some("x"));
    let open = split_command(text("f(1"));
    assert!(open.has_parens && !open.closed && open.trailing.is_none());
}
