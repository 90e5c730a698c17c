use replique::parser::ast::{StmtKind, Stmt, TextPart};
use replique::parser::diagnostic::DiagnosticKind;
use replique::parser::expr::{BinaryOp, Expr, UnaryOp, Value};
use replique::parser::{parse, Spanned};

/// The single statement of a one-node file.
fn only_stmt(src: &str) -> StmtKind {
    let mut parsed = parse(src);
    assert_eq!(parsed.nodes.len(), 1, "expected a single node");

    let mut node = parsed.nodes.pop().expect("checked above");
    assert_eq!(node.body.len(), 1, "expected a single statement");
    node.body.pop().expect("checked above").kind
}

/// Wraps `line` in a node, so that a statement can be tested on its own.
fn in_node(line: &str) -> String {
    format!(":= start\n{line}\n---\n")
}

/// Same, followed by a valid line: a dropped statement would otherwise
/// leave the node empty and add an `empty-node` warning to the codes.
fn in_filled_node(line: &str) -> String {
    format!(":= start\n{line}\nAlice: ok\n---\n")
}

/// Name and arguments of a command, spans dropped.
fn command(line: &str) -> (String, Vec<Expr>) {
    match only_stmt(&in_node(line)) {
        StmtKind::Command { name, args } => (name.value, args.into_iter().map(|a| a.value).collect()),
        other => panic!("expected a command, got {other:?}"),
    }
}

/// A literal argument, as the expression parser builds it.
fn lit(value: Value) -> Expr {
    Expr::Litteral { value }
}

fn codes(src: &str) -> Vec<&'static str> {
    parse(src).diagnostics.iter().map(|d| d.kind.code()).collect()
}

/// Parts of the only line of `src`, a literal as `"text"` and an inline
/// expression as `[]`.
fn parts(line: &str) -> Vec<String> {
    let StmtKind::Say { text, .. } = only_stmt(&in_node(line)) else {
        panic!("expected a line of dialogue");
    };

    text.into_iter()
        .map(|p| match p.value {
            TextPart::Text(text) => format!("{text:?}"),
            TextPart::Expression(_) => "[]".to_owned(),
        })
        .collect()
}


#[test]
fn a_line_without_a_bracket_is_a_single_part() {
    assert_eq!(parts("Alice: Hello!"), [r#""Hello!""#]);
}

#[test]
fn an_inline_expression_splits_the_line_it_sits_in() {
    assert_eq!(
        parts("Alice: Hello [$name]!"),
        [r#""Hello ""#, "[]", r#""!""#]
    );
    assert_eq!(parts("Alice: [$a] and [$b]"), ["[]", r#"" and ""#, "[]"]);
    assert_eq!(parts("Alice: [$name]"), ["[]"]);
    assert_eq!(parts("Alice: [$a][$b]"), ["[]", "[]"]);
}

#[test]
fn an_inline_expression_reads_a_whole_expression() {
    assert_eq!(
        parts("Alice: I have [$money * 100] cents"),
        [r#""I have ""#, "[]", r#"" cents""#]
    );
    assert!(codes(&in_node("Alice: I have [$money * 100] cents")).is_empty());
}

#[test]
fn error_on_text_left_after_an_inline_expression() {
    assert_eq!(
        codes(&in_node("Alice: Hello [$name oups]!")),
        ["unexpected-text-in-bracket"]
    );
}

#[test]
fn error_on_an_inline_expression_with_nothing_in_it() {
    assert_eq!(codes(&in_node("Alice: Hello []!")), ["expected-expression"]);
}

/// The `[` is kept as text, so the line still says something.
#[test]
fn error_on_an_inline_expression_the_line_never_closes() {
    assert_eq!(codes(&in_node("Alice: Hello [$name")), ["unclosed-bracket"]);
    assert_eq!(parts("Alice: Hello [$name"), [r#""Hello ""#, r#""[$name""#]);
}

#[test]
fn a_choice_reads_its_inline_expressions_too() {
    let StmtKind::Choice { choices } = only_stmt(&in_node("-> Pay [$price] gold")) else {
        panic!("expected a choice group");
    };

    assert_eq!(choices.len(), 1);
    assert_eq!(choices[0].text.len(), 3);
    assert!(matches!(choices[0].text[1].value, TextPart::Expression(_)));
}

#[test]
fn a_broken_node_does_not_contaminate_the_next_one() {
    let parsed = parse(":= a\n---- oups\n---\n:= b\nAlice: ok\n---\n");

    assert_eq!(parsed.nodes.len(), 2);
    assert_eq!(parsed.nodes[1].name.value, "b");
    assert_eq!(parsed.nodes[1].body.len(), 1);
}

#[test]
fn an_unclosed_node_keeps_its_body_and_the_next_node_is_parsed() {
    let src = ":= a\nAlice: un\n:= b\nAlice: deux\n---\n";
    let parsed = parse(src);

    assert_eq!(parsed.nodes.len(), 2);
    assert_eq!(parsed.nodes[0].body.len(), 1);
    assert_eq!(parsed.nodes[1].body.len(), 1);
    assert_eq!(codes(src), ["unclosed-node"]);
}

#[test]
fn a_whole_stray_region_costs_a_single_diagnostic() {
    assert_eq!(
        codes("Alice: a\nBob: b\nCharlie: c\n:= start\nAlice: d\n---\n"),
        ["content-outside-node"]
    );
}

#[test]
fn a_deeper_choice_nests_into_the_body_of_the_previous_one() {
    let parsed = parse(":= start\n-> A\n    -> B\n---\n");
    let [step] = &parsed.nodes[0].body[..] else {
        panic!("expected a single choice group");
    };
    let StmtKind::Choice { choices } = &step.kind else {
        panic!("expected a choice group");
    };

    assert_eq!(choices.len(), 1);
    assert!(matches!(
        &choices[0].text[..],
        [Spanned {
            value: TextPart::Text(text),
            ..
        }] if text == "A"
    ));
    assert!(matches!(
        choices[0].body[..],
        [Stmt {
            kind: StmtKind::Choice { .. },
            ..
        }]
    ));
}

#[test]
fn a_node_is_kept_even_when_its_name_is_invalid() {
    let src = ":= 2fast\nAlice: ok\n---\n";
    let parsed = parse(src);

    assert_eq!(parsed.nodes.len(), 1);
    assert_eq!(parsed.nodes[0].name.value, "2fast");
    assert_eq!(codes(src), ["invalid-node-name"]);
}

/// An empty name is already reported: calling it invalid on top would
/// print an empty name in backticks.
#[test]
fn an_empty_name_is_reported_once() {
    assert_eq!(codes(":= \nAlice: ok\n---\n"), ["empty-node-name"]);
    assert_eq!(codes(&in_filled_node(">> ()")), ["empty-command"]);
}

#[test]
fn an_unusable_line_costs_exactly_one_line() {
    let parsed = parse(":= start\n=>\nAlice: ok\n---\n");

    assert_eq!(parsed.nodes[0].body.len(), 1);
    assert!(matches!(parsed.nodes[0].body[0].kind, StmtKind::Say { .. }));
    assert_eq!(
        parsed.diagnostics.iter().next().unwrap().kind,
        DiagnosticKind::EmptyJump
    );
}

#[test]
fn the_full_span_covers_the_header_and_the_terminator() {
    let src = ":= start\nAlice: ok\n---\n";
    let node = &parse(src).nodes[0];

    assert_eq!(&src[node.name.span.start..node.name.span.end], "start");
    assert_eq!(
        &src[node.full_span.start..node.full_span.end],
        ":= start\nAlice: ok\n---"
    );
}

#[test]
fn a_command_without_argument_keeps_its_parentheses() {
    assert_eq!(command(">> pause()"), ("pause".to_string(), vec![]));
    assert_eq!(codes(&in_filled_node(">> pause")), ["expected-command"]);
}

#[test]
fn a_command_parses_every_kind_of_value() {
    let (name, args) = command(r#">> play("bell", 0.5, 2, true, loop)"#);

    assert_eq!(name, "play");
    assert_eq!(
        args,
        vec![
            lit(Value::String("bell".into())),
            lit(Value::Float("0.5".into())),
            lit(Value::Int(2)),
            lit(Value::Bool(true)),
            lit(Value::String("loop".into())),
        ]
    );
}

/// `-2` is the negation of `2`, not a literal: the lexer never gives a
/// sign to a number.
#[test]
fn a_negative_number_is_a_negation() {
    let (_, args) = command(">> play(-2)");

    assert!(
        matches!(
            args.as_slice(),
            [Expr::Unary { op, rhs }]
                if op.value == UnaryOp::Neg && rhs.value == lit(Value::Int(2))
        ),
        "expected a negation, got {args:?}"
    );
}

#[test]
fn an_argument_can_be_a_whole_expression() {
    let (_, args) = command(">> play($gold + 1)");

    assert!(
        matches!(
            args.as_slice(),
            [Expr::Binary { op, lhs, rhs }]
                if op.value == BinaryOp::Add
                    && lhs.value == (Expr::Var { name: "gold".into() })
                    && rhs.value == lit(Value::Int(1))
        ),
        "expected an addition, got {args:?}"
    );
}

#[test]
fn a_comma_inside_a_string_does_not_split_the_arguments() {
    let (_, args) = command(r#">> say("un, deux")"#);

    assert_eq!(args, vec![lit(Value::String("un, deux".into()))]);
}

#[test]
fn a_string_argument_unescapes_its_quotes_and_backslashes() {
    let (_, args) = command(r#">> say("a \" b \\ c")"#);

    assert_eq!(args, vec![lit(Value::String(r#"a " b \ c"#.into()))]);
}

#[test]
fn spaces_around_the_arguments_are_ignored() {
    assert_eq!(
        command(">> play( 1 , 2 )"),
        (
            "play".to_string(),
            vec![lit(Value::Int(1)), lit(Value::Int(2))]
        )
    );
}

/// `play (1)` reads as the word `play` followed by a parenthesis, not as
/// a call: the `(` belongs to the name.
#[test]
fn a_space_before_the_parenthesis_is_not_a_call() {
    assert_eq!(codes(&in_filled_node(">> play (1)")), ["expected-command"]);
}

#[test]
fn a_word_that_a_float_would_parse_stays_a_string() {
    let (_, args) = command(">> play(inf, NaN)");

    assert_eq!(
        args,
        vec![
            lit(Value::String("inf".into())),
            lit(Value::String("NaN".into()))
        ]
    );
}

#[test]
fn a_command_is_a_statement_of_its_block() {
    let parsed = parse(":= start\nAlice: a\n-> A\n    >> play(1)\n-> B\n    Alice: b\n---\n");
    let StmtKind::Choice { choices } = &parsed.nodes[0].body[1].kind else {
        panic!("expected a choice group");
    };

    assert!(matches!(choices[0].body[0].kind, StmtKind::Command { .. }));
}

#[test]
fn error_on_a_command_without_a_name() {
    assert_eq!(codes(&in_filled_node(">>")), ["empty-command"]);
    assert_eq!(codes(&in_filled_node(">> ()")), ["empty-command"]);
}

#[test]
fn error_on_an_invalid_command_name() {
    assert_eq!(
        codes(&in_filled_node(">> 2fast(1)")),
        ["invalid-command-name"]
    );
}

#[test]
fn error_on_an_unclosed_argument_list() {
    assert_eq!(codes(&in_filled_node(">> play(1")), ["unclosed-call"]);
}

/// Text left after the `)` has its own diagnostic, so that the arguments
/// before it are not blamed.
#[test]
fn error_on_a_trailing_token_after_a_command() {
    assert_eq!(
        codes(&in_filled_node(">> play(1) oups")),
        ["trailing-after-command"]
    );
}

/// A `)` inside an unterminated string is not the closing one.
#[test]
fn error_on_an_unterminated_string_argument() {
    assert_eq!(
        codes(&in_filled_node(r#">> play("oups)"#)),
        ["unterminated-string", "unclosed-call"]
    );
}

#[test]
fn error_on_an_argument_that_does_not_parse() {
    assert_eq!(codes(&in_filled_node(">> play(1..2)")), ["invalid-number"]);
    assert_eq!(
        codes(&in_filled_node(">> play(1,)")),
        ["expected-expression"]
    );
    assert_eq!(
        codes(&in_filled_node(">> play(1 2)")),
        ["expected-arg-separator"]
    );
}

/// The arguments of a command go through the same type check as any other
/// expression, at the place they are written.
#[test]
fn error_on_an_argument_of_the_wrong_type() {
    assert_eq!(
        codes(&in_filled_node(">> play(not 1)")),
        ["invalid-unary-operand"]
    );
    assert_eq!(
        codes(&in_filled_node(r#">> play("a" - 1)"#)),
        ["invalid-binary-operands"]
    );
}

/// Name and value of an assignment, the value as the text it covers.
fn assignment(line: &str) -> (String, Vec<String>, String) {
    let src = in_node(line);
    match only_stmt(&src) {
        StmtKind::Let { name, attrs, value } => {
            let attrs = attrs.into_iter().map(|s| s.value).collect();
            (
                name.value,
                attrs,
                src[value.span.start..value.span.end].to_owned(),
            )
        }
        other => panic!("expected an assignment, got {other:?}"),
    }
}

#[test]
fn an_assignment_takes_a_name_and_an_expression() {
    assert_eq!(
        assignment("[let $gold = 10]"),
        ("gold".to_string(), vec![], "10".to_string())
    );
    assert_eq!(
        assignment("[let $gold = $gold + 10]"),
        ("gold".to_string(), vec![], "$gold + 10".to_string())
    );
}

#[test]
fn an_assignment_takes_a_name_and_attrs() {
    assert_eq!(
        assignment("[let $money.gold = 10]"),
        (
            "money".to_string(),
            vec!["gold".to_string()],
            "10".to_string()
        )
    );
    assert_eq!(
        assignment("[let $boss.hp.remaining = 10]"),
        (
            "boss".to_string(),
            vec!["hp".to_string(), "remaining".to_string()],
            "10".to_string()
        )
    );
}

#[test]
fn spaces_around_an_assignment_are_ignored() {
    assert_eq!(
        assignment("[let   $gold=10  ]"),
        ("gold".to_string(), vec![], "10".to_string())
    );
}

#[test]
fn error_on_an_assignment_that_is_never_closed() {
    assert_eq!(
        codes(&in_filled_node("[let $gold = 10")),
        ["unclosed-bracket"]
    );
}

#[test]
fn error_on_something_that_is_not_an_assignment() {
    for line in [
        "[let $gold + 1]",
        "[let gold = 1]",
        "[let]",
        "[let $gold == 1]",
    ] {
        assert_eq!(
            codes(&in_filled_node(line)),
            ["expected-assignment"],
            "{line}"
        );
    }
}

#[test]
fn error_on_an_assignment_to_a_nameless_variable() {
    assert_eq!(
        codes(&in_filled_node("[let $ = 1]")),
        ["empty-variable-name", "expected-assignment"]
    );
}

#[test]
fn error_on_text_left_after_the_value() {
    assert_eq!(
        codes(&in_filled_node("[let $gold = 10 20]")),
        ["unexpected-text-in-bracket"]
    );
}

#[test]
fn the_value_of_an_assignment_is_checked() {
    assert_eq!(
        codes(&in_filled_node("[let $gold = 1 +]")),
        ["expected-expression"]
    );
    assert_eq!(
        codes(&in_filled_node(r#"[let $gold = "a" - 1]"#)),
        ["invalid-binary-operands"]
    );
}

#[test]
fn a_broken_assignment_costs_exactly_one_line() {
    let parsed = parse(":= start\n[let $gold = 10\nAlice: ok\n---\n");

    assert_eq!(parsed.nodes[0].body.len(), 1);
    assert!(matches!(parsed.nodes[0].body[0].kind, StmtKind::Say { .. }));
}

/// Conditions of an `[if]` group, and whether it has an `[else]`.
fn branches(src: &str) -> (Vec<String>, bool) {
    let full = in_node(src);
    match only_stmt(&full) {
        StmtKind::If {
            branches,
            otherwise,
        } => (
            branches
                .iter()
                .map(|b| full[b.condition.span.start..b.condition.span.end].to_owned())
                .collect(),
            otherwise.is_some(),
        ),
        other => panic!("expected an if, got {other:?}"),
    }
}

#[test]
fn a_condition_owns_the_block_indented_under_it() {
    let stmt = only_stmt(&in_node("[if $gold > 5]\n    Alice: riche"));
    let StmtKind::If { branches, .. } = stmt else {
        panic!("expected an if");
    };

    assert_eq!(branches.len(), 1);
    assert_eq!(branches[0].body.len(), 1);
    assert!(matches!(branches[0].body[0].kind, StmtKind::Say { .. }));
}

#[test]
fn the_branches_of_a_group_are_kept_in_order() {
    assert_eq!(
        branches(
            "[if $gold > 5]\n    Alice: a\n[elif $gold > 1]\n    Alice: b\n[else]\n    Alice: c"
        ),
        (vec!["$gold > 5".to_string(), "$gold > 1".to_string()], true)
    );
}

#[test]
fn a_condition_can_stand_without_an_else() {
    assert_eq!(
        branches("[if true]\n    Alice: a"),
        (vec!["true".to_string()], false)
    );
}

/// A second `[if]` at the same indentation opens its own group instead of
/// joining the one before it.
#[test]
fn two_conditions_in_a_row_are_two_groups() {
    let parsed = parse(":= start\n[if true]\n    Alice: a\n[if false]\n    Alice: b\n---\n");

    assert_eq!(parsed.nodes[0].body.len(), 2);
    assert!(parsed.diagnostics.iter().next().is_none());
}

#[test]
fn a_group_can_hold_another_one() {
    let stmt = only_stmt(&in_node(
        "[if true]\n    [if false]\n        Alice: a\n    [else]\n        Alice: b",
    ));
    let StmtKind::If { branches, .. } = stmt else {
        panic!("expected an if");
    };

    assert!(matches!(branches[0].body[0].kind, StmtKind::If { .. }));
}

#[test]
fn error_on_a_condition_that_is_never_closed() {
    assert_eq!(
        codes(&in_filled_node("[if $gold > 5")),
        ["unclosed-bracket"]
    );
}

/// A condition guards a block, so it has to be a `bool`. A variable or a
/// call has no type yet, and is left to the VM.
#[test]
fn error_on_a_condition_that_is_not_a_bool() {
    assert_eq!(
        codes(&in_filled_node("[if 1 + 1]\n    Alice: a")),
        ["condition-not-a-bool"]
    );
    assert_eq!(
        codes(&in_filled_node("[if \"oui\"]\n    Alice: a")),
        ["condition-not-a-bool"]
    );
    // A variable or a call has no type before the dialogue runs.
    assert!(codes(&in_filled_node("[if $gold + 1 > 2]\n    Alice: a")).is_empty());
    assert!(codes(&in_filled_node("[if $flag]\n    Alice: a")).is_empty());
    assert!(codes(&in_filled_node("[if is_open()]\n    Alice: a")).is_empty());
}

#[test]
fn error_on_text_left_in_a_branch() {
    assert_eq!(
        codes(&in_filled_node("[if true 1]\n    Alice: a")),
        ["unexpected-text-in-bracket"]
    );
    assert_eq!(
        codes(&in_filled_node(
            "[if true]\n    Alice: a\n[else oups]\n    Alice: b"
        )),
        ["unexpected-text-in-bracket"]
    );
}

#[test]
fn error_on_a_branch_with_no_condition_before_it() {
    assert_eq!(
        codes(&in_filled_node("[elif true]\n    Alice: a")),
        ["stray-branch"]
    );
    assert_eq!(
        codes(&in_filled_node("[else]\n    Alice: a")),
        ["stray-branch"]
    );
}

#[test]
fn error_on_a_branch_after_the_else() {
    assert_eq!(
        codes(&in_filled_node(
            "[if true]\n    Alice: a\n[else]\n    Alice: b\n[elif false]\n    Alice: c"
        )),
        ["branch-after-else"]
    );
    assert_eq!(
        codes(&in_filled_node(
            "[if true]\n    Alice: a\n[else]\n    Alice: b\n[else]\n    Alice: c"
        )),
        ["branch-after-else"]
    );
}

#[test]
fn a_broken_command_costs_exactly_one_line() {
    let src = ":= start\n>> play(1 2)\nAlice: ok\n---\n";
    let parsed = parse(src);

    assert_eq!(parsed.nodes[0].body.len(), 1);
    assert!(matches!(parsed.nodes[0].body[0].kind, StmtKind::Say { .. }));
}

#[test]
fn a_command_diagnostic_points_at_the_offending_argument() {
    let src = &in_filled_node(">> play(1, 1..2)");
    let parsed = parse(src);
    let diag = parsed.diagnostics.iter().next().unwrap();

    assert_eq!(&src[diag.span.start..diag.span.end], "1..2");
}

#[test]
fn a_command_is_not_confused_with_a_malformed_marker() {
    assert_eq!(codes(&in_filled_node(">>>play")), ["malformed-marker"]);
}
