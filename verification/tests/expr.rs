use replique::parser::diagnostic::Diagnostics;
use replique::parser::expr::pratt::ExprParser;
use replique::parser::expr::ValueType;
use replique::parser::Spanned;

fn checked(src: &str) -> (Option<ValueType>, Vec<&'static str>) {
    let mut diags = Diagnostics::from_src(src);
    let spanned = Spanned::from_text(src, 0);
    let mut parser = ExprParser::new(&spanned, &mut diags);
    let expr = parser.expr(0, &mut diags);
    assert_eq!(diags.errors(), 0, "{src:?} must parse before it is checked");

    let valid = expr.value.is_type_valid(&mut diags);
    let codes: Vec<_> = diags.iter().map(|d| d.kind.code()).collect();
    assert_eq!(valid, codes.is_empty(), "{src:?}");

    (expr.value.value_type(), codes)
}

fn vtype(src: &str) -> Option<ValueType> {
    checked(src).0
}

fn codes(src: &str) -> Vec<&'static str> {
    checked(src).1
}

#[test]
fn a_literal_has_the_type_it_is_written_with() {
    assert_eq!(vtype("12"), Some(ValueType::Int));
    assert_eq!(vtype("0.5"), Some(ValueType::Float));
    assert_eq!(vtype("true"), Some(ValueType::Bool));
    assert_eq!(vtype(r#""Alice""#), Some(ValueType::String));
}

#[test]
fn arithmetic_keeps_the_int_and_promotes_to_the_float() {
    assert_eq!(vtype("1 + 2"), Some(ValueType::Int));
    assert_eq!(vtype("1 - 2 * 3"), Some(ValueType::Int));
    assert_eq!(vtype("1 + 0.5"), Some(ValueType::Float));
}

#[test]
fn a_division_is_a_float() {
    assert_eq!(vtype("7 / 2"), Some(ValueType::Float));
}

/// Arithmetic is for numbers only, `+` included: a string never takes
/// part in it, and the VM refuses the same thing at run time.
#[test]
fn no_operator_joins_two_strings() {
    assert_eq!(codes(r#""a" + "b""#), ["invalid-binary-operands"]);
    assert_eq!(codes(r#""a" - "b""#), ["invalid-binary-operands"]);
}

#[test]
fn a_comparison_is_a_bool() {
    assert_eq!(vtype("1 < 2"), Some(ValueType::Bool));
    assert_eq!(vtype("1 == 0.5"), Some(ValueType::Bool));
    assert_eq!(vtype("true and false"), Some(ValueType::Bool));
    assert_eq!(vtype("not true"), Some(ValueType::Bool));
}

#[test]
fn a_variable_has_no_type_until_the_dialogue_runs() {
    assert_eq!(vtype("$gold"), Some(ValueType::Unknown));
    assert_eq!(vtype("$gold + 1"), Some(ValueType::Unknown));
    assert_eq!(vtype("-$gold"), Some(ValueType::Unknown));
    assert_eq!(vtype("max(1, 2)"), Some(ValueType::Unknown));
}

#[test]
fn an_operator_that_always_gives_a_bool_stays_known() {
    assert_eq!(vtype("not $flag"), Some(ValueType::Bool));
    assert_eq!(vtype("$gold >= 50"), Some(ValueType::Bool));
    assert_eq!(vtype(r#"$name == "Alice""#), Some(ValueType::Bool));
    assert_eq!(vtype("$a and $b"), Some(ValueType::Bool));
}

#[test]
fn error_on_a_unary_operator_that_does_not_take_its_operand() {
    assert_eq!(codes("not 1"), ["invalid-unary-operand"]);
    assert_eq!(codes(r#"-"a""#), ["invalid-unary-operand"]);
}

#[test]
fn error_on_a_binary_operator_that_does_not_take_its_operands() {
    assert_eq!(codes(r#""a" - 1"#), ["invalid-binary-operands"]);
    assert_eq!(codes("1 and true"), ["invalid-binary-operands"]);
    assert_eq!(codes(r#"true == "a""#), ["invalid-binary-operands"]);
}

#[test]
fn error_on_ordering_two_strings() {
    assert_eq!(codes(r#""a" < "b""#), ["invalid-binary-operands"]);
    assert_eq!(vtype(r#""a" == "b""#), Some(ValueType::Bool));
}

#[test]
fn a_faulty_operand_is_reported_once() {
    assert_eq!(codes(r#"("a" - 1) + 1"#), ["invalid-binary-operands"]);
}

#[test]
fn every_argument_of_a_call_is_checked() {
    assert_eq!(
        codes(r#"max("a" - 1, not 2)"#),
        ["invalid-binary-operands", "invalid-unary-operand"]
    );
}

#[test]
fn the_diagnostic_points_at_the_operands_and_names_their_types() {
    let src = r#"$gold + ("a" - 1)"#;
    let mut diags = Diagnostics::from_src(src);
    let spanned = Spanned::from_text(src, 0);
    let mut parser = ExprParser::new(&spanned, &mut diags);
    let expr = parser.expr(0, &mut diags);

    assert!(!expr.value.is_type_valid(&mut diags));
    let diag = diags.iter().next().expect("one diagnostic");

    assert_eq!(&src[diag.span.start..diag.span.end], r#""a" - 1"#);
    let labels: Vec<_> = diag
        .labels
        .iter()
        .map(|l| (&src[l.span.start..l.span.end], l.message.as_str()))
        .collect();
    assert_eq!(labels, [(r#""a""#, "string"), ("1", "int")]);
}

#[test]
fn a_string_reads_its_escapes() {
    assert_eq!(replique::parser::expr::Value::unescape(r#"a\"b\\c"#), Some("a\"b\\c".to_string()));
    assert_eq!(replique::parser::expr::Value::unescape("plain"), Some("plain".to_string()));
    assert_eq!(replique::parser::expr::Value::unescape(""), Some(String::new()));
}

#[test]
fn a_bare_quote_or_a_trailing_backslash_is_no_string() {
    assert_eq!(replique::parser::expr::Value::unescape("a\"b"), None);
    assert_eq!(replique::parser::expr::Value::unescape("ab\\"), None);
}

#[test]
fn each_faulty_operator_is_reported_once_and_its_users_are_not() {
    assert_eq!(
        codes(r#"("a" - 1) + (not 2) * 3"#),
        ["invalid-binary-operands", "invalid-unary-operand"]
    );
    assert_eq!(codes(r#"-(-("a" * 2))"#), ["invalid-binary-operands"]);
}
