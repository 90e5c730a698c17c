use replique::parser::diagnostic::Diagnostics;
use replique::parser::expr::pratt::ExprParser;
use replique::parser::expr::{Expr, Value};
use replique::parser::{Span, Spanned};

fn parsed(src: &str) -> (String, Vec<&'static str>) {
    let mut diags = Diagnostics::from_src(src);
    let spanned = Spanned::from_text(src, 0);
    let mut parser = ExprParser::new(&spanned, &mut diags);
    let expr = parser.expr(0, &mut diags);
    let codes = diags.iter().map(|d| d.kind.code()).collect();
    (render(&expr.value), codes)
}

fn tree(src: &str) -> String {
    parsed(src).0
}

fn codes(src: &str) -> Vec<&'static str> {
    parsed(src).1
}

/// Fully parenthesised prefix form, so that a test reads the shape of the
/// tree instead of its fields.
fn render(expr: &Expr) -> String {
    match expr {
        Expr::Var { name } => format!("${name}"),
        Expr::Attr { base, attrs } => {
            let attrs = attrs
                .iter()
                .map(|s| &*s.value)
                .collect::<Vec<_>>()
                .join(".");
            format!("{}.{attrs}", render(&base.value))
        }
        Expr::Litteral { value } => match value {
            Value::Bool(b) => b.to_string(),
            Value::String(s) => format!("{s:?}"),
            Value::Float(f) => f.clone(),
            Value::Int(i) => i.to_string(),
        },
        Expr::LitteralDict(attrs) => {
            let attrs = attrs
                .iter()
                .map(|(key, attr)| format!("{}: {}", key.value, render(&attr.value)))
                .collect::<Vec<_>>()
                .join(", ");
            format!("{{{attrs}}}")
        }
        Expr::Function { name, args } => {
            let mut out = format!("({}", name.value);
            for arg in args {
                out.push(' ');
                out.push_str(&render(&arg.value));
            }
            out.push(')');
            out
        }
        Expr::Unary { op, rhs } => format!("({} {})", op.value.to_string(), render(&rhs.value)),
        Expr::Binary { op, lhs, rhs } => format!(
            "({} {} {})",
            op.value.to_string(),
            render(&lhs.value),
            render(&rhs.value)
        ),
        Expr::Error => "<error>".to_owned(),
    }
}

#[test]
fn a_value_alone_is_an_expression() {
    assert_eq!(tree("$gold"), "$gold");
    assert_eq!(tree("12"), "12");
    assert_eq!(tree("0.5"), "0.5");
    assert_eq!(tree("true"), "true");
    assert_eq!(tree(r#""Alice""#), r#""Alice""#);
    assert_eq!(tree("gold"), r#""gold""#);
}

#[test]
fn a_product_binds_tighter_than_a_sum() {
    assert_eq!(tree("1 + 2 * 3"), "(+ 1 (* 2 3))");
    assert_eq!(tree("1 * 2 + 3"), "(+ (* 1 2) 3)");
}

#[test]
fn a_comparison_binds_tighter_than_and_which_binds_tighter_than_or() {
    assert_eq!(tree("$a or $b and $c >= 1"), "(or $a (and $b (>= $c 1)))");
}

#[test]
fn operators_of_the_same_priority_group_to_the_left() {
    assert_eq!(tree("1 - 2 - 3"), "(- (- 1 2) 3)");
    assert_eq!(tree("1 / 2 * 3"), "(* (/ 1 2) 3)");
}

#[test]
fn a_unary_operator_binds_tighter_than_every_infix_one() {
    assert_eq!(tree("-2 + 3"), "(+ (- 2) 3)");
    assert_eq!(tree("not $a and $b"), "(and (not $a) $b)");
}

#[test]
fn parentheses_override_the_priorities() {
    assert_eq!(tree("(1 + 2) * 3"), "(* (+ 1 2) 3)");
    assert_eq!(tree("not ($a and $b)"), "(not (and $a $b))");
}

#[test]
fn a_call_holds_its_arguments_in_order() {
    assert_eq!(tree("max(1, $gold)"), "(max 1 $gold)");
    assert_eq!(tree("max(1, min(2, 3))"), "(max 1 (min 2 3))");
}

#[test]
fn a_call_without_argument_is_a_call() {
    assert_eq!(tree("now()"), "(now)");
    assert!(codes("now()").is_empty());
}

#[test]
fn a_call_is_a_value_like_any_other() {
    assert_eq!(tree("max(1, 2) + 3"), "(+ (max 1 2) 3)");
}

#[test]
fn a_call_with_expression_argument() {
    assert_eq!(tree("max(1 + 2, 3)"), "(max (+ 1 2) 3)");
}

#[test]
fn a_var_or_func_with_attr_is_an_attr() {
    assert_eq!(tree("$var.attr"), "$var.attr");
    assert_eq!(tree("$var.attr1.attr2"), "$var.attr1.attr2");
    assert_eq!(tree("$var.attr1.attr2 + 5"), "(+ $var.attr1.attr2 5)");

    assert_eq!(tree("data().attr"), "(data).attr");
    assert_eq!(tree("data().attr1.attr2"), "(data).attr1.attr2");
}

#[test]
fn spans_cover_the_whole_expression() {
    let src = "1 + max(2, 3)";
    let mut diags = Diagnostics::from_src(src);
    let spanned = Spanned::from_text(src, 0);
    let mut parser = ExprParser::new(&spanned, &mut diags);
    let expr = parser.expr(0, &mut diags);

    assert_eq!(expr.span, Span { start: 0, end: 13 });
}

#[test]
fn pratt_spans_are_shifted_by_the_base_offset() {
    let src = "$gold";
    let mut diags = Diagnostics::from_src(src);
    let spanned = Spanned::from_text(src, 12);
    let mut parser = ExprParser::new(&spanned, &mut diags);
    let expr = parser.expr(0, &mut diags);

    assert_eq!(expr.span, Span { start: 12, end: 17 });
}

#[test]
fn error_on_a_missing_operand() {
    assert_eq!(codes("1 +"), ["expected-expression"]);
    assert_eq!(codes(""), ["expected-expression"]);
}

#[test]
fn error_on_an_unclosed_parenthesis() {
    assert_eq!(codes("(1 + 2"), ["unclosed-parenthesis"]);
}

#[test]
fn error_on_a_call_the_line_never_closes() {
    assert_eq!(codes("max(1, 2"), ["unclosed-call"]);
    assert_eq!(codes("max("), ["unclosed-call"]);
}

#[test]
fn error_on_an_argument_that_is_missing() {
    assert_eq!(codes("max(, 1)"), ["expected-expression"]);
    assert_eq!(codes("max(1, )"), ["expected-expression"]);
    assert_eq!(codes("max(1,)"), ["expected-expression"]);
}

#[test]
fn error_on_two_arguments_with_no_separator() {
    assert_eq!(codes("max(1 2)"), ["expected-arg-separator"]);
}

#[test]
fn a_faulty_call_is_reported_once_and_the_rest_of_the_line_is_read() {
    let (tree, codes) = parsed("max(1 2) + 3");

    assert_eq!(codes, ["expected-arg-separator"]);
    assert_eq!(tree, "(+ <error> 3)");
}

#[test]
fn the_closing_parenthesis_skipped_is_the_one_of_the_faulty_call() {
    let (tree, codes) = parsed("max(1 min(2, 3)) + 4");

    assert_eq!(codes, ["expected-arg-separator"]);
    assert_eq!(tree, "(+ <error> 4)");
}

#[test]
fn error_on_attr_on_non_variable() {
    assert_eq!(codes("Alice.attr.attr"), ["attribute-on-non-variable"]);
}

#[test]
fn a_litteral_dict_holds_its_entries_in_order() {
    assert_eq!(tree("{}"), "{}");
    assert_eq!(tree("{hp: 10}"), "{hp: 10}");
    assert_eq!(
        tree(r#"{name: "Leon", age: 1}"#),
        r#"{name: "Leon", age: 1}"#
    );
    assert!(codes("{hp: 10}").is_empty());
}

#[test]
fn a_dict_entry_holds_an_expression() {
    assert_eq!(tree("{hp: $base + 2}"), "{hp: (+ $base 2)}");
    assert_eq!(tree("{hp: max(1, $gold)}"), "{hp: (max 1 $gold)}");
    assert_eq!(tree("{hp: -1}"), "{hp: (- 1)}");
}

#[test]
fn a_dict_nests() {
    assert_eq!(tree("{stats: {hp: 10}}"), "{stats: {hp: 10}}");
    assert_eq!(tree("{a: {b: {c: 1}}, d: 2}"), "{a: {b: {c: 1}}, d: 2}");
}

#[test]
fn a_dict_is_a_value_like_any_other() {
    assert_eq!(tree("{hp: 1} == $data"), "(== {hp: 1} $data)");
    assert_eq!(tree("max({hp: 1}, $data)"), "(max {hp: 1} $data)");
}

#[test]
fn error_on_an_attr_read_on_a_litteral_dict() {
    assert_eq!(codes("{hp: 1}.hp"), ["attribute-on-non-variable"]);
}

#[test]
fn error_on_a_dict_the_line_never_closes() {
    assert_eq!(codes("{hp: 1"), ["unclosed-dict"]);
    assert_eq!(codes("{hp:"), ["unclosed-dict"]);
    assert_eq!(codes("{hp"), ["unclosed-dict"]);
    assert_eq!(codes("{"), ["unclosed-dict"]);
}

#[test]
fn error_on_a_key_that_is_not_a_name() {
    assert_eq!(codes("{1: 2}"), ["expected-key"]);
    assert_eq!(codes("{$hp: 2}"), ["expected-key"]);
}

#[test]
fn error_on_a_missing_colon() {
    assert_eq!(codes("{hp 1}"), ["expected-colon"]);
}

#[test]
fn error_on_a_value_that_is_missing() {
    assert_eq!(codes("{hp: }"), ["expected-expression"]);
    assert_eq!(codes("{hp: , age: 1}"), ["expected-expression"]);
}

#[test]
fn warning_on_a_key_given_twice() {
    let (tree, codes) = parsed("{hp: 1, hp: 2}");

    assert_eq!(codes, ["duplicate-key"]);
    // Both entries are kept by the parser; the map keeps the last one.
    assert_eq!(tree, "{hp: 1, hp: 2}");
}

#[test]
fn a_key_given_twice_is_only_a_warning() {
    let src = "{hp: 1, hp: 2}";
    let mut diags = Diagnostics::from_src(src);
    let spanned = Spanned::from_text(src, 0);
    let mut parser = ExprParser::new(&spanned, &mut diags);
    parser.expr(0, &mut diags);

    assert_eq!(diags.errors(), 0);
    assert_eq!(diags.warnings(), 1);
}

#[test]
fn the_span_of_a_dict_covers_its_braces() {
    let src = "{}";
    let mut diags = Diagnostics::from_src(src);
    let spanned = Spanned::from_text(src, 0);
    let mut parser = ExprParser::new(&spanned, &mut diags);
    let expr = parser.expr(0, &mut diags);

    assert_eq!(expr.span, Span { start: 0, end: 2 });
}

#[test]
fn error_on_two_entries_with_no_separator() {
    assert_eq!(codes("{hp: 1 age: 2}"), ["expected-arg-separator"]);
}

#[test]
fn a_faulty_dict_is_reported_once_and_the_rest_of_the_line_is_read() {
    let (tree, codes) = parsed("{hp: 1 age: 2} + 3");

    assert_eq!(codes, ["expected-arg-separator"]);
    assert_eq!(tree, "(+ <error> 3)");
}

#[test]
fn the_closing_brace_skipped_is_the_one_of_the_faulty_dict() {
    let (tree, codes) = parsed("{hp: 1 stats: {a: 1}} + 4");

    assert_eq!(codes, ["expected-arg-separator"]);
    assert_eq!(tree, "(+ <error> 4)");
}
