use replique::host::{ResumeInput, ValueError};
use replique::runtime::{ResumeEvent, ValueType};

#[test]
fn under_key_names_the_key_before_the_failure() {
    let err = ValueError::Type {
        expected: "int",
        got: ValueType::String,
    };
    assert_eq!(
        err.under_key("hp".to_string()).to_string(),
        "key `hp`: expected int, got string",
    );
}

#[test]
fn nested_keys_name_the_whole_path_outermost_first() {
    let err = ValueError::Missing
        .under_key("hp".to_string())
        .under_key("stats".to_string());
    assert_eq!(err.to_string(), "key `stats`: key `hp`: missing");
    assert_eq!(
        err,
        ValueError::Key {
            key: "stats".to_string(),
            source: Box::new(ValueError::Key {
                key: "hp".to_string(),
                source: Box::new(ValueError::Missing),
            }),
        }
    );
}

#[test]
fn an_unknown_word_is_quoted_with_the_type_it_missed() {
    let err = ValueError::Unknown {
        expected: "direction",
        got: "up".to_string(),
    };
    assert_eq!(err.to_string(), "`up` is not a `direction`");
}

#[test]
fn a_resume_input_becomes_the_matching_event() {
    assert_eq!(ResumeInput::Advance.to_resume_event(), ResumeEvent::Advance);
    assert_eq!(ResumeInput::Select(2).to_resume_event(), ResumeEvent::Select(2));
}
