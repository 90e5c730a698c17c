use replique::runtime::{
    Arity, BuiltinError, EvalError, HostError, NoHost, NodeName, ResumeEvent, StepId,
    SuspendedAt, ValueType, VmError,
};

#[test]
fn only_ints_and_floats_are_numbers() {
    assert!(ValueType::Int.is_number());
    assert!(ValueType::Float.is_number());
    assert!(!ValueType::Bool.is_number());
    assert!(!ValueType::String.is_number());
    assert!(!ValueType::Dict.is_number());
    assert_eq!(ValueType::Dict.to_string(), "dict");
}

#[test]
fn an_arity_takes_what_it_says() {
    assert!(Arity::Exact(1).accepts(1));
    assert!(!Arity::Exact(1).accepts(2));
    assert!(Arity::Range(1, 2).accepts(2));
    assert!(!Arity::Range(1, 2).accepts(0));
    assert!(!Arity::Range(1, 2).accepts(3));
    assert!(Arity::AtLeast(2).accepts(7));
    assert!(!Arity::AtLeast(2).accepts(1));
}

#[test]
fn an_arity_reads_in_words() {
    assert_eq!(Arity::Exact(1).to_string(), "1 argument");
    assert_eq!(Arity::Exact(2).to_string(), "2 arguments");
    assert_eq!(Arity::Range(1, 2).to_string(), "1 to 2 arguments");
    assert_eq!(Arity::AtLeast(2).to_string(), "at least 2 arguments");
}

#[test]
fn a_builtin_error_names_what_went_wrong() {
    let e = BuiltinError::Arity { expected: Arity::Exact(1), got: 3 };
    assert_eq!(e.to_string(), "expected 1 argument, got 3");
    let e = BuiltinError::Type { index: 0, expected: "a string", got: ValueType::Int };
    assert_eq!(e.to_string(), "argument 0 expected a string, got int");
    assert_eq!(
        BuiltinError::Mixed { index: 2 }.to_string(),
        "argument 2 and argument 0 are not of the same type"
    );
    assert_eq!(BuiltinError::Overflow.to_string(), "integer overflow");
}

#[test]
fn no_host_knows_no_function() {
    match NoHost.call("double") {
        Err(HostError::UnknownFunction(name)) => assert_eq!(name, "double"),
        _ => panic!("expected an unknown function"),
    }
    assert_eq!(
        HostError::Failed { name: "boom".into(), message: "always".into() }.to_string(),
        "`boom`: `always`"
    );
}

#[test]
fn errors_read_as_their_messages() {
    let e = EvalError::HostError(HostError::UnknownFunction("f".into()));
    assert_eq!(e.to_string(), "Host error: unknown function `f`");
    assert_eq!(
        VmError::DialogueNodeNotFound(NodeName::new("start")).to_string(),
        "DialogueNode not found with name NodeName(\"start\")"
    );
    assert_eq!(
        VmError::ChoiceOutOfRange { index: 3, count: 2 }.to_string(),
        "Choice is out of range: 3 > 2"
    );
    assert_eq!(
        VmError::ExprEvalError(EvalError::DivisionByZero).to_string(),
        "EvalError: Division by zero"
    );
}

#[test]
fn an_answer_leads_where_the_suspension_says() {
    let line = SuspendedAt::Line { next: StepId(4) };
    assert_eq!(line.resolve(&ResumeEvent::Advance).unwrap(), StepId(4));
    assert!(matches!(line.resolve(&ResumeEvent::Select(0)), Err(VmError::WrongResumeEvent)));

    let choice = SuspendedAt::Choice { targets: vec![StepId(1), StepId(7)] };
    assert_eq!(choice.resolve(&ResumeEvent::Select(1)).unwrap(), StepId(7));
    assert!(matches!(
        choice.resolve(&ResumeEvent::Select(2)),
        Err(VmError::ChoiceOutOfRange { index: 2, count: 2 })
    ));
    assert!(matches!(choice.resolve(&ResumeEvent::Advance), Err(VmError::WrongResumeEvent)));
    assert_eq!(StepId(9).id(), 9);
}
