use replique::dialogue::{
    compile, ChoiceDef, Command, Dialogue, DialogueNodeBuilder, Expr, StepKind, TextLine, TextPart,
};
use replique::parser::expr::Value as Literal;
use replique::parser::parse;
use replique::runtime::{EvalError, NodeName, ResumeEvent, StepId, ValueType, VmError};
use replique::vm::{Condition, DialogueVm, Halt, MAX_STEPS};

fn dialogue(src: &str) -> Dialogue {
    compile(parse(src)).dialogue.expect("the source compiles")
}

/// The speaker and plain text of the line the VM stopped on.
fn line(vm: &DialogueVm) -> (Option<String>, String) {
    let StepKind::Say { line, .. } = vm.pending() else {
        panic!("expected a line");
    };
    let mut text = String::new();
    for part in &line.text {
        if let TextPart::Text(t) = part {
            text.push_str(t);
        }
    }
    (line.speaker.clone(), text)
}

fn say(text: &str, next: StepId) -> StepKind {
    StepKind::Say {
        line: TextLine {
            speaker: None,
            text: vec![TextPart::Text(text.to_string())],
        },
        next,
    }
}

#[test]
fn lines_are_handed_out_one_at_a_time() {
    let mut vm = DialogueVm::default();
    let d = dialogue(":= start\nAlice: first\nsecond\n---\n");
    assert_eq!(vm.start(d, "start").unwrap(), Halt::Pending);
    assert_eq!(line(&vm), (Some("Alice".to_string()), "first".to_string()));
    vm.suspend();
    assert_eq!(vm.resume(&ResumeEvent::Advance).unwrap(), Halt::Pending);
    assert_eq!(line(&vm), (None, "second".to_string()));
    vm.suspend();
    assert_eq!(vm.resume(&ResumeEvent::Advance).unwrap(), Halt::Finished);
}

#[test]
fn resuming_before_starting_fails() {
    let mut vm = DialogueVm::new();
    assert!(matches!(vm.resume(&ResumeEvent::Advance), Err(VmError::DialogueNotStarted)));
}

#[test]
fn resuming_a_finished_dialogue_fails_and_starting_again_is_fine() {
    let mut vm = DialogueVm::new();
    assert_eq!(vm.start(dialogue(":= start\n=> END\n---\n"), "start").unwrap(), Halt::Finished);
    assert!(matches!(vm.resume(&ResumeEvent::Advance), Err(VmError::DialogueAlreadyFinished)));
    assert_eq!(vm.start(dialogue(":= start\nAlice: again\n---\n"), "start").unwrap(), Halt::Pending);
}

#[test]
fn starting_while_waiting_fails_and_changes_nothing() {
    let mut vm = DialogueVm::new();
    vm.start(dialogue(":= start\nAlice: one\nAlice: two\n---\n"), "start").unwrap();
    vm.suspend();
    assert!(matches!(
        vm.start(dialogue(":= other\nBob: hi\n---\n"), "other"),
        Err(VmError::DialogueNotFinished)
    ));
    assert_eq!(vm.resume(&ResumeEvent::Advance).unwrap(), Halt::Pending);
    assert_eq!(line(&vm).1, "two");
}

#[test]
fn starting_at_a_node_the_dialogue_lacks_fails() {
    let mut vm = DialogueVm::new();
    let Err(VmError::DialogueNodeNotFound(name)) = vm.start(dialogue(":= start\nAlice: hi\n---\n"), "nope")
    else {
        panic!("expected an unknown node");
    };
    assert_eq!(name, NodeName::new("nope"));
    assert!(matches!(vm.resume(&ResumeEvent::Advance), Err(VmError::DialogueNotStarted)));
}

#[test]
fn a_wrong_answer_changes_nothing() {
    let mut vm = DialogueVm::new();
    vm.start(dialogue(":= start\nAlice: hi\nAlice: bye\n---\n"), "start").unwrap();
    vm.suspend();
    assert!(matches!(vm.resume(&ResumeEvent::Select(0)), Err(VmError::WrongResumeEvent)));
    assert_eq!(vm.resume(&ResumeEvent::Advance).unwrap(), Halt::Pending);
    assert_eq!(line(&vm).1, "bye");
}

#[test]
fn a_choice_waits_for_one_of_its_entries() {
    let mut vm = DialogueVm::new();
    vm.start(dialogue(":= start\n-> Left\n    Alice: left\n-> Right\n    Alice: right\n---\n"), "start").unwrap();
    let StepKind::Choice { choices } = vm.pending() else {
        panic!("expected a choice");
    };
    assert_eq!(choices.len(), 2);
    vm.suspend();
    assert!(matches!(vm.resume(&ResumeEvent::Advance), Err(VmError::WrongResumeEvent)));
    let Err(VmError::ChoiceOutOfRange { index, count }) = vm.resume(&ResumeEvent::Select(5)) else {
        panic!("expected an out of range choice");
    };
    assert_eq!((index, count), (5, 2));
    assert_eq!(vm.resume(&ResumeEvent::Select(1)).unwrap(), Halt::Pending);
    assert_eq!(line(&vm).1, "right");
}

#[test]
fn a_jump_is_followed_without_stopping() {
    let mut vm = DialogueVm::new();
    vm.start(dialogue(":= start\n=> other\n---\n:= other\nBob: here\n---\n"), "start").unwrap();
    assert_eq!(line(&vm), (Some("Bob".to_string()), "here".to_string()));
}

#[test]
fn nodes_jumping_to_each_other_run_out_of_steps() {
    let mut vm = DialogueVm::new();
    let d = dialogue(":= a\n=> b\n---\n:= b\n=> a\n---\n");
    assert!(matches!(vm.start(d, "a"), Err(VmError::StepLimitExceeded)));
    assert!(matches!(vm.resume(&ResumeEvent::Advance), Err(VmError::DialogueNotStarted)));
    assert_eq!(MAX_STEPS, 200);
}

#[test]
fn a_jump_to_a_node_the_dialogue_lacks_fails() {
    let mut b = DialogueNodeBuilder::default();
    let j = b.push(StepKind::Jump(NodeName::new("ghost")));
    let node = b.build(NodeName::new("start"), j).unwrap();
    let mut vm = DialogueVm::new();
    let Err(VmError::DialogueNodeNotFound(name)) = vm.start(Dialogue::new(vec![node]), "start") else {
        panic!("expected an unknown node");
    };
    assert_eq!(name, NodeName::new("ghost"));
}

#[test]
fn a_let_is_left_to_the_caller_then_the_walk_goes_on() {
    let mut vm = DialogueVm::new();
    vm.start(dialogue(":= start\n[let $gold = 3]\nAlice: hi\n---\n"), "start").unwrap();
    let StepKind::Let { name, .. } = vm.pending() else {
        panic!("expected a let");
    };
    assert_eq!(name, "gold");
    assert_eq!(vm.assigned().unwrap(), Halt::Pending);
    assert_eq!(line(&vm).1, "hi");
}

#[test]
fn a_test_leads_where_its_outcome_says() {
    let src = ":= start\n[if $a]\n    Alice: yes\n[else]\n    Alice: no\n---\n";
    let mut vm = DialogueVm::new();
    vm.start(dialogue(src), "start").unwrap();
    assert!(matches!(vm.pending(), StepKind::Branch { .. }));
    vm.tested(true).unwrap();
    assert_eq!(line(&vm).1, "yes");

    let mut vm = DialogueVm::new();
    vm.start(dialogue(src), "start").unwrap();
    vm.tested(false).unwrap();
    assert_eq!(line(&vm).1, "no");
}

#[test]
fn a_loop_comes_back_to_its_test() {
    let mut vm = DialogueVm::new();
    vm.start(dialogue(":= start\n[while $n > 0]\n    Alice: again\nAlice: done\n---\n"), "start").unwrap();
    vm.tested(true).unwrap();
    assert_eq!(line(&vm).1, "again");
    vm.suspend();
    vm.resume(&ResumeEvent::Advance).unwrap();
    assert!(matches!(vm.pending(), StepKind::Branch { .. }));
    vm.tested(false).unwrap();
    assert_eq!(line(&vm).1, "done");
}

#[test]
fn a_command_waits_to_be_advanced_past() {
    let mut vm = DialogueVm::new();
    vm.start(dialogue(":= start\n>> ring()\n---\n"), "start").unwrap();
    let StepKind::Command { command, .. } = vm.pending() else {
        panic!("expected a command");
    };
    assert_eq!(command.name, "ring");
    vm.suspend();
    assert_eq!(vm.resume(&ResumeEvent::Advance).unwrap(), Halt::Finished);
}

#[test]
fn a_walk_that_fails_midway_leaves_the_vm_where_it_was() {
    let mut b = DialogueNodeBuilder::default();
    let j = b.push(StepKind::Jump(NodeName::new("ghost")));
    let l0 = b.push(say("first", j));
    let node = b.build(NodeName::new("start"), l0).unwrap();
    let mut vm = DialogueVm::new();
    vm.start(Dialogue::new(vec![node]), "start").unwrap();
    vm.suspend();
    assert!(matches!(vm.resume(&ResumeEvent::Advance), Err(VmError::DialogueNodeNotFound(_))));
    // Still waiting on the first line.
    assert!(matches!(vm.resume(&ResumeEvent::Advance), Err(VmError::DialogueNodeNotFound(_))));
}

#[test]
fn choice_entries_lead_to_their_targets() {
    let mut b = DialogueNodeBuilder::default();
    let end = b.push(StepKind::End);
    let l = b.push(say("picked", end));
    let c = b.push(StepKind::Choice {
        choices: vec![
            ChoiceDef { text: vec![TextPart::Text("a".to_string())], target: end },
            ChoiceDef { text: vec![TextPart::Text("b".to_string())], target: l },
        ],
    });
    let node = b.build(NodeName::new("start"), c).unwrap();
    let mut vm = DialogueVm::new();
    vm.start(Dialogue::new(vec![node]), "start").unwrap();
    vm.suspend();
    assert_eq!(vm.resume(&ResumeEvent::Select(1)).unwrap(), Halt::Pending);
    assert_eq!(line(&vm).1, "picked");
    vm.suspend();
    assert_eq!(vm.resume(&ResumeEvent::Advance).unwrap(), Halt::Finished);
}

/// What the caller shows for a step a walk stopped on.
#[derive(Debug, PartialEq)]
enum Event {
    Say(Option<String>, String),
    Command(String),
    Choices(Vec<String>),
    Finished,
}

/// The text of parts that hold no expression.
fn plain(parts: &[TextPart]) -> String {
    let mut out = String::new();
    for part in parts {
        match part {
            TextPart::Text(t) => out.push_str(t),
            TextPart::Expression(_) => panic!("these dialogues hold no expression"),
        }
    }
    out
}

/// Show what the walk stopped on, and wait for its answer.
fn shown(vm: &mut DialogueVm, halt: Result<Halt, VmError>) -> Result<Event, VmError> {
    match halt? {
        Halt::Finished => Ok(Event::Finished),
        Halt::Pending => {
            let event = match vm.pending() {
                StepKind::Say { line, .. } => Event::Say(line.speaker.clone(), plain(&line.text)),
                StepKind::Command { command, .. } => Event::Command(command.name.clone()),
                StepKind::Choice { choices } => Event::Choices(choices.iter().map(|c| plain(&c.text)).collect()),
                _ => panic!("these dialogues hold no assignment and no test"),
            };
            vm.suspend();
            Ok(event)
        }
    }
}

fn start(vm: &mut DialogueVm, d: Dialogue, name: &str) -> Result<Event, VmError> {
    let halt = vm.start(d, name);
    shown(vm, halt)
}

fn resume(vm: &mut DialogueVm, answer: ResumeEvent) -> Result<Event, VmError> {
    let halt = vm.resume(&answer);
    shown(vm, halt)
}

fn speaking(speaker: Option<&str>, text: &str, next: StepId) -> StepKind {
    StepKind::Say {
        line: TextLine {
            speaker: speaker.map(String::from),
            text: vec![TextPart::Text(text.into())],
        },
        next,
    }
}

fn linear_dialogue() -> Dialogue {
    let mut b = DialogueNodeBuilder::default();
    let end = b.push(StepKind::End);
    let l1 = b.push(speaking(None, "second", end));
    let l0 = b.push(speaking(Some("Alice"), "first", l1));
    Dialogue::new(vec![b.build(NodeName::new("start"), l0).unwrap()])
}

fn command_dialogue() -> Dialogue {
    let mut b = DialogueNodeBuilder::default();
    let end = b.push(StepKind::End);
    let l1 = b.push(speaking(None, "after", end));
    let cmd = b.push(StepKind::Command {
        command: Command {
            name: "play".into(),
            args: vec![
                Expr::Litteral(Literal::String("bell".into())),
                Expr::Litteral(Literal::Float("0.5".into())),
            ],
        },
        next: l1,
    });
    let l0 = b.push(speaking(None, "before", cmd));
    Dialogue::new(vec![b.build(NodeName::new("start"), l0).unwrap()])
}

fn choice_dialogue() -> Dialogue {
    let mut b = DialogueNodeBuilder::default();
    let end = b.push(StepKind::End);
    let left = b.push(speaking(None, "left", end));
    let right = b.push(speaking(None, "right", end));
    let c = b.push(StepKind::Choice {
        choices: vec![
            ChoiceDef { text: vec![TextPart::Text("go left".into())], target: left },
            ChoiceDef { text: vec![TextPart::Text("go right".into())], target: right },
        ],
    });
    Dialogue::new(vec![b.build(NodeName::new("start"), c).unwrap()])
}

fn jump_dialogue(target: &str) -> Dialogue {
    let mut b = DialogueNodeBuilder::default();
    let jump = b.push(StepKind::Jump(NodeName::new(target)));
    let l0 = b.push(speaking(None, "before jump", jump));
    let start = b.build(NodeName::new("start"), l0).unwrap();

    let mut b = DialogueNodeBuilder::default();
    let end = b.push(StepKind::End);
    let l0 = b.push(speaking(None, "after jump", end));
    let second = b.build(NodeName::new("second"), l0).unwrap();

    Dialogue::new(vec![start, second])
}

#[test]
fn start_emits_the_entry_line() {
    let mut vm = DialogueVm::default();
    let event = start(&mut vm, linear_dialogue(), "start").unwrap();
    assert_eq!(event, Event::Say(Some("Alice".into()), "first".into()));
}

#[test]
fn advance_walks_the_lines() {
    let mut vm = DialogueVm::default();
    start(&mut vm, linear_dialogue(), "start").unwrap();
    assert_eq!(resume(&mut vm, ResumeEvent::Advance).unwrap(), Event::Say(None, "second".into()));
    assert_eq!(resume(&mut vm, ResumeEvent::Advance).unwrap(), Event::Finished);
}

#[test]
fn error_on_start_unknown_node() {
    let mut vm = DialogueVm::default();
    let err = start(&mut vm, linear_dialogue(), "nope").unwrap_err();
    assert!(matches!(err, VmError::DialogueNodeNotFound(n) if n == NodeName::new("nope")));
}

#[test]
fn error_on_resume_before_start() {
    let mut vm = DialogueVm::default();
    let err = resume(&mut vm, ResumeEvent::Advance).unwrap_err();
    assert!(matches!(err, VmError::DialogueNotStarted));
}

#[test]
fn error_on_resume_after_the_end() {
    let mut vm = DialogueVm::default();
    start(&mut vm, linear_dialogue(), "start").unwrap();
    resume(&mut vm, ResumeEvent::Advance).unwrap();
    assert_eq!(resume(&mut vm, ResumeEvent::Advance).unwrap(), Event::Finished);
    let err = resume(&mut vm, ResumeEvent::Advance).unwrap_err();
    assert!(matches!(err, VmError::DialogueAlreadyFinished));
}

#[test]
fn error_on_start_while_suspended() {
    let mut vm = DialogueVm::default();
    start(&mut vm, linear_dialogue(), "start").unwrap();
    let err = start(&mut vm, linear_dialogue(), "start").unwrap_err();
    assert!(matches!(err, VmError::DialogueNotFinished));
}

#[test]
fn start_again_after_the_end_is_allowed() {
    let mut vm = DialogueVm::default();
    start(&mut vm, linear_dialogue(), "start").unwrap();
    resume(&mut vm, ResumeEvent::Advance).unwrap();
    assert_eq!(resume(&mut vm, ResumeEvent::Advance).unwrap(), Event::Finished);
    let event = start(&mut vm, linear_dialogue(), "start").unwrap();
    assert!(matches!(event, Event::Say(_, text) if text == "first"));
}

#[test]
fn advance_carries_on_after_a_command() {
    let mut vm = DialogueVm::default();
    start(&mut vm, command_dialogue(), "start").unwrap();
    assert_eq!(resume(&mut vm, ResumeEvent::Advance).unwrap(), Event::Command("play".into()));
    let event = resume(&mut vm, ResumeEvent::Advance).unwrap();
    assert!(matches!(event, Event::Say(_, text) if text == "after"));
}

#[test]
fn error_on_select_on_a_command() {
    let mut vm = DialogueVm::default();
    start(&mut vm, command_dialogue(), "start").unwrap();
    resume(&mut vm, ResumeEvent::Advance).unwrap();
    let err = resume(&mut vm, ResumeEvent::Select(0)).unwrap_err();
    assert!(matches!(err, VmError::WrongResumeEvent));
}

#[test]
fn choice_emits_every_choice_text_in_order() {
    let mut vm = DialogueVm::default();
    let event = start(&mut vm, choice_dialogue(), "start").unwrap();
    assert_eq!(event, Event::Choices(vec!["go left".to_string(), "go right".to_string()]));
}

#[test]
fn select_follows_the_matching_target() {
    for (index, expected) in [(0, "left"), (1, "right")] {
        let mut vm = DialogueVm::default();
        start(&mut vm, choice_dialogue(), "start").unwrap();
        let event = resume(&mut vm, ResumeEvent::Select(index)).unwrap();
        assert!(matches!(event, Event::Say(_, text) if text == expected));
    }
}

#[test]
fn error_on_select_out_of_range_and_keeps_the_choice_pending() {
    let mut vm = DialogueVm::default();
    start(&mut vm, choice_dialogue(), "start").unwrap();
    let err = resume(&mut vm, ResumeEvent::Select(5)).unwrap_err();
    assert!(matches!(err, VmError::ChoiceOutOfRange { index: 5, count: 2 }));
    // The VM is still suspended on the same choice, so a valid retry works.
    let event = resume(&mut vm, ResumeEvent::Select(0)).unwrap();
    assert!(matches!(event, Event::Say(_, text) if text == "left"));
}

#[test]
fn error_on_advance_on_a_choice() {
    let mut vm = DialogueVm::default();
    start(&mut vm, choice_dialogue(), "start").unwrap();
    let err = resume(&mut vm, ResumeEvent::Advance).unwrap_err();
    assert!(matches!(err, VmError::WrongResumeEvent));
}

#[test]
fn error_on_select_on_a_line() {
    let mut vm = DialogueVm::default();
    start(&mut vm, linear_dialogue(), "start").unwrap();
    let err = resume(&mut vm, ResumeEvent::Select(0)).unwrap_err();
    assert!(matches!(err, VmError::WrongResumeEvent));
}

#[test]
fn jump_continues_in_the_target_node() {
    let mut vm = DialogueVm::default();
    start(&mut vm, jump_dialogue("second"), "start").unwrap();
    let event = resume(&mut vm, ResumeEvent::Advance).unwrap();
    assert!(matches!(event, Event::Say(_, text) if text == "after jump"));
    assert_eq!(resume(&mut vm, ResumeEvent::Advance).unwrap(), Event::Finished);
}

#[test]
fn error_on_jump_to_unknown_node() {
    let mut vm = DialogueVm::default();
    start(&mut vm, jump_dialogue("missing"), "start").unwrap();
    let err = resume(&mut vm, ResumeEvent::Advance).unwrap_err();
    assert!(matches!(err, VmError::DialogueNodeNotFound(n) if n == NodeName::new("missing")));
}

#[test]
fn error_on_self_jumping_node() {
    let mut b = DialogueNodeBuilder::default();
    let jump = b.push(StepKind::Jump(NodeName::new("loop")));
    let dialogue = Dialogue::new(vec![b.build(NodeName::new("loop"), jump).unwrap()]);
    let mut vm = DialogueVm::default();
    let err = start(&mut vm, dialogue, "loop").unwrap_err();
    assert!(matches!(err, VmError::StepLimitExceeded));
}

/// `[let $gold = 10]` then `[if $gold > 5]`: the walk stops on the
/// assignment, then on the test.
const GOLD: &str = ":= start\n[let $gold = 10]\n[if $gold > 5]\n    Alice: rich\n[else]\n    Alice: poor\n---\n";

#[test]
fn a_branch_takes_the_body_its_condition_points_at() {
    let mut vm = DialogueVm::default();
    vm.start(dialogue(GOLD), "start").unwrap();
    assert!(matches!(vm.pending(), StepKind::Let { .. }));
    assert_eq!(vm.assigned().unwrap(), Halt::Pending);
    assert!(matches!(vm.pending(), StepKind::Branch { .. }));
    assert_eq!(vm.evaluated(Condition::Bool(true)).unwrap(), Halt::Pending);
    assert_eq!(line(&vm).1, "rich");

    let mut vm = DialogueVm::default();
    vm.start(dialogue(GOLD), "start").unwrap();
    vm.assigned().unwrap();
    vm.evaluated(Condition::Bool(false)).unwrap();
    assert_eq!(line(&vm).1, "poor");
}

#[test]
fn error_on_a_condition_that_is_not_a_bool_at_run_time() {
    let mut vm = DialogueVm::default();
    vm.start(dialogue(GOLD), "start").unwrap();
    vm.assigned().unwrap();
    let Err(VmError::ExprEvalError(EvalError::NotACondition(t))) = vm.evaluated(Condition::Other(ValueType::Int))
    else {
        panic!("expected a condition that is not a bool");
    };
    assert_eq!(t, "int");
    // Nothing moved: the test is still pending, and can be answered.
    assert!(matches!(vm.pending(), StepKind::Branch { .. }));
    vm.evaluated(Condition::Bool(true)).unwrap();
    assert_eq!(line(&vm).1, "rich");
}

#[test]
fn an_assignment_is_invisible_and_the_walk_goes_on() {
    let mut vm = DialogueVm::default();
    assert_eq!(vm.start(dialogue(":= start\n[let $gold = 10]\n>> show($gold)\n---\n"), "start").unwrap(), Halt::Pending);
    let StepKind::Let { name, .. } = vm.pending() else {
        panic!("expected an assignment");
    };
    assert_eq!(name, "gold");
    vm.assigned().unwrap();
    let StepKind::Command { command, .. } = vm.pending() else {
        panic!("expected the command after it");
    };
    assert_eq!(command.name, "show");
}
