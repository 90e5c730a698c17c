use replique::dialogue::{
    compile, compile_node, BuildError, ChoiceDef, Dialogue, DialogueNode, DialogueNodeBuilder, StepKind, TextLine,
    TextPart,
};
use replique::parser::parse;
use replique::runtime::{NodeName, StepId};

fn line(next: StepId) -> StepKind {
    StepKind::Say {
        line: TextLine {
            speaker: None,
            text: vec![TextPart::Text("...".to_string())],
        },
        next,
    }
}

fn choice(targets: &[StepId]) -> StepKind {
    StepKind::Choice {
        choices: targets
            .iter()
            .map(|t| ChoiceDef {
                text: vec![TextPart::Text("...".to_string())],
                target: *t,
            })
            .collect(),
    }
}

#[test]
fn push_returns_sequential_ids() {
    let mut b = DialogueNodeBuilder::default();

    assert_eq!(b.push(StepKind::End).id(), 0);
    assert_eq!(b.push(StepKind::End).id(), 1);
    assert_eq!(b.push(StepKind::End).id(), 2);
}

#[test]
fn build_keeps_steps_in_push_order() {
    let mut b = DialogueNodeBuilder::default();
    let end = b.push(StepKind::End);
    let l0 = b.push(line(end));

    let node = b.build(NodeName::new("start"), l0).unwrap();

    assert_eq!(*node.name(), NodeName::new("start"));
    assert_eq!(node.entry(), l0);
    assert_eq!(node.steps().len(), 2);
    assert!(matches!(node.get_step(&end).kind, StepKind::End));
    assert!(matches!(node.get_step(&l0).kind, StepKind::Say { .. }));
}

#[test]
fn error_on_self_referencing_line() {
    let mut b = DialogueNodeBuilder::default();
    let l0 = b.push(line(StepId(0)));

    assert!(matches!(
        b.build(NodeName::new("start"), l0),
        Err(BuildError::SelfReferencing(_))
    ));
}

#[test]
fn error_on_dangling_line_target() {
    let mut b = DialogueNodeBuilder::default();
    let l0 = b.push(line(StepId(42)));

    let Err(BuildError::DanglingTarget { from, to }) = b.build(NodeName::new("start"), l0) else {
        panic!("expected a DanglingTarget error");
    };
    assert_eq!(from, l0);
    assert_eq!(to, StepId(42));
}

#[test]
fn error_on_dangling_choice_target() {
    let mut b = DialogueNodeBuilder::default();
    let end = b.push(StepKind::End);
    let c = b.push(choice(&[end, StepId(7)]));

    let Err(BuildError::DanglingTarget { from, to }) = b.build(NodeName::new("start"), c) else {
        panic!("expected a DanglingTarget error");
    };
    assert_eq!(from, c);
    assert_eq!(to, StepId(7));
}

#[test]
fn error_on_an_empty_node() {
    let b = DialogueNodeBuilder::default();
    assert!(matches!(b.build(NodeName::new("start"), StepId(0)), Err(BuildError::EmptyNode)));
}

#[test]
fn error_on_an_entry_past_the_steps() {
    let mut b = DialogueNodeBuilder::default();
    b.push(StepKind::End);
    assert!(matches!(b.build(NodeName::new("start"), StepId(1)), Err(BuildError::DanglingEntry)));
}

#[test]
fn faults_are_reported_from_the_first_step() {
    let mut b = DialogueNodeBuilder::default();
    b.push(line(StepId(9)));
    b.push(line(StepId(1)));
    let Err(BuildError::DanglingTarget { from, to }) = b.build(NodeName::new("start"), StepId(0)) else {
        panic!("expected the first step to be reported");
    };
    assert_eq!(from, StepId(0));
    assert_eq!(to, StepId(9));
}

/// The dialogue of `src`, which must compile.
fn compiled(src: &str) -> Dialogue {
    let c = compile(parse(src));
    assert_eq!(c.diagnostics.errors(), 0);
    c.dialogue.expect("the source compiles")
}

/// The node `name` of `d`.
fn node<'a>(d: &'a Dialogue, name: &str) -> &'a DialogueNode {
    d.get_node(&NodeName::new(name)).expect("the node exists")
}

#[test]
fn a_line_leads_to_the_end_of_its_node() {
    let d = compiled(":= start\nAlice: Hi\n---\n");
    let n = node(&d, "start");
    assert_eq!(n.steps().len(), 2);
    let StepKind::Say { line, next } = &n.get_step(&n.entry()).kind else {
        panic!("expected a line");
    };
    assert_eq!(line.speaker.as_deref(), Some("Alice"));
    assert!(matches!(&line.text[..], [TextPart::Text(t)] if t == "Hi"));
    assert!(matches!(n.get_step(next).kind, StepKind::End));
}

#[test]
fn lines_follow_each_other_in_writing_order() {
    let d = compiled(":= start\nAlice: one\nBob: two\n---\n");
    let n = node(&d, "start");
    let StepKind::Say { line, next } = &n.get_step(&n.entry()).kind else {
        panic!("expected a line");
    };
    assert_eq!(line.speaker.as_deref(), Some("Alice"));
    let StepKind::Say { line, next } = &n.get_step(next).kind else {
        panic!("expected a second line");
    };
    assert_eq!(line.speaker.as_deref(), Some("Bob"));
    assert!(matches!(n.get_step(next).kind, StepKind::End));
}

#[test]
fn an_empty_node_is_only_its_end() {
    let c = compile(parse(":= start\n---\n"));
    assert_eq!(c.diagnostics.errors(), 0);
    assert_eq!(c.diagnostics.warnings(), 1);
    let d = c.dialogue.expect("a warning stops nothing");
    let n = node(&d, "start");
    assert_eq!(n.steps().len(), 1);
    assert!(matches!(n.get_step(&n.entry()).kind, StepKind::End));
}

#[test]
fn a_file_with_an_error_gives_no_dialogue() {
    let c = compile(parse(":= start\n\tAlice: Hi\n---\n"));
    assert!(c.diagnostics.errors() > 0);
    assert!(c.dialogue.is_none());
}

#[test]
fn a_break_outside_a_loop_gives_no_dialogue() {
    let c = compile(parse(":= start\n[break]\n---\n"));
    assert!(c.diagnostics.errors() > 0);
    assert!(c.dialogue.is_none());
}

#[test]
fn each_choice_leads_to_its_body_then_rejoins() {
    let d = compiled(":= start\n-> Yes\n    Alice: ok\n-> No\nBob: bye\n---\n");
    let n = node(&d, "start");
    let StepKind::Choice { choices } = &n.get_step(&n.entry()).kind else {
        panic!("expected a choice");
    };
    assert_eq!(choices.len(), 2);
    assert!(matches!(&choices[0].text[..], [TextPart::Text(t)] if t == "Yes"));
    let StepKind::Say { line, next: after_yes } = &n.get_step(&choices[0].target).kind else {
        panic!("expected the body of the first choice");
    };
    assert_eq!(line.speaker.as_deref(), Some("Alice"));
    // The second choice has no body: it goes straight to what follows.
    assert_eq!(*after_yes, choices[1].target);
    let StepKind::Say { line, .. } = &n.get_step(&choices[1].target).kind else {
        panic!("expected the line after the choice");
    };
    assert_eq!(line.speaker.as_deref(), Some("Bob"));
}

#[test]
fn a_jump_to_end_ends_the_dialogue() {
    let d = compiled(":= start\n=> END\n---\n");
    let n = node(&d, "start");
    assert_eq!(n.steps().len(), 2);
    assert!(matches!(n.get_step(&n.entry()).kind, StepKind::End));
}

#[test]
fn a_jump_names_its_node() {
    let d = compiled(":= start\n=> other\n---\n:= other\nAlice: hi\n---\n");
    let n = node(&d, "start");
    let StepKind::Jump(target) = &n.get_step(&n.entry()).kind else {
        panic!("expected a jump");
    };
    assert_eq!(*target, NodeName::new("other"));
    assert!(d.get_node(target).is_some());
}

#[test]
fn a_loop_tests_then_runs_its_body_and_comes_back() {
    let d = compiled(":= start\n[while $n > 0]\n    >> ring()\nAlice: done\n---\n");
    let n = node(&d, "start");
    let StepKind::Branch { then, otherwise, .. } = &n.get_step(&n.entry()).kind else {
        panic!("expected the test of the loop");
    };
    let StepKind::Command { command, next } = &n.get_step(then).kind else {
        panic!("expected the body of the loop");
    };
    assert_eq!(command.name, "ring");
    assert_eq!(*next, n.entry());
    assert!(matches!(n.get_step(otherwise).kind, StepKind::Say { .. }));
}

#[test]
fn a_break_leaves_the_loop_and_a_continue_goes_back_to_its_test() {
    let d = compiled(":= start\n[while true]\n    [if $a]\n        [break]\n    [continue]\n---\n");
    let n = node(&d, "start");
    let StepKind::Branch { then, otherwise: after, .. } = &n.get_step(&n.entry()).kind else {
        panic!("expected the test of the loop");
    };
    assert!(matches!(n.get_step(after).kind, StepKind::End));
    let StepKind::Branch { then: on_a, otherwise: not_a, .. } = &n.get_step(then).kind else {
        panic!("expected the test of the condition");
    };
    assert_eq!(on_a, after);
    assert_eq!(*not_a, n.entry());
}

#[test]
fn a_condition_group_is_a_chain_of_tests() {
    let d = compiled(":= start\n[if $a]\n    Alice: a\n[elif $b]\n    Alice: b\n[else]\n    Alice: c\nBob: end\n---\n");
    let n = node(&d, "start");
    let StepKind::Branch { then, otherwise, .. } = &n.get_step(&n.entry()).kind else {
        panic!("expected the first test");
    };
    let StepKind::Say { next: after_a, .. } = &n.get_step(then).kind else {
        panic!("expected the first body");
    };
    let StepKind::Branch { then: then_b, otherwise: other, .. } = &n.get_step(otherwise).kind else {
        panic!("expected the second test");
    };
    let StepKind::Say { next: after_b, .. } = &n.get_step(then_b).kind else {
        panic!("expected the second body");
    };
    let StepKind::Say { next: after_c, .. } = &n.get_step(other).kind else {
        panic!("expected the last body");
    };
    assert_eq!(after_a, after_b);
    assert_eq!(after_b, after_c);
    let StepKind::Say { line, .. } = &n.get_step(after_a).kind else {
        panic!("expected the line after the group");
    };
    assert_eq!(line.speaker.as_deref(), Some("Bob"));
}

#[test]
fn a_let_keeps_its_name_and_attributes() {
    let d = compiled(":= start\n[let $player.hp = 3]\n---\n");
    let n = node(&d, "start");
    let StepKind::Let { name, attrs, .. } = &n.get_step(&n.entry()).kind else {
        panic!("expected a let");
    };
    assert_eq!(name, "player");
    assert_eq!(attrs, &vec!["hp".to_string()]);
}

#[test]
fn compile_node_closes_on_the_start_of_the_body() {
    let mut parsed = parse(":= start\nAlice: Hi\n---\n");
    let decl = parsed.nodes.pop().unwrap();
    let n = compile_node(decl).unwrap();
    assert_eq!(*n.name(), NodeName::new("start"));
    assert_eq!(n.entry(), StepId(1));
}

#[test]
fn every_node_of_a_file_is_found_by_name() {
    let d = compiled(":= start\nAlice: Hi\n---\n:= other\nBob: Hey\n---\n");
    assert!(d.get_node(&NodeName::new("start")).is_some());
    assert!(d.get_node(&NodeName::new("other")).is_some());
    assert!(d.get_node(&NodeName::new("Start")).is_none());
}

#[test]
fn the_last_node_of_a_name_wins() {
    let mut a = DialogueNodeBuilder::default();
    a.push(StepKind::End);
    let first = a.build(NodeName::new("n"), StepId(0)).unwrap();
    let mut b = DialogueNodeBuilder::default();
    let end = b.push(StepKind::End);
    let l = b.push(line(end));
    let second = b.build(NodeName::new("n"), l).unwrap();
    let d = Dialogue::new(vec![first, second]);
    assert_eq!(d.get_node(&NodeName::new("n")).unwrap().entry(), StepId(1));
}

#[test]
fn every_id_of_a_compiled_node_names_one_of_its_steps() {
    let src = ":= start\nAlice: hi\n-> a\n    [while $x]\n        [if $y]\n            [break]\n        Bob: loop\n-> b\n    >> ring()\n[let $z = 1]\n=> END\n---\n";
    let d = compiled(src);
    let n = node(&d, "start");
    let len = n.steps().len() as u32;
    assert!(n.entry().id() < len);
    for (i, step) in n.steps().iter().enumerate() {
        let targets: Vec<StepId> = match &step.kind {
            StepKind::Say { next, .. } | StepKind::Command { next, .. } | StepKind::Let { next, .. } => vec![*next],
            StepKind::Branch { then, otherwise, .. } => vec![*then, *otherwise],
            StepKind::Choice { choices } => choices.iter().map(|c| c.target).collect(),
            StepKind::Jump(_) | StepKind::End => vec![],
        };
        for t in targets {
            assert!(t.id() < len);
            if !matches!(step.kind, StepKind::Branch { .. }) {
                assert_ne!(t.id() as usize, i, "a step leads back to itself");
            }
        }
    }
}
