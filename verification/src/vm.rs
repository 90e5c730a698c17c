//! The walk of a compiled [`Dialogue`], one event at a time.
//!
//! A [`DialogueVm`] is a coroutine: it walks the steps of a node, following
//! jumps on its own, until it reaches a step only its caller can carry out,
//! and stops there. A line, a command or a choice is shown by the caller,
//! which then calls [`DialogueVm::suspend`]: the VM waits for the answer,
//! given to [`DialogueVm::resume`]. A `[let]` or the test of an `[if]` or a
//! `[while]` is evaluated by the caller, which then calls
//! [`DialogueVm::assigned`] or [`DialogueVm::tested`] to let the walk go on.
//!
//! A failed call never moves the VM: after an error it is still where it
//! was, and the caller can answer again. A walk that takes more than
//! [`MAX_STEPS`] steps without stopping fails, which is what stops nodes
//! jumping to each other forever.

use vstd::prelude::*;

use crate::dialogue::{last_named, step_view, targets, Dialogue, DialogueNode, StepKind, StepView};
use crate::runtime::{
    value_type_name, EvalError, NodeName, ResumeEvent, StepId, SuspendedAt, ValueType, VmError,
};

verus! {

/// How many steps one call may walk before it gives up with
/// [`VmError::StepLimitExceeded`].
pub const MAX_STEPS: usize = 200;

/// Where a walk is: a step, and the node it belongs to.
#[derive(Debug)]
pub struct Cursor {
    pub name: NodeName,
    pub step: StepId,
}

/// What the VM is between two answers.
pub enum VmState {
    NotStarted,
    /// Waiting for the answer to a line, a command or a choice.
    Suspended { cursor: Cursor, at: SuspendedAt },
    Finished,
}

/// What a suspension waits on, and where each answer leads.
pub enum AtView {
    Line(StepId),
    Command(StepId),
    Choice(Seq<StepId>),
}

/// What the VM is between two answers.
pub enum Phase {
    NotStarted,
    /// Waiting at the step `.1` of the node `.0`.
    Suspended(Seq<char>, StepId, AtView),
    Finished,
}

/// What a suspension waits on.
pub open spec fn at_view(at: SuspendedAt) -> AtView {
    match at {
        SuspendedAt::Line { next } => AtView::Line(next),
        SuspendedAt::Command { next } => AtView::Command(next),
        SuspendedAt::Choice { targets } => AtView::Choice(targets@),
    }
}

/// What the state is.
pub open spec fn phase_of(s: VmState) -> Phase {
    match s {
        VmState::NotStarted => Phase::NotStarted,
        VmState::Suspended { cursor, at } => Phase::Suspended(cursor.name.0@, cursor.step, at_view(at)),
        VmState::Finished => Phase::Finished,
    }
}

/// A walk stopped on a step the caller carries out, with the steps it may
/// still take.
pub struct Walk {
    cursor: Cursor,
    left: usize,
}

/// How a call ended, when it did not fail.
#[derive(Debug, PartialEq, Eq, Structural)]
pub enum Halt {
    /// On a step only the caller can carry out: [`DialogueVm::pending`].
    Pending,
    /// At the end of the dialogue.
    Finished,
}

/// Whether the step `step` of the node called `name` is one of `nodes`.
pub open spec fn valid_cursor(nodes: Seq<DialogueNode>, name: Seq<char>, step: StepId) -> bool {
    last_named(nodes, name) matches Some(i) && (step.0 as int) < nodes[i]@.steps.len()
}

/// The step `step` of the node called `name`.
pub open spec fn step_of(nodes: Seq<DialogueNode>, name: Seq<char>, step: StepId) -> StepView {
    nodes[last_named(nodes, name).unwrap()]@.steps[step.0 as int]
}

/// How a walk ends.
pub enum WalkEnd {
    /// On the step `.1` of the node `.0`, with `.2` steps left to take.
    Pending(Seq<char>, StepId, nat),
    Finished,
    /// At a jump to a node the dialogue does not have.
    NotFound(Seq<char>),
    /// Out of steps.
    Exhausted,
}

/// How a walk from the step `step` of the node `name`, which may take `left`
/// steps, ends: each step taken costs one, a jump goes on at the entry of
/// its node, the end finishes, and any other step stops the walk.
#[verifier::opaque]
pub open spec fn walk_spec(nodes: Seq<DialogueNode>, name: Seq<char>, step: StepId, left: nat) -> WalkEnd
    decreases left,
{
    if left == 0 {
        WalkEnd::Exhausted
    } else {
        match step_of(nodes, name, step) {
            StepView::Jump(target) => match last_named(nodes, target) {
                Some(j) => walk_spec(nodes, target, nodes[j]@.entry, (left - 1) as nat),
                None => WalkEnd::NotFound(target),
            },
            StepView::End => WalkEnd::Finished,
            _ => WalkEnd::Pending(name, step, (left - 1) as nat),
        }
    }
}

/// A walk with steps left takes one: [`walk_spec`] unfolded once.
pub proof fn lemma_walk_step(nodes: Seq<DialogueNode>, name: Seq<char>, step: StepId, left: nat)
    requires
        left > 0,
    ensures
        walk_spec(nodes, name, step, left) == match step_of(nodes, name, step) {
            StepView::Jump(target) => match last_named(nodes, target) {
                Some(j) => walk_spec(nodes, target, nodes[j]@.entry, (left - 1) as nat),
                None => WalkEnd::NotFound(target),
            },
            StepView::End => WalkEnd::Finished,
            _ => WalkEnd::Pending(name, step, (left - 1) as nat),
        },
{
    reveal_with_fuel(walk_spec, 1);
}

/// A walk with no step left is out of steps.
pub proof fn lemma_walk_none(nodes: Seq<DialogueNode>, name: Seq<char>, step: StepId)
    ensures
        walk_spec(nodes, name, step, 0) == WalkEnd::Exhausted,
{
    reveal_with_fuel(walk_spec, 1);
}

/// Whether, for its next `k` steps, the walk from the step `step` of the
/// node `name` meets only jumps to nodes the dialogue has.
pub open spec fn only_jumps(nodes: Seq<DialogueNode>, name: Seq<char>, step: StepId, k: nat) -> bool
    decreases k,
{
    if k == 0 {
        true
    } else {
        match step_of(nodes, name, step) {
            StepView::Jump(t) => match last_named(nodes, t) {
                Some(j) => only_jumps(nodes, t, nodes[j]@.entry, (k - 1) as nat),
                None => false,
            },
            _ => false,
        }
    }
}

/// A walk that meets nothing but jumps runs out of steps: nodes that jump
/// to each other forever end the walk with an error, and never hang it.
pub proof fn lemma_jumps_exhaust(nodes: Seq<DialogueNode>, name: Seq<char>, step: StepId, k: nat)
    requires
        only_jumps(nodes, name, step, k),
    ensures
        walk_spec(nodes, name, step, k) == WalkEnd::Exhausted,
    decreases k,
{
    if k == 0 {
        lemma_walk_none(nodes, name, step);
    } else {
        lemma_walk_step(nodes, name, step, k);
        match step_of(nodes, name, step) {
            StepView::Jump(t) => match last_named(nodes, t) {
                Some(j) => lemma_jumps_exhaust(nodes, t, nodes[j]@.entry, (k - 1) as nat),
                None => {},
            },
            _ => {},
        }
    }
}

/// The suspension a step that stops a walk leads to: a line or a command
/// waits to be advanced past, a choice to be answered with one of its
/// targets.
pub open spec fn suspension(s: StepView) -> AtView {
    match s {
        StepView::Say(_, _, next) => AtView::Line(next),
        StepView::Command(_, _, next) => AtView::Command(next),
        StepView::Choice(_) => AtView::Choice(targets(s)),
        _ => AtView::Line(StepId(0)),
    }
}

/// Whether the step is a line, a command or a choice: one the caller shows.
pub open spec fn shown(s: StepView) -> bool {
    s is Say || s is Command || s is Choice
}

/// What a step does to a walk.
enum Look {
    /// A jump to the node named, with its entry when the dialogue has it.
    Jump(NodeName, Option<StepId>),
    End,
    /// A step the caller carries out.
    Stop,
}

/// Where a walk ends, when it does not fail.
enum Reached {
    /// On a step the caller carries out, with the steps it may still take.
    Pending(Cursor, usize),
    Finished,
}

/// What the condition of a test evaluated to: a `bool`, or a value of
/// another type.
#[derive(Debug, Clone, Copy, PartialEq, Eq, Structural)]
pub enum Condition {
    Bool(bool),
    Other(ValueType),
}

/// Runs one [`Dialogue`], one step the caller carries out at a time.
pub struct DialogueVm {
    dialogue: Option<Dialogue>,
    state: VmState,
    walk: Option<Walk>,
}

/// Whether the ids a suspension leads to are steps of a node of `len` steps.
pub open spec fn at_within(at: AtView, len: int) -> bool {
    match at {
        AtView::Line(next) => (next.0 as int) < len,
        AtView::Command(next) => (next.0 as int) < len,
        AtView::Choice(ts) => forall|k: int| 0 <= k < ts.len() ==> ((#[trigger] ts[k]).0 as int) < len,
    }
}

impl DialogueVm {
    /// The nodes of the dialogue being run, once one was given.
    pub closed spec fn nodes(&self) -> Option<Seq<DialogueNode>> {
        match self.dialogue {
            Some(d) => Some(d.nodes()),
            None => None,
        }
    }

    /// What the VM is between two answers.
    pub closed spec fn phase(&self) -> Phase {
        phase_of(self.state)
    }

    /// Where the last walk stopped, with the steps it may still take, while
    /// the caller carries that step out.
    pub closed spec fn pending_at(&self) -> Option<(Seq<char>, StepId, nat)> {
        match self.walk {
            Some(w) => Some((w.cursor.name.0@, w.cursor.step, w.left as nat)),
            None => None,
        }
    }

    /// Whether the VM waits, or walks, on steps of its dialogue, and a
    /// pending step is one the caller carries out.
    pub closed spec fn wf(&self) -> bool {
        &&& (self.phase() is Suspended || self.pending_at() is Some) ==> self.nodes() is Some
        &&& (self.phase() matches Phase::Suspended(name, step, at) ==> {
            let nodes = self.nodes().unwrap();
            &&& valid_cursor(nodes, name, step)
            &&& at_within(at, nodes[last_named(nodes, name).unwrap()]@.steps.len() as int)
        })
        &&& (self.pending_at() matches Some(p) ==> {
            let nodes = self.nodes().unwrap();
            &&& valid_cursor(nodes, p.0, p.1)
            &&& !(step_of(nodes, p.0, p.1) is Jump)
            &&& !(step_of(nodes, p.0, p.1) is End)
        })
    }

    /// A VM that has run nothing yet.
    pub fn new() -> (r: Self)
        ensures
            r.wf(),
            r.nodes() is None,
            r.phase() is NotStarted,
            r.pending_at() is None,
    {
        DialogueVm { dialogue: None, state: VmState::NotStarted, walk: None }
    }

    /// What the VM is after a walk of the nodes `nodes` that ended as `end`,
    /// from the state `before`: stopped on the pending step, finished, or,
    /// after an error, where it was.
    pub open spec fn walked(&self, nodes: Seq<DialogueNode>, before: Phase, end: WalkEnd, r: Result<Halt, VmError>) -> bool {
        &&& self.wf()
        &&& self.nodes() == Some(nodes)
        &&& match end {
            WalkEnd::Pending(name, step, left) => r == Ok::<Halt, VmError>(Halt::Pending) && self.phase() == before
                && self.pending_at() == Some((name, step, left)),
            WalkEnd::Finished => r == Ok::<Halt, VmError>(Halt::Finished) && self.phase() is Finished
                && self.pending_at() is None,
            WalkEnd::NotFound(target) => r matches Err(VmError::DialogueNodeNotFound(m)) && m.0@ == target
                && self.phase() == before && self.pending_at() is None,
            WalkEnd::Exhausted => r matches Err(VmError::StepLimitExceeded) && self.phase() == before
                && self.pending_at() is None,
        }
    }

    /// What the step `step` of the node `name` does to a walk: a jump, with
    /// the entry of the node it names when there is one; the end; or a stop.
    fn look(&self, name: &NodeName, step: StepId) -> (r: Look)
        requires
            self.nodes() is Some,
            valid_cursor(self.nodes().unwrap(), name.0@, step),
        ensures
            match step_of(self.nodes().unwrap(), name.0@, step) {
                StepView::Jump(t) => r matches Look::Jump(n, e) && n.0@ == t && match last_named(
                    self.nodes().unwrap(),
                    t,
                ) {
                    Some(j) => e == Some(self.nodes().unwrap()[j]@.entry) && valid_cursor(
                        self.nodes().unwrap(),
                        t,
                        self.nodes().unwrap()[j]@.entry,
                    ),
                    None => e is None,
                },
                StepView::End => r is End,
                _ => r is Stop,
            },
    {
        let ghost nodes = self.nodes().unwrap();
        let d = self.dialogue.as_ref().unwrap();
        let node = d.get_node(name).unwrap();
        let kind = &node.get_step(&step).kind;
        proof {
            assert(crate::dialogue::step_view(*kind) == step_of(nodes, name.0@, step));
        }
        match kind {
            StepKind::Jump(target) => {
                let t = NodeName::new(target.0.as_str());
                match d.get_node(target) {
                    Some(n2) => Look::Jump(t, Some(n2.entry())),
                    None => Look::Jump(t, None),
                }
            },
            StepKind::End => Look::End,
            _ => Look::Stop,
        }
    }

    /// Walk from the step `step` of the node `name`, taking at most `left`
    /// steps, up to a step the caller carries out or the end.
    fn walk(&self, name: &NodeName, step: StepId, left: usize) -> (r: Result<Reached, VmError>)
        requires
            self.nodes() is Some,
            valid_cursor(self.nodes().unwrap(), name.0@, step),
        ensures
            match walk_spec(self.nodes().unwrap(), name.0@, step, left as nat) {
                WalkEnd::Pending(n, s, l) => r matches Ok(Reached::Pending(c, k)) && c.name.0@ == n && c.step == s
                    && k == l,
                WalkEnd::Finished => r matches Ok(Reached::Finished),
                WalkEnd::NotFound(t) => r matches Err(VmError::DialogueNodeNotFound(m)) && m.0@ == t,
                WalkEnd::Exhausted => r matches Err(VmError::StepLimitExceeded),
            },
            r matches Ok(Reached::Pending(c, k)) ==> {
                let nodes = self.nodes().unwrap();
                &&& valid_cursor(nodes, c.name.0@, c.step)
                &&& !(step_of(nodes, c.name.0@, c.step) is Jump)
                &&& !(step_of(nodes, c.name.0@, c.step) is End)
            },
    {
        let ghost nodes = self.nodes().unwrap();
        let ghost end = walk_spec(nodes, name.0@, step, left as nat);
        let mut cur = NodeName::new(name.0.as_str());
        let mut at = step;
        let mut budget = left;
        while budget > 0
            invariant
                self.nodes() == Some(nodes),
                valid_cursor(nodes, cur.0@, at),
                walk_spec(nodes, cur.0@, at, budget as nat) == end,
                end == walk_spec(nodes, name.0@, step, left as nat),
            decreases budget,
        {
            proof {
                lemma_walk_step(nodes, cur.0@, at, budget as nat);
            }
            budget = budget - 1;
            match self.look(&cur, at) {
                Look::Jump(target, Some(entry)) => {
                    cur = target;
                    at = entry;
                },
                Look::Jump(target, None) => {
                    return Err(VmError::DialogueNodeNotFound(target));
                },
                Look::End => {
                    return Ok(Reached::Finished);
                },
                Look::Stop => {
                    return Ok(Reached::Pending(Cursor { name: cur, step: at }, budget));
                },
            }
        }
        proof {
            lemma_walk_none(nodes, cur.0@, at);
        }
        Err(VmError::StepLimitExceeded)
    }

    /// Walk from the step `step` of the node `name`, taking at most `left`
    /// steps, and stop on what the walk reaches.
    fn walk_on(&mut self, name: NodeName, step: StepId, left: usize) -> (r: Result<Halt, VmError>)
        requires
            old(self).wf(),
            old(self).nodes() is Some,
            valid_cursor(old(self).nodes().unwrap(), name.0@, step),
        ensures
            final(self).walked(
                old(self).nodes().unwrap(),
                old(self).phase(),
                walk_spec(old(self).nodes().unwrap(), name.0@, step, left as nat),
                r,
            ),
    {
        self.walk = None;
        match self.walk(&name, step, left) {
            Ok(Reached::Pending(cursor, k)) => {
                self.walk = Some(Walk { cursor, left: k });
                Ok(Halt::Pending)
            },
            Ok(Reached::Finished) => {
                self.state = VmState::Finished;
                Ok(Halt::Finished)
            },
            Err(e) => Err(e),
        }
    }

    /// Start `dialogue` at the node `name` and walk to the first step the
    /// caller carries out. Fails, changing nothing, while a run waits for an
    /// answer; starting again once one finished is fine. The dialogue is
    /// kept, and a node it does not have is an error that leaves the VM as
    /// it was otherwise.
    pub fn start(&mut self, dialogue: Dialogue, name: &str) -> (r: Result<Halt, VmError>)
        requires
            old(self).wf(),
        ensures
            old(self).phase() is Suspended ==> (r matches Err(VmError::DialogueNotFinished) && *final(self)
                == *old(self)),
            !(old(self).phase() is Suspended) ==> match last_named(dialogue.nodes(), name@) {
                None => r matches Err(VmError::DialogueNodeNotFound(m)) && m.0@ == name@ && final(self).wf()
                    && final(self).nodes() == Some(dialogue.nodes()) && final(self).phase() == old(self).phase()
                    && final(self).pending_at() is None,
                Some(i) => final(self).walked(
                    dialogue.nodes(),
                    old(self).phase(),
                    walk_spec(dialogue.nodes(), name@, dialogue.nodes()[i]@.entry, MAX_STEPS as nat),
                    r,
                ),
            },
    {
        if let VmState::Suspended { .. } = self.state {
            return Err(VmError::DialogueNotFinished);
        }
        self.walk = None;
        self.dialogue = Some(dialogue);
        let target = NodeName::new(name);
        let entry = match &self.dialogue {
            Some(d) => match d.get_node(&target) {
                Some(n) => n.entry(),
                None => {
                    return Err(VmError::DialogueNodeNotFound(target));
                },
            },
            None => {
                return Err(VmError::DialogueNotStarted);
            },
        };
        self.walk_on(target, entry, MAX_STEPS)
    }

    /// Answer the line, the command or the choice the VM waits on, and walk
    /// to the next step the caller carries out. An answer that does not fit
    /// what the VM waits on is an error that changes nothing, so the caller
    /// can answer again.
    pub fn resume(&mut self, resume: &ResumeEvent) -> (r: Result<Halt, VmError>)
        requires
            old(self).wf(),
        ensures
            match old(self).phase() {
                Phase::NotStarted => r matches Err(VmError::DialogueNotStarted) && *final(self) == *old(self),
                Phase::Finished => r matches Err(VmError::DialogueAlreadyFinished) && *final(self) == *old(self),
                Phase::Suspended(name, _, at) => match (at, *resume) {
                    (AtView::Line(next), ResumeEvent::Advance) => final(self).walked(
                        old(self).nodes().unwrap(),
                        old(self).phase(),
                        walk_spec(old(self).nodes().unwrap(), name, next, MAX_STEPS as nat),
                        r,
                    ),
                    (AtView::Command(next), ResumeEvent::Advance) => final(self).walked(
                        old(self).nodes().unwrap(),
                        old(self).phase(),
                        walk_spec(old(self).nodes().unwrap(), name, next, MAX_STEPS as nat),
                        r,
                    ),
                    (AtView::Choice(ts), ResumeEvent::Select(i)) => if i < ts.len() {
                        final(self).walked(
                            old(self).nodes().unwrap(),
                            old(self).phase(),
                            walk_spec(old(self).nodes().unwrap(), name, ts[i as int], MAX_STEPS as nat),
                            r,
                        )
                    } else {
                        r matches Err(VmError::ChoiceOutOfRange { index, count }) && index == i && count == ts.len()
                            && *final(self) == *old(self)
                    },
                    _ => r matches Err(VmError::WrongResumeEvent) && *final(self) == *old(self),
                },
            },
    {
        let (name, next) = match &self.state {
            VmState::Suspended { cursor, at } => match at.resolve(resume) {
                Ok(next) => (NodeName::new(cursor.name.0.as_str()), next),
                Err(e) => {
                    return Err(e);
                },
            },
            VmState::NotStarted => {
                return Err(VmError::DialogueNotStarted);
            },
            VmState::Finished => {
                return Err(VmError::DialogueAlreadyFinished);
            },
        };
        self.walk_on(name, next, MAX_STEPS)
    }

    /// The step the last walk stopped on, which the caller carries out: a
    /// line, a command or a choice to show, a `[let]` to assign, or a test
    /// to evaluate.
    pub fn pending(&self) -> (r: &StepKind)
        requires
            self.wf(),
            self.pending_at() is Some,
        ensures
            ({
                let nodes = self.nodes().unwrap();
                let p = self.pending_at().unwrap();
                &&& step_view(*r) == step_of(nodes, p.0, p.1)
                &&& forall|k: int|
                    0 <= k < targets(step_view(*r)).len() ==> ((#[trigger] targets(step_view(*r))[k]).0 as int)
                        < nodes[last_named(nodes, p.0).unwrap()]@.steps.len()
            }),
    {
        let ghost nodes = self.nodes().unwrap();
        let w = self.walk.as_ref().unwrap();
        let d = self.dialogue.as_ref().unwrap();
        let node = d.get_node(&w.cursor.name).unwrap();
        let step = node.get_step(&w.cursor.step);
        proof {
            let i = last_named(nodes, w.cursor.name.0@).unwrap();
            assert(*node == nodes[i]);
            let sv = step_view(step.kind);
            assert forall|k: int| 0 <= k < targets(sv).len() implies ((#[trigger] targets(sv)[k]).0 as int)
                < nodes[i]@.steps.len() by {
                assert(node@.steps[w.cursor.step.0 as int] == sv);
            }
        }
        &step.kind
    }

    /// Wait at the line, the command or the choice the last walk stopped
    /// on, once the caller has shown it: the answer it waits for is an
    /// advance past a line or a command, and the pick of one of the choices.
    pub fn suspend(&mut self)
        requires
            old(self).wf(),
            old(self).pending_at() matches Some(p) && shown(step_of(old(self).nodes().unwrap(), p.0, p.1)),
        ensures
            final(self).wf(),
            final(self).nodes() == old(self).nodes(),
            final(self).pending_at() is None,
            ({
                let p = old(self).pending_at().unwrap();
                final(self).phase() == Phase::Suspended(
                    p.0,
                    p.1,
                    suspension(step_of(old(self).nodes().unwrap(), p.0, p.1)),
                )
            }),
    {
        let kind = self.pending();
        proof {
            let sv = step_view(*kind);
            match sv {
                StepView::Say(_, _, n) => assert(targets(sv)[0] == n),
                StepView::Command(_, _, n) => assert(targets(sv)[0] == n),
                _ => {},
            }
        }
        let at = suspension_of(kind);
        let mut taken: Option<Walk> = None;
        std::mem::swap(&mut taken, &mut self.walk);
        match taken {
            Some(w) => {
                self.state = VmState::Suspended { cursor: w.cursor, at };
            },
            None => {},
        }
    }

    /// Go on past the `[let]` the last walk stopped on, once the caller
    /// has assigned it, with the steps the walk may still take.
    pub fn assigned(&mut self) -> (r: Result<Halt, VmError>)
        requires
            old(self).wf(),
            old(self).pending_at() matches Some(p) && step_of(old(self).nodes().unwrap(), p.0, p.1) is Let,
        ensures
            ({
                let nodes = old(self).nodes().unwrap();
                let p = old(self).pending_at().unwrap();
                final(self).walked(
                    nodes,
                    old(self).phase(),
                    walk_spec(nodes, p.0, step_of(nodes, p.0, p.1)->Let_3, p.2),
                    r,
                )
            }),
    {
        let (name, next, left) = match self.pending() {
            StepKind::Let { next, .. } => {
                proof {
                    assert(targets(step_of(self.nodes().unwrap(), self.pending_at().unwrap().0, self.pending_at().unwrap().1))[0] == *next);
                }
                let w = self.walk.as_ref().unwrap();
                (NodeName::new(w.cursor.name.0.as_str()), *next, w.left)
            },
            // Never taken: the pending step is the one `requires` names.
            _ => {
                return Err(VmError::DialogueNotStarted);
            },
        };
        self.walk_on(name, next, left)
    }

    /// Go on past the test the last walk stopped on, once the caller has
    /// evaluated it: to its body, or what follows, when it holds; to what
    /// follows it, or the next test, when not.
    pub fn tested(&mut self, holds: bool) -> (r: Result<Halt, VmError>)
        requires
            old(self).wf(),
            old(self).pending_at() matches Some(p) && step_of(old(self).nodes().unwrap(), p.0, p.1) is Branch,
        ensures
            ({
                let nodes = old(self).nodes().unwrap();
                let p = old(self).pending_at().unwrap();
                let s = step_of(nodes, p.0, p.1);
                final(self).walked(
                    nodes,
                    old(self).phase(),
                    walk_spec(nodes, p.0, if holds { s->Branch_1 } else { s->Branch_2 }, p.2),
                    r,
                )
            }),
    {
        let (name, next, left) = match self.pending() {
            StepKind::Branch { then, otherwise, .. } => {
                proof {
                    let ts = targets(step_of(self.nodes().unwrap(), self.pending_at().unwrap().0, self.pending_at().unwrap().1));
                    assert(ts[0] == *then);
                    assert(ts[1] == *otherwise);
                }
                let w = self.walk.as_ref().unwrap();
                (NodeName::new(w.cursor.name.0.as_str()), if holds { *then } else { *otherwise }, w.left)
            },
            // Never taken: the pending step is the one `requires` names.
            _ => {
                return Err(VmError::DialogueNotStarted);
            },
        };
        self.walk_on(name, next, left)
    }
}

impl DialogueVm {
    /// Go on past the test the last walk stopped on with what its condition
    /// evaluated to: as [`DialogueVm::tested`] says for a `bool`; for a
    /// value of another type, fail, naming that type, and change nothing.
    pub fn evaluated(&mut self, value: Condition) -> (r: Result<Halt, VmError>)
        requires
            old(self).wf(),
            old(self).pending_at() matches Some(p) && step_of(old(self).nodes().unwrap(), p.0, p.1) is Branch,
        ensures
            match value {
                Condition::Bool(holds) => {
                    let nodes = old(self).nodes().unwrap();
                    let p = old(self).pending_at().unwrap();
                    let s = step_of(nodes, p.0, p.1);
                    final(self).walked(
                        nodes,
                        old(self).phase(),
                        walk_spec(nodes, p.0, if holds { s->Branch_1 } else { s->Branch_2 }, p.2),
                        r,
                    )
                },
                Condition::Other(t) => r matches Err(VmError::ExprEvalError(EvalError::NotACondition(name)))
                    && name@ == value_type_name(t) && *final(self) == *old(self),
            },
    {
        match value {
            Condition::Bool(holds) => self.tested(holds),
            Condition::Other(t) => Err(VmError::ExprEvalError(EvalError::NotACondition(t.to_string()))),
        }
    }
}

impl Default for DialogueVm {
    fn default() -> (r: Self)
        ensures
            r.wf(),
            r.nodes() is None,
            r.phase() is NotStarted,
            r.pending_at() is None,
    {
        DialogueVm::new()
    }
}

/// What a line, a command or a choice waits on once shown.
fn suspension_of(kind: &StepKind) -> (r: SuspendedAt)
    requires
        shown(step_view(*kind)),
    ensures
        at_view(r) == suspension(step_view(*kind)),
{
    match kind {
        StepKind::Say { next, .. } => SuspendedAt::Line { next: *next },
        StepKind::Command { next, .. } => SuspendedAt::Command { next: *next },
        StepKind::Choice { choices } => {
            let ghost ts = targets(step_view(*kind));
            let mut out: Vec<StepId> = Vec::new();
            let mut k: usize = 0;
            while k < choices.len()
                invariant
                    k <= choices@.len(),
                    ts == targets(step_view(*kind)),
                    ts == crate::dialogue::defs_of(choices@).map_values(|d: (Seq<crate::dialogue::DPart>, StepId)| d.1),
                    ts.len() == choices@.len(),
                    out@ == ts.take(k as int),
                decreases choices@.len() - k,
            {
                proof {
                    let d = crate::dialogue::defs_of(choices@);
                    assert(d[k as int] == (crate::dialogue::parts_of(choices@[k as int].text@), choices@[k as int].target));
                    assert(ts[k as int] == choices@[k as int].target);
                }
                out.push(choices[k].target);
                proof {
                    assert(out@ =~= ts.take(k + 1));
                }
                k = k + 1;
            }
            proof {
                assert(out@ =~= ts);
            }
            SuspendedAt::Choice { targets: out }
        },
        _ => SuspendedAt::Line { next: StepId(0) },
    }
}

} // verus!
