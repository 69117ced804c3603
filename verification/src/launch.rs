//! Launching a command under an overlay: what is started, and what is done
//! about each thing that can happen to it.
//!
//! Starting a process and waiting for it are left to the caller. The caller
//! asks [`plan_launch`] what to start, reports what happened as a
//! [`LaunchEvent`], and does what [`launch_step`] answers.

use crate::error::{LaunchError, LaunchFault};
use crate::overlay::{bindings_map, key_order, lemma_overlaid_is_union, listed, Overlay};
use vstd::prelude::*;

verus! {

/// How a child ended.
#[derive(Debug, Clone, Copy, PartialEq, Eq)]
pub enum ProcessOutcome {
    /// The child ended by itself, with this exit code.
    Exited(i32),
    /// The child was ended from outside, by this signal where the system
    /// tells which.
    Killed(Option<i32>),
}

/// What is to be started: a program, its arguments, and the whole
/// environment it is to see.
pub struct LaunchPlan {
    pub program: String,
    pub arguments: Vec<String>,
    pub environment: Overlay,
}

/// Where a launch stands.
#[derive(Debug, Clone, Copy, PartialEq, Eq)]
pub enum LaunchState {
    /// The program is being started.
    Starting,
    /// The child runs and is waited for.
    Waiting,
    /// Nothing is left to do.
    Finished,
}

/// What happened to a launch.
#[derive(Debug)]
pub enum LaunchEvent {
    /// The system started the program.
    Started,
    /// The system did not start the program; the text says why.
    Refused(String),
    /// The child ended.
    Ended(ProcessOutcome),
    /// Waiting for the child failed, so how it ended is not known; the text
    /// says why.
    Lost(String),
}

/// A [`LaunchEvent`] with its cause as text.
pub enum LaunchEventText {
    Started,
    Refused(Seq<char>),
    Ended(ProcessOutcome),
    Lost(Seq<char>),
}

impl View for LaunchEvent {
    type V = LaunchEventText;

    open spec fn view(&self) -> LaunchEventText {
        match self {
            LaunchEvent::Started => LaunchEventText::Started,
            LaunchEvent::Refused(cause) => LaunchEventText::Refused(cause@),
            LaunchEvent::Ended(outcome) => LaunchEventText::Ended(*outcome),
            LaunchEvent::Lost(cause) => LaunchEventText::Lost(cause@),
        }
    }
}

/// What the caller is to do next.
#[derive(Debug)]
pub enum LaunchAction {
    /// Wait until the child ends, and report how it did.
    Wait,
    /// Stop: this is the result of the launch.
    Report(Result<ProcessOutcome, LaunchError>),
}

/// A [`LaunchAction`] with its cause as text.
pub enum LaunchActionText {
    Wait,
    Report(Result<ProcessOutcome, LaunchFault>),
}

impl View for LaunchAction {
    type V = LaunchActionText;

    open spec fn view(&self) -> LaunchActionText {
        match self {
            LaunchAction::Wait => LaunchActionText::Wait,
            LaunchAction::Report(Ok(outcome)) => LaunchActionText::Report(Ok(*outcome)),
            LaunchAction::Report(Err(error)) => LaunchActionText::Report(Err(error@)),
        }
    }
}

/// The environment of the child: what the parent holds, with every binding
/// of the overlay added or put in place of the parent's.
pub open spec fn child_bindings(
    parent: Seq<(Seq<char>, Seq<char>)>,
    overlay: Map<Seq<char>, Seq<char>>,
) -> Map<Seq<char>, Seq<char>> {
    bindings_map(parent).union_prefer_right(overlay)
}

/// The variables of the child in sequence: those of the parent as they are
/// first listed, then those that only the overlay names, in its sequence.
pub open spec fn child_keys(parent: Seq<(Seq<char>, Seq<char>)>, overlay: Seq<Seq<char>>) -> Seq<
    Seq<char>,
> {
    listed(key_order(parent), overlay)
}

/// What follows an event in a state: the next state and what to do, or
/// `None` where the event cannot occur in that state.
///
/// A program that was refused is never waited for, the outcome of a child
/// is handed on as it came, and a wait that failed is reported as a failure
/// of its own, not as an outcome.
pub open spec fn next_step(state: LaunchState, event: LaunchEventText) -> Option<
    (LaunchState, LaunchActionText),
> {
    match (state, event) {
        (LaunchState::Starting, LaunchEventText::Started) => Some(
            (LaunchState::Waiting, LaunchActionText::Wait),
        ),
        (LaunchState::Starting, LaunchEventText::Refused(cause)) => Some(
            (LaunchState::Finished, LaunchActionText::Report(Err(LaunchFault::SpawnFailed(cause)))),
        ),
        (LaunchState::Waiting, LaunchEventText::Ended(outcome)) => Some(
            (LaunchState::Finished, LaunchActionText::Report(Ok(outcome))),
        ),
        (LaunchState::Waiting, LaunchEventText::Lost(cause)) => Some(
            (LaunchState::Finished, LaunchActionText::Report(Err(LaunchFault::WaitFailed(cause)))),
        ),
        _ => None,
    }
}

/// Lays `overlay` over the environment of the parent.
///
/// Variables of the parent that the overlay does not name pass through
/// unchanged. Where the parent lists a variable twice, its last value
/// counts.
pub fn child_environment(parent: &Vec<(String, String)>, overlay: &Overlay) -> (child: Overlay)
    ensures
        child@ == child_bindings(parent.deep_view(), overlay@),
        child.keys() == child_keys(parent.deep_view(), overlay.keys()),
{
    let mut child = Overlay::new();
    child.extend(parent);
    let added = overlay.entries();
    child.extend(&added);
    proof {
        lemma_overlaid_is_union(bindings_map(parent.deep_view()), added.deep_view());
    }
    child
}

/// Decides what is to be started for `command` under `overlay`.
///
/// Fails with `EmptyCommand` exactly when the command has no element.
/// Otherwise the first element is the program, the others are its arguments
/// in their sequence, and the environment is that of [`child_environment`].
pub fn plan_launch(command: &Vec<String>, parent: &Vec<(String, String)>, overlay: &Overlay) -> (plan:
    Result<LaunchPlan, LaunchError>)
    ensures
        command.len() == 0 ==> plan == Err::<LaunchPlan, _>(LaunchError::EmptyCommand),
        command.len() > 0 ==> {
            &&& plan matches Ok(start)
            &&& start.program@ == command.deep_view()[0]
            &&& start.arguments.deep_view() == command.deep_view().skip(1)
            &&& start.environment@ == child_bindings(parent.deep_view(), overlay@)
            &&& start.environment.keys() == child_keys(parent.deep_view(), overlay.keys())
        },
{
    if command.len() == 0 {
        return Err(LaunchError::EmptyCommand);
    }
    let mut arguments: Vec<String> = Vec::new();
    let mut i: usize = 1;
    assert(arguments.deep_view() =~= command.deep_view().subrange(1, 1));
    while i < command.len()
        invariant
            1 <= i <= command.len(),
            arguments.deep_view() == command.deep_view().subrange(1, i as int),
        decreases command.len() - i,
    {
        let ghost before = arguments.deep_view();
        arguments.push(command[i].clone());
        assert(arguments.deep_view() =~= before.push(command.deep_view()[i as int]));
        assert(arguments.deep_view() =~= command.deep_view().subrange(1, i + 1));
        i += 1;
    }
    assert(arguments.deep_view() =~= command.deep_view().skip(1));
    Ok(
        LaunchPlan {
            program: command[0].clone(),
            arguments,
            environment: child_environment(parent, overlay),
        },
    )
}

/// Answers an event: the next state and what the caller is to do, or `None`
/// where the event cannot occur in that state.
pub fn launch_step(state: LaunchState, event: LaunchEvent) -> (step: Option<
    (LaunchState, LaunchAction),
>)
    ensures
        match next_step(state, event@) {
            Some((next, action)) => step matches Some((to, act)) && to == next && act@ == action,
            None => step is None,
        },
{
    match state {
        LaunchState::Starting => match event {
            LaunchEvent::Started => Some((LaunchState::Waiting, LaunchAction::Wait)),
            LaunchEvent::Refused(cause) => Some(
                (LaunchState::Finished, LaunchAction::Report(Err(LaunchError::SpawnFailed(cause)))),
            ),
            _ => None,
        },
        LaunchState::Waiting => match event {
            LaunchEvent::Ended(outcome) => Some(
                (LaunchState::Finished, LaunchAction::Report(Ok(outcome))),
            ),
            LaunchEvent::Lost(cause) => Some(
                (LaunchState::Finished, LaunchAction::Report(Err(LaunchError::WaitFailed(cause)))),
            ),
            _ => None,
        },
        LaunchState::Finished => None,
    }
}

/// The caller is told to wait in one case only: the program was being
/// started, and it did start. So a program that was refused is not waited
/// for, and nothing is waited for twice.
pub proof fn lemma_wait_follows_start_only(state: LaunchState, event: LaunchEventText)
    ensures
        (next_step(state, event) matches Some((_, action)) && action is Wait) <==> (state
            is Starting && event is Started),
{
}

/// A refusal ends the launch: it is reported as `SpawnFailed` with its
/// cause, and whatever is reported after that is answered by `None`.
pub proof fn lemma_refusal_ends_launch(cause: Seq<char>, later: LaunchEventText)
    ensures
        next_step(LaunchState::Starting, LaunchEventText::Refused(cause)) == Some(
            (LaunchState::Finished, LaunchActionText::Report(Err(LaunchFault::SpawnFailed(cause)))),
        ),
        next_step(LaunchState::Finished, later) is None,
{
}

/// The outcome of the child is reported as it came, and a wait that failed
/// is reported as `WaitFailed` with its cause.
pub proof fn lemma_outcome_is_handed_on(outcome: ProcessOutcome, cause: Seq<char>)
    ensures
        next_step(LaunchState::Waiting, LaunchEventText::Ended(outcome)) == Some(
            (LaunchState::Finished, LaunchActionText::Report(Ok(outcome))),
        ),
        next_step(LaunchState::Waiting, LaunchEventText::Lost(cause)) == Some(
            (LaunchState::Finished, LaunchActionText::Report(Err(LaunchFault::WaitFailed(cause)))),
        ),
{
}

/// An outcome is reported in one case only: the child was waited for, and
/// it ended. Nothing else is ever passed off as the outcome of a child.
pub proof fn lemma_outcome_comes_from_the_child(state: LaunchState, event: LaunchEventText)
    ensures
        (next_step(state, event) matches Some((_, LaunchActionText::Report(Ok(_))))) <==> (state
            is Waiting && event is Ended),
{
}

} // verus!
