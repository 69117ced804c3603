//! How a run ends: its exit code, and what it says when it fails.

use crate::error::{LaunchError, LaunchFault, ResolutionError, ResolutionFault};
use crate::launch::ProcessOutcome;
use vstd::prelude::*;
use vstd::string::StringExecFns;

verus! {

/// The exit code of a run that could not wait for its child.
pub const EXIT_WAIT_FAILED: i32 = 1;

/// The exit code of a run that was given no command.
pub const EXIT_NO_COMMAND: i32 = 64;

/// The exit code of a run whose parameters did not resolve.
pub const EXIT_RESOLUTION_FAILED: i32 = 78;

/// The exit code of a run whose program could not be started.
pub const EXIT_SPAWN_FAILED: i32 = 126;

/// What is added to the number of a signal to make the exit code of a run
/// whose child was ended by that signal; also that exit code where the signal
/// is not known.
pub const EXIT_KILLED: i32 = 128;

/// The exit code that stands for the outcome of the child: its own exit code
/// where it gave one. A child ended by a signal from 1 to 127 gives 128 more
/// than the signal, any other child ended from outside gives 128.
pub open spec fn outcome_code(outcome: ProcessOutcome) -> int {
    match outcome {
        ProcessOutcome::Exited(code) => code as int,
        ProcessOutcome::Killed(Some(signal)) => if 1 <= signal <= 127 {
            EXIT_KILLED + signal
        } else {
            EXIT_KILLED as int
        },
        ProcessOutcome::Killed(None) => EXIT_KILLED as int,
    }
}

/// The exit code that stands for a failed launch.
pub open spec fn launch_fault_code(fault: LaunchFault) -> int {
    match fault {
        LaunchFault::EmptyCommand => EXIT_NO_COMMAND as int,
        LaunchFault::SpawnFailed(_) => EXIT_SPAWN_FAILED as int,
        LaunchFault::WaitFailed(_) => EXIT_WAIT_FAILED as int,
    }
}

/// What a failed resolution says.
pub open spec fn resolution_fault_text(fault: ResolutionFault) -> Seq<char> {
    match fault {
        ResolutionFault::NotFound => "no parameters were found"@,
        ResolutionFault::Malformed(name) => "invalid JSON in parameter `"@ + name + "`"@,
        ResolutionFault::InvalidValue(name, key) => "value of `"@ + key + "` in parameter `"@ + name
            + "` is not a string"@,
    }
}

/// What a failed launch says.
pub open spec fn launch_fault_text(fault: LaunchFault) -> Seq<char> {
    match fault {
        LaunchFault::EmptyCommand => "no command was given"@,
        LaunchFault::SpawnFailed(cause) => "failed to start the command: "@ + cause,
        LaunchFault::WaitFailed(cause) => "failed to wait for the command: "@ + cause,
    }
}

/// The exit code with which a run ends after its child ended.
pub fn outcome_exit_code(outcome: ProcessOutcome) -> (code: i32)
    ensures
        code == outcome_code(outcome),
        outcome matches ProcessOutcome::Exited(own) ==> code == own,
{
    match outcome {
        ProcessOutcome::Exited(code) => code,
        ProcessOutcome::Killed(Some(signal)) => if 1 <= signal && signal <= 127 {
            EXIT_KILLED + signal
        } else {
            EXIT_KILLED
        },
        ProcessOutcome::Killed(None) => EXIT_KILLED,
    }
}

/// The exit code with which a run ends when its parameters did not resolve.
/// It is the same for every such error, is not zero, and differs from the
/// codes of a failed launch.
pub fn resolution_exit_code(error: &ResolutionError) -> (code: i32)
    ensures
        code == EXIT_RESOLUTION_FAILED,
        code != 0,
        code != EXIT_NO_COMMAND && code != EXIT_SPAWN_FAILED && code != EXIT_WAIT_FAILED,
{
    EXIT_RESOLUTION_FAILED
}

/// The exit code with which a run ends when the launch failed. It is not
/// zero, and tells apart a missing command, a program that did not start and
/// a child that could not be waited for.
pub fn launch_exit_code(error: &LaunchError) -> (code: i32)
    ensures
        code == launch_fault_code(error@),
        code != 0,
        code != EXIT_RESOLUTION_FAILED,
{
    match error {
        LaunchError::EmptyCommand => EXIT_NO_COMMAND,
        LaunchError::SpawnFailed(_) => EXIT_SPAWN_FAILED,
        LaunchError::WaitFailed(_) => EXIT_WAIT_FAILED,
    }
}

/// The exit code of a run, from the result of its launch.
pub fn launch_result_exit_code(result: &Result<ProcessOutcome, LaunchError>) -> (code: i32)
    ensures
        match result {
            Ok(outcome) => code == outcome_code(*outcome),
            Err(error) => code == launch_fault_code(error@),
        },
{
    match result {
        Ok(outcome) => outcome_exit_code(*outcome),
        Err(error) => launch_exit_code(error),
    }
}

/// What a run says when its parameters did not resolve: the fault, with the
/// name of the parameter and the key at fault.
pub fn resolution_message(error: &ResolutionError) -> (message: String)
    ensures
        message@ == resolution_fault_text(error@),
{
    match error {
        ResolutionError::NotFound => String::from_str("no parameters were found"),
        ResolutionError::Malformed(name) => {
            let mut message = String::from_str("invalid JSON in parameter `");
            message.append(name.as_str());
            message.append("`");
            message
        },
        ResolutionError::InvalidValue(name, key) => {
            let mut message = String::from_str("value of `");
            message.append(key.as_str());
            message.append("` in parameter `");
            message.append(name.as_str());
            message.append("` is not a string");
            message
        },
    }
}

/// What a run says when the launch failed: the fault, with its cause.
pub fn launch_message(error: &LaunchError) -> (message: String)
    ensures
        message@ == launch_fault_text(error@),
{
    match error {
        LaunchError::EmptyCommand => String::from_str("no command was given"),
        LaunchError::SpawnFailed(cause) => {
            let mut message = String::from_str("failed to start the command: ");
            message.append(cause.as_str());
            message
        },
        LaunchError::WaitFailed(cause) => {
            let mut message = String::from_str("failed to wait for the command: ");
            message.append(cause.as_str());
            message
        },
    }
}

} // verus!
