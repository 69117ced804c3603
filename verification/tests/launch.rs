use ssm_env::error::{LaunchError, ResolutionError};
use ssm_env::launch::{
    child_environment, launch_step, plan_launch, LaunchAction, LaunchEvent, LaunchState,
    ProcessOutcome,
};
use ssm_env::overlay::Overlay;
use ssm_env::report::{
    launch_exit_code, launch_message, launch_result_exit_code, outcome_exit_code,
    resolution_exit_code, resolution_message, EXIT_KILLED, EXIT_NO_COMMAND,
    EXIT_RESOLUTION_FAILED, EXIT_SPAWN_FAILED, EXIT_WAIT_FAILED,
};

fn strings(items: &[&str]) -> Vec<String> {
    items.iter().map(|item| item.to_string()).collect()
}

fn pair(key: &str, value: &str) -> (String, String) {
    (key.to_string(), value.to_string())
}

fn overlay_of(pairs: &[(&str, &str)]) -> Overlay {
    let mut overlay = Overlay::new();
    for (key, value) in pairs {
        overlay.insert(key.to_string(), value.to_string());
    }
    overlay
}

fn run(command: &[&str], overlay: &Overlay, events: Vec<LaunchEvent>) -> (Vec<String>, i32) {
    let mut trace = Vec::new();
    let result = match plan_launch(&strings(command), &Vec::new(), overlay) {
        Err(error) => Err(error),
        Ok(_) => {
            let mut state = LaunchState::Starting;
            let mut result = None;
            for event in events {
                match launch_step(state, event) {
                    None => trace.push("ignored".to_string()),
                    Some((next, LaunchAction::Wait)) => {
                        trace.push("wait".to_string());
                        state = next;
                    }
                    Some((next, LaunchAction::Report(report))) => {
                        trace.push("report".to_string());
                        state = next;
                        result = Some(report);
                    }
                }
            }
            result.unwrap()
        }
    };
    (trace, launch_result_exit_code(&result))
}

#[test]
fn printenv_is_planned_with_the_overlay_and_exits_with_zero() {
    let overlay = overlay_of(&[("FOO", "bar")]);
    let parent = vec![pair("PATH", "/bin")];
    let plan = plan_launch(&strings(&["printenv", "FOO"]), &parent, &overlay).unwrap();
    assert_eq!(plan.program, "printenv");
    assert_eq!(plan.arguments, strings(&["FOO"]));
    assert_eq!(plan.environment.get("FOO"), Some(&"bar".to_string()));
    assert_eq!(plan.environment.entries(), vec![pair("PATH", "/bin"), pair("FOO", "bar")]);
    let events = vec![LaunchEvent::Started, LaunchEvent::Ended(ProcessOutcome::Exited(0))];
    assert_eq!(run(&["printenv", "FOO"], &overlay, events), (strings(&["wait", "report"]), 0));
}

#[test]
fn exit_code_of_the_child_is_the_exit_code_of_the_run() {
    let overlay = Overlay::new();
    let events = vec![LaunchEvent::Started, LaunchEvent::Ended(ProcessOutcome::Exited(7))];
    assert_eq!(run(&["sh", "-c", "exit 7"], &overlay, events), (strings(&["wait", "report"]), 7));
    let plan = plan_launch(&strings(&["sh", "-c", "exit 7"]), &Vec::new(), &overlay).unwrap();
    assert_eq!(plan.program, "sh");
    assert_eq!(plan.arguments, strings(&["-c", "exit 7"]));
    assert!(plan.environment.is_empty());
}

#[test]
fn a_program_that_does_not_start_is_not_waited_for() {
    let overlay = Overlay::new();
    let events = vec![LaunchEvent::Refused("No such file or directory".to_string())];
    assert_eq!(
        run(&["/does/not/exist"], &overlay, events),
        (strings(&["report"]), EXIT_SPAWN_FAILED)
    );
    let step = launch_step(LaunchState::Starting, LaunchEvent::Refused("denied".to_string()));
    match step {
        Some((LaunchState::Finished, LaunchAction::Report(Err(error)))) => {
            assert_eq!(error, LaunchError::SpawnFailed("denied".to_string()));
        }
        other => panic!("unexpected step: {:?}", other),
    }
}

#[test]
fn a_wait_that_fails_is_a_failure_of_its_own() {
    let overlay = Overlay::new();
    let events = vec![LaunchEvent::Started, LaunchEvent::Lost("Interrupted".to_string())];
    assert_eq!(run(&["sleep", "1"], &overlay, events), (strings(&["wait", "report"]), 1));
    match launch_step(LaunchState::Waiting, LaunchEvent::Lost("Interrupted".to_string())) {
        Some((LaunchState::Finished, LaunchAction::Report(Err(error)))) => {
            assert_eq!(error, LaunchError::WaitFailed("Interrupted".to_string()));
            assert_eq!(launch_exit_code(&error), EXIT_WAIT_FAILED);
            assert_eq!(launch_message(&error), "failed to wait for the command: Interrupted");
        }
        other => panic!("unexpected step: {:?}", other),
    }
}

#[test]
fn an_empty_command_is_refused_before_anything_starts() {
    let overlay = overlay_of(&[("A", "1")]);
    let plan = plan_launch(&Vec::new(), &vec![pair("P", "1")], &overlay);
    assert_eq!(plan.err(), Some(LaunchError::EmptyCommand));
    assert_eq!(run(&[], &overlay, Vec::new()), (Vec::new(), EXIT_NO_COMMAND));
}

#[test]
fn a_command_of_one_word_has_no_arguments() {
    let plan = plan_launch(&strings(&["true"]), &Vec::new(), &Overlay::new()).unwrap();
    assert_eq!(plan.program, "true");
    assert_eq!(plan.arguments, Vec::<String>::new());
}

#[test]
fn events_out_of_turn_are_answered_by_none() {
    let ended = || LaunchEvent::Ended(ProcessOutcome::Exited(0));
    let refused = || LaunchEvent::Refused("x".to_string());
    let lost = || LaunchEvent::Lost("x".to_string());
    assert!(launch_step(LaunchState::Starting, lost()).is_none());
    assert!(launch_step(LaunchState::Finished, lost()).is_none());
    assert!(launch_step(LaunchState::Starting, ended()).is_none());
    assert!(launch_step(LaunchState::Waiting, LaunchEvent::Started).is_none());
    assert!(launch_step(LaunchState::Waiting, refused()).is_none());
    assert!(launch_step(LaunchState::Finished, LaunchEvent::Started).is_none());
    assert!(launch_step(LaunchState::Finished, refused()).is_none());
    assert!(launch_step(LaunchState::Finished, ended()).is_none());
}

#[test]
fn outcome_is_reported_as_it_came() {
    for outcome in [
        ProcessOutcome::Exited(0),
        ProcessOutcome::Exited(255),
        ProcessOutcome::Exited(-1),
        ProcessOutcome::Killed(Some(9)),
        ProcessOutcome::Killed(None),
    ] {
        match launch_step(LaunchState::Waiting, LaunchEvent::Ended(outcome)) {
            Some((LaunchState::Finished, LaunchAction::Report(Ok(reported)))) => {
                assert_eq!(reported, outcome)
            }
            other => panic!("unexpected step: {:?}", other),
        }
    }
    match launch_step(LaunchState::Starting, LaunchEvent::Started) {
        Some((LaunchState::Waiting, LaunchAction::Wait)) => {}
        other => panic!("unexpected step: {:?}", other),
    }
}

#[test]
fn overlay_is_laid_over_the_environment_of_the_parent() {
    let parent = vec![pair("HOME", "/root"), pair("FOO", "old"), pair("HOME", "/home")];
    let overlay = overlay_of(&[("FOO", "bar"), ("NEW", "1")]);
    let child = child_environment(&parent, &overlay);
    assert_eq!(child.entries(), vec![pair("HOME", "/home"), pair("FOO", "bar"), pair("NEW", "1")]);
    let untouched = child_environment(&parent, &Overlay::new());
    assert_eq!(untouched.entries(), vec![pair("HOME", "/home"), pair("FOO", "old")]);
    let alone = child_environment(&Vec::new(), &overlay);
    assert_eq!(alone.entries(), overlay.entries());
}

#[test]
fn exit_codes_of_outcomes() {
    assert_eq!(outcome_exit_code(ProcessOutcome::Exited(0)), 0);
    assert_eq!(outcome_exit_code(ProcessOutcome::Exited(7)), 7);
    assert_eq!(outcome_exit_code(ProcessOutcome::Exited(-3)), -3);
    assert_eq!(outcome_exit_code(ProcessOutcome::Killed(Some(9))), 137);
    assert_eq!(outcome_exit_code(ProcessOutcome::Killed(Some(1))), 129);
    assert_eq!(outcome_exit_code(ProcessOutcome::Killed(Some(127))), 255);
    assert_eq!(outcome_exit_code(ProcessOutcome::Killed(Some(128))), 128);
    assert_eq!(outcome_exit_code(ProcessOutcome::Killed(Some(0))), 128);
    assert_eq!(outcome_exit_code(ProcessOutcome::Killed(Some(-4))), 128);
    assert_eq!(outcome_exit_code(ProcessOutcome::Killed(Some(i32::MAX))), 128);
    assert_eq!(outcome_exit_code(ProcessOutcome::Killed(None)), EXIT_KILLED);
}

#[test]
fn exit_codes_of_errors_tell_the_kinds_apart() {
    let not_found = resolution_exit_code(&ResolutionError::NotFound);
    let malformed = resolution_exit_code(&ResolutionError::Malformed("/p".to_string()));
    let invalid =
        resolution_exit_code(&ResolutionError::InvalidValue("/p".to_string(), "A".to_string()));
    let empty = launch_exit_code(&LaunchError::EmptyCommand);
    let spawn = launch_exit_code(&LaunchError::SpawnFailed("x".to_string()));
    let wait = launch_exit_code(&LaunchError::WaitFailed("x".to_string()));
    assert_eq!(wait, 1);
    assert_ne!(wait, not_found);
    assert_ne!(wait, spawn);
    assert_ne!(wait, empty);
    assert_eq!(not_found, 78);
    assert_eq!(not_found, EXIT_RESOLUTION_FAILED);
    assert_eq!(malformed, 78);
    assert_eq!(invalid, 78);
    assert_eq!(empty, 64);
    assert_eq!(spawn, 126);
    assert_ne!(not_found, spawn);
    assert_ne!(not_found, empty);
    assert_ne!(spawn, empty);
    assert_eq!(launch_result_exit_code(&Ok(ProcessOutcome::Exited(3))), 3);
    assert_eq!(launch_result_exit_code(&Err(LaunchError::EmptyCommand)), 64);
}

#[test]
fn messages_name_what_is_at_fault() {
    assert_eq!(resolution_message(&ResolutionError::NotFound), "no parameters were found");
    assert_eq!(
        resolution_message(&ResolutionError::Malformed("/app/config".to_string())),
        "invalid JSON in parameter `/app/config`"
    );
    assert_eq!(
        resolution_message(&ResolutionError::InvalidValue("/p".to_string(), "A".to_string())),
        "value of `A` in parameter `/p` is not a string"
    );
    assert_eq!(launch_message(&LaunchError::EmptyCommand), "no command was given");
    assert_eq!(
        launch_message(&LaunchError::SpawnFailed("No such file or directory".to_string())),
        "failed to start the command: No such file or directory"
    );
}
