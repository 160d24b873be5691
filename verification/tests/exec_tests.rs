use nur::commands::task::{
    aggregate_results, dry_run_lines, executor_begin, executor_finish, Runner, RunnerCmd,
    SpawnOutcome,
};
use nur::nurfile::{env_overlay, lookup_env, NurCommand, NurTask};
use nur::{Error, ExitStatus, TaskError, TaskResult, TaskStatus};

fn cmd(sh: &str) -> NurCommand {
    NurCommand { env: Vec::new(), sh: sh.to_string(), ignore_result: false }
}

fn task_with(cmds: Vec<NurCommand>) -> NurTask {
    NurTask {
        env: Vec::new(),
        description: String::new(),
        dependencies: Vec::new(),
        commands: cmds,
        cancellable: true,
    }
}

fn exited(code: i32) -> SpawnOutcome {
    SpawnOutcome::Exited { status: ExitStatus { code: Some(code) } }
}

#[test]
fn single_echo_runs_to_completion() {
    // Scenario: one task with `echo hi`; it spawns once and completes.
    let mut runner = Runner::new(task_with(vec![cmd("echo hi")]));
    match runner.poll(false) {
        RunnerCmd::Spawn { sh, env, cancellable } => {
            assert_eq!(sh, "echo hi");
            assert!(env.is_empty());
            assert!(cancellable);
        }
        RunnerCmd::Finish { .. } => panic!("expected a spawn"),
    }
    assert!(!runner.report(exited(0)));
    match runner.poll(false) {
        RunnerCmd::Finish { result } => assert!(matches!(result, Ok(TaskResult::RanToCompletion))),
        RunnerCmd::Spawn { .. } => panic!("expected completion"),
    }
}

#[test]
fn commands_run_in_order() {
    let mut runner = Runner::new(task_with(vec![cmd("echo one"), cmd("echo two")]));
    match runner.poll(false) {
        RunnerCmd::Spawn { sh, .. } => assert_eq!(sh, "echo one"),
        _ => panic!("expected a spawn"),
    }
    runner.report(exited(0));
    match runner.poll(false) {
        RunnerCmd::Spawn { sh, .. } => assert_eq!(sh, "echo two"),
        _ => panic!("expected a spawn"),
    }
    runner.report(exited(0));
    match runner.poll(false) {
        RunnerCmd::Finish { result } => assert!(matches!(result, Ok(TaskResult::RanToCompletion))),
        _ => panic!("expected completion"),
    }
}

#[test]
fn failure_cancels_and_reports() {
    // Scenario: `exit 1` fails the task, asks for lateral cancellation, and
    // the executor wraps the error with the task's name.
    let mut runner = Runner::new(task_with(vec![cmd("exit 1")]));
    match runner.poll(false) {
        RunnerCmd::Spawn { sh, .. } => assert_eq!(sh, "exit 1"),
        _ => panic!("expected a spawn"),
    }
    let cancel = runner.report(exited(1));
    assert!(cancel, "a non-ignored non-zero exit must set the token");
    let result = match runner.poll(false) {
        RunnerCmd::Finish { result } => result,
        _ => panic!("expected a failure"),
    };
    match &result {
        Err(TaskError::Failed { command, exit_status }) => {
            assert_eq!(command, "exit 1");
            assert_eq!(exit_status.code, Some(1));
        }
        other => panic!("expected the shell failure, got {:?}", other),
    }
    let fin = executor_finish(&"fail".to_string(), result);
    assert!(!fin.trigger_done);
    match fin.outcome {
        Err(Error::TaskFailed { task_name, .. }) => assert_eq!(task_name, "fail"),
        other => panic!("expected a task failure, got {:?}", other),
    }
}

#[test]
fn cancelled_token_stops_spawning() {
    // Scenario: once the token is set, no further command is spawned.
    let mut runner = Runner::new(task_with(vec![cmd("echo one"), cmd("echo never")]));
    match runner.poll(false) {
        RunnerCmd::Spawn { .. } => {}
        _ => panic!("expected a spawn"),
    }
    runner.report(exited(0));
    match runner.poll(true) {
        RunnerCmd::Finish { result } => assert!(matches!(result, Ok(TaskResult::Cancelled))),
        RunnerCmd::Spawn { .. } => panic!("no command may spawn after cancellation"),
    }
}

#[test]
fn cancellation_during_wait() {
    let mut runner = Runner::new(task_with(vec![cmd("sleep 60")]));
    match runner.poll(false) {
        RunnerCmd::Spawn { .. } => {}
        _ => panic!("expected a spawn"),
    }
    assert!(!runner.report(SpawnOutcome::Cancelled));
    match runner.poll(false) {
        RunnerCmd::Finish { result } => assert!(matches!(result, Ok(TaskResult::Cancelled))),
        _ => panic!("expected cancellation"),
    }
}

#[test]
fn ignored_failure_continues() {
    let mut runner = Runner::new(task_with(vec![
        NurCommand { env: Vec::new(), sh: "exit 3".to_string(), ignore_result: true },
        cmd("echo after"),
    ]));
    match runner.poll(false) {
        RunnerCmd::Spawn { .. } => {}
        _ => panic!("expected a spawn"),
    }
    let cancel = runner.report(exited(3));
    assert!(!cancel, "an ignored failure must not cancel the run");
    match runner.poll(false) {
        RunnerCmd::Spawn { sh, .. } => assert_eq!(sh, "echo after"),
        _ => panic!("the next command must still run"),
    }
}

#[test]
fn spawn_and_wait_failures() {
    let mut runner = Runner::new(task_with(vec![cmd("echo hi")]));
    runner.poll(false);
    runner.report(SpawnOutcome::SpawnFailed { kind: "not found".to_string() });
    match runner.poll(false) {
        RunnerCmd::Finish { result } => match result {
            Err(TaskError::ExecutableError { executable, kind }) => {
                assert_eq!(executable, "/bin/sh");
                assert_eq!(kind, "not found");
            }
            other => panic!("expected a start error, got {:?}", other),
        },
        _ => panic!("expected a failure"),
    }

    let mut runner = Runner::new(task_with(vec![cmd("echo hi")]));
    runner.poll(false);
    runner.report(SpawnOutcome::WaitFailed { kind: "interrupted".to_string() });
    match runner.poll(false) {
        RunnerCmd::Finish { result } => {
            assert!(matches!(result, Err(TaskError::ExecutableWaitFailure { .. })));
        }
        _ => panic!("expected a failure"),
    }
}

#[test]
fn skipped_task_emits_only_finished() {
    // A dropped upstream signal means the task reports Skipped and nothing
    // else; an intact upstream means it starts.
    let (msg, run) = executor_begin(7, false);
    assert_eq!(msg.0, 7);
    assert!(!run);
    match msg.1 {
        TaskStatus::Finished { result } => assert!(matches!(result, Ok(TaskResult::Skipped))),
        other => panic!("expected a skip, got {:?}", other),
    }
    let (msg, run) = executor_begin(3, true);
    assert!(run);
    assert!(matches!(msg.1, TaskStatus::Started {}));
}

#[test]
fn completion_triggers_dep_done() {
    let fin = executor_finish(&"a".to_string(), Ok(TaskResult::RanToCompletion));
    assert!(fin.trigger_done);
    assert!(matches!(fin.outcome, Ok(TaskResult::RanToCompletion)));
    let fin = executor_finish(&"a".to_string(), Ok(TaskResult::Cancelled));
    assert!(!fin.trigger_done);
    let fin = executor_finish(&"a".to_string(), Ok(TaskResult::Skipped));
    assert!(!fin.trigger_done);
}

#[test]
fn env_precedence() {
    // Scenario: command env overrides task env; task env fills the rest.
    let task_env = vec![
        ("K".to_string(), "T".to_string()),
        ("J".to_string(), "t".to_string()),
    ];
    let cmd_env = vec![("K".to_string(), "C".to_string())];
    let overlay = env_overlay(&task_env, &cmd_env);
    assert_eq!(lookup_env(&overlay, &"K".to_string()), Some("C".to_string()));
    assert_eq!(lookup_env(&overlay, &"J".to_string()), Some("t".to_string()));
    assert_eq!(lookup_env(&overlay, &"HOME".to_string()), None);
}

#[test]
fn runner_hands_out_overlaid_env() {
    let task = NurTask {
        env: vec![("K".to_string(), "T".to_string()), ("J".to_string(), "t".to_string())],
        description: String::new(),
        dependencies: Vec::new(),
        commands: vec![NurCommand {
            env: vec![("K".to_string(), "C".to_string())],
            sh: "env".to_string(),
            ignore_result: false,
        }],
        cancellable: true,
    };
    let mut runner = Runner::new(task);
    match runner.poll(false) {
        RunnerCmd::Spawn { env, .. } => {
            assert_eq!(lookup_env(&env, &"K".to_string()), Some("C".to_string()));
            assert_eq!(lookup_env(&env, &"J".to_string()), Some("t".to_string()));
        }
        _ => panic!("expected a spawn"),
    }
}

#[test]
fn aggregation_of_failures() {
    assert!(aggregate_results(vec![Ok(TaskResult::RanToCompletion), Ok(TaskResult::Skipped)])
        .is_ok());

    let one = aggregate_results(vec![
        Ok(TaskResult::RanToCompletion),
        Err(Error::NoSuchTask { task_name: "a".to_string() }),
    ]);
    match one {
        Err(Error::NoSuchTask { task_name }) => assert_eq!(task_name, "a"),
        other => panic!("expected the lone error, got {:?}", other),
    }

    let many = aggregate_results(vec![
        Err(Error::NoSuchTask { task_name: "a".to_string() }),
        Ok(TaskResult::Cancelled),
        Err(Error::NoSuchTask { task_name: "b".to_string() }),
    ]);
    match many {
        Err(Error::Multiple { failures }) => {
            assert_eq!(failures.len(), 2);
            assert!(matches!(&failures[0], Error::NoSuchTask { task_name } if task_name == "a"));
            assert!(matches!(&failures[1], Error::NoSuchTask { task_name } if task_name == "b"));
        }
        other => panic!("expected multiple failures, got {:?}", other),
    }
}

#[test]
fn dry_run_listing() {
    let plan = vec!["a".to_string(), "b".to_string()];
    let lines = dry_run_lines(&plan);
    assert_eq!(
        lines,
        vec![
            "Would run tasks in the following order:".to_string(),
            "- a".to_string(),
            "- b".to_string()
        ]
    );
}
