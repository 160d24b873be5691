use nur::commands::Task;
use nur::nurfile::{NurCommand, NurFile, NurTask, Options};
use nur::version::Version;
use nur::{Cycle, Error};

fn cmd(sh: &str) -> NurCommand {
    NurCommand { env: Vec::new(), sh: sh.to_string(), ignore_result: false }
}

fn task(deps: &[&str], cmds: &[&str]) -> NurTask {
    NurTask {
        env: Vec::new(),
        description: String::new(),
        dependencies: deps.iter().map(|d| d.to_string()).collect(),
        commands: cmds.iter().map(|c| cmd(c)).collect(),
        cancellable: true,
    }
}

fn config(tasks: Vec<(&str, NurTask)>) -> NurFile {
    NurFile {
        version: Version { major: 0, minor: 1 },
        options: Options::default(),
        lets: Vec::new(),
        tasks: tasks.into_iter().map(|(n, t)| (n.to_string(), t)).collect(),
        env: Vec::new(),
    }
}

fn run_command(roots: &[&str]) -> Task {
    Task {
        dry_run: false,
        nur_file: None,
        task_names: roots.iter().map(|r| r.to_string()).collect(),
        output_override: None,
    }
}

#[test]
fn dependency_ordering() {
    // Scenario: `b` depends on `a`; requesting `b` runs `a` first.
    let cfg = config(vec![
        ("a", task(&[], &["echo A"])),
        ("b", task(&["a"], &["echo B"])),
    ]);
    let plan = run_command(&["b"]).tasks_from_config(&cfg).unwrap();
    assert_eq!(plan, vec!["a".to_string(), "b".to_string()]);
}

#[test]
fn empty_request_means_default() {
    let cfg = config(vec![
        ("default", task(&[], &["echo hi"])),
        ("other", task(&[], &["echo no"])),
    ]);
    let plan = run_command(&[]).tasks_from_config(&cfg).unwrap();
    assert_eq!(plan, vec!["default".to_string()]);
}

#[test]
fn cycle_rejection() {
    // Scenario: `x` and `y` depend on each other; the configuration is
    // rejected before anything could run, even though no `default` exists.
    let cfg = config(vec![
        ("x", task(&["y"], &[])),
        ("y", task(&["x"], &[])),
    ]);
    let err = run_command(&[]).tasks_from_config(&cfg).unwrap_err();
    match err {
        Error::TaskCycle { cycle } => {
            let names = cycle.names();
            assert!(names.contains(&"x".to_string()));
            assert!(names.contains(&"y".to_string()));
        }
        other => panic!("expected a cycle rejection, got {:?}", other),
    }
}

#[test]
fn self_cycle_rejected() {
    let cfg = config(vec![("a", task(&["a"], &[]))]);
    let err = run_command(&["a"]).tasks_from_config(&cfg).unwrap_err();
    assert!(matches!(err, Error::TaskCycle { .. }));
}

#[test]
fn unknown_root_rejected() {
    let cfg = config(vec![("a", task(&[], &[]))]);
    let err = run_command(&["zzz"]).tasks_from_config(&cfg).unwrap_err();
    match err {
        Error::NoSuchTask { task_name } => assert_eq!(task_name, "zzz"),
        other => panic!("expected an unknown-task rejection, got {:?}", other),
    }
}

#[test]
fn unknown_dependency_rejected() {
    let cfg = config(vec![("a", task(&["ghost"], &[]))]);
    let err = run_command(&["a"]).tasks_from_config(&cfg).unwrap_err();
    match err {
        Error::NoSuchTask { task_name } => assert_eq!(task_name, "ghost"),
        other => panic!("expected an unknown-task rejection, got {:?}", other),
    }
}

#[test]
fn overlapping_roots_run_once() {
    // Two requested roots share a dependency: it appears exactly once, and
    // always before its dependents.
    let cfg = config(vec![
        ("common", task(&[], &[])),
        ("left", task(&["common"], &[])),
        ("right", task(&["common"], &[])),
    ]);
    let plan = run_command(&["left", "right"]).tasks_from_config(&cfg).unwrap();
    assert_eq!(
        plan,
        vec!["common".to_string(), "left".to_string(), "right".to_string()]
    );
}

#[test]
fn post_order_is_depth_first() {
    let cfg = config(vec![
        ("a", task(&["b", "c"], &[])),
        ("b", task(&["d"], &[])),
        ("c", task(&["d"], &[])),
        ("d", task(&[], &[])),
    ]);
    let plan = run_command(&["a"]).tasks_from_config(&cfg).unwrap();
    assert_eq!(
        plan,
        vec![
            "d".to_string(),
            "b".to_string(),
            "c".to_string(),
            "a".to_string()
        ]
    );
}

#[test]
fn dep_positions_point_backwards() {
    let cfg = config(vec![
        ("a", task(&[], &[])),
        ("b", task(&["a"], &[])),
        ("c", task(&["a", "b"], &[])),
    ]);
    let plan = run_command(&["c"]).tasks_from_config(&cfg).unwrap();
    assert_eq!(plan, vec!["a".to_string(), "b".to_string(), "c".to_string()]);
    assert_eq!(nur::commands::task::dep_positions(&cfg, &plan, 0), Vec::<usize>::new());
    assert_eq!(nur::commands::task::dep_positions(&cfg, &plan, 1), vec![0]);
    assert_eq!(nur::commands::task::dep_positions(&cfg, &plan, 2), vec![0, 1]);
}

#[test]
fn cycle_rendering() {
    let cycle = Cycle { path: vec!["x".to_string(), "y".to_string()] };
    assert_eq!(cycle.render(), "x \u{2192} y \u{2192} x");
}
