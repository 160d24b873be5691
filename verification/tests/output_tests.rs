use nur::commands::Message;
use nur::nurfile::{OutputOptions, OutputStyle, PrefixStyle};
use nur::output::sink::Sink;
use nur::output::{create, AlignedPrefixer, Output, Prefixer};
use nur::{ExitStatus, TaskError, TaskResult, TaskStatus};

fn streamed_options(separator: &str) -> OutputOptions {
    OutputOptions {
        style: OutputStyle::Streamed {
            separator: separator.to_string(),
            separator_switch: None,
        },
        prefix: PrefixStyle::NoPrefix,
    }
}

fn grouped_options(deterministic: bool, only_on_failure: bool) -> OutputOptions {
    OutputOptions {
        style: OutputStyle::Grouped {
            separator: String::new(),
            separator_first: None,
            separator_last: None,
            deterministic,
            only_on_failure,
        },
        prefix: PrefixStyle::NoPrefix,
    }
}

fn names(list: &[&str]) -> Vec<String> {
    list.iter().map(|n| n.to_string()).collect()
}

fn drain(sink: &mut Sink, out: &mut Output, msg: (usize, TaskStatus)) {
    for line in out.handle(msg) {
        sink.handle(line);
    }
}

#[test]
fn single_task_echo_stdout() {
    // Scenario: one `echo hi` line, streamed with no prefix and an empty
    // separator, reaches stdout exactly as `hi` plus the newline.
    let mut out = create(&streamed_options(""), &names(&["default"]));
    let mut sink = Sink::new();
    drain(&mut sink, &mut out, (0, TaskStatus::StdOut("hi".to_string())));
    assert_eq!(sink.stdout, "hi\n");
    assert_eq!(sink.stderr, "");
}

#[test]
fn streamed_event_lines() {
    let mut out = create(&streamed_options(""), &names(&["default"]));
    let mut sink = Sink::new();
    drain(&mut sink, &mut out, (0, TaskStatus::Started {}));
    drain(&mut sink, &mut out, (0, TaskStatus::StdOut("hi".to_string())));
    drain(
        &mut sink,
        &mut out,
        (0, TaskStatus::Finished { result: Ok(TaskResult::RanToCompletion) }),
    );
    assert_eq!(
        sink.stdout,
        "\u{2574} Started task \u{2018}default\u{2019}\nhi\n\u{2574} Task \u{2018}default\u{2019} completed\n"
    );
}

#[test]
fn streamed_stderr_goes_to_stderr() {
    let mut out = create(&streamed_options(""), &names(&["a"]));
    let mut sink = Sink::new();
    drain(&mut sink, &mut out, (0, TaskStatus::StdErr("oops".to_string())));
    assert_eq!(sink.stdout, "");
    assert_eq!(sink.stderr, "oops\n");
}

#[test]
fn streamed_switch_separator() {
    // The switch separator is used on the first line after the writing task
    // changes; the plain separator while the same task keeps writing.
    let opts = OutputOptions {
        style: OutputStyle::Streamed {
            separator: "|".to_string(),
            separator_switch: Some("+".to_string()),
        },
        prefix: PrefixStyle::NoPrefix,
    };
    let mut out = create(&opts, &names(&["a", "b"]));
    let mut sink = Sink::new();
    drain(&mut sink, &mut out, (0, TaskStatus::StdOut("1".to_string())));
    drain(&mut sink, &mut out, (0, TaskStatus::StdOut("2".to_string())));
    drain(&mut sink, &mut out, (1, TaskStatus::StdOut("3".to_string())));
    drain(&mut sink, &mut out, (1, TaskStatus::StdOut("4".to_string())));
    drain(&mut sink, &mut out, (0, TaskStatus::StdOut("5".to_string())));
    assert_eq!(sink.stdout, "+1\n|2\n+3\n|4\n+5\n");
}

#[test]
fn always_prefix_labels_lines() {
    let opts = OutputOptions {
        style: OutputStyle::Streamed {
            separator: ": ".to_string(),
            separator_switch: None,
        },
        prefix: PrefixStyle::Always,
    };
    let mut out = create(&opts, &names(&["build"]));
    let mut sink = Sink::new();
    drain(&mut sink, &mut out, (0, TaskStatus::StdOut("done".to_string())));
    assert_eq!(sink.stdout, "build: done\n");
}

#[test]
fn aligned_prefix_grows_with_names() {
    // Scenario: `lint` (width 4) then `build-server` (width 12); earlier
    // labels keep their historical width, later ones use the new one.
    let mut p = Prefixer::Aligned(AlignedPrefixer::new(0));
    assert_eq!(p.prefix(&"lint".to_string()), "lint");
    assert_eq!(p.prefix(&"lint".to_string()), "    ");
    assert_eq!(p.prefix(&"build-server".to_string()), "build-server");
    assert_eq!(p.prefix(&"build-server".to_string()), "            ");
    assert_eq!(p.prefix(&"lint".to_string()), "        lint");
}

#[test]
fn aligned_prefix_starts_empty() {
    // Through `create`, the aligned column starts empty and only grows as
    // names are actually labelled: early lines of a short-named task keep
    // their narrow historical width.
    let opts = OutputOptions {
        style: OutputStyle::Streamed {
            separator: "|".to_string(),
            separator_switch: None,
        },
        prefix: PrefixStyle::Aligned,
    };
    let mut out = create(&opts, &names(&["lint", "build-server"]));
    let mut sink = Sink::new();
    drain(&mut sink, &mut out, (0, TaskStatus::StdOut("x".to_string())));
    drain(&mut sink, &mut out, (1, TaskStatus::StdOut("y".to_string())));
    drain(&mut sink, &mut out, (0, TaskStatus::StdOut("z".to_string())));
    assert_eq!(sink.stdout, "lint|x\nbuild-server|y\n        lint|z\n");
}

#[test]
fn grouped_deterministic_plan_order() {
    // Scenario: three independent tasks finish in reverse order; their
    // blocks still come out in plan order `a`, `b`, `c`.
    let mut out = create(&grouped_options(true, false), &names(&["a", "b", "c"]));
    let mut collected: Vec<Message> = Vec::new();
    let mut feed = |out: &mut Output, collected: &mut Vec<Message>, msg| {
        collected.extend(out.handle(msg));
    };
    feed(&mut out, &mut collected, (2, TaskStatus::StdOut("c says".to_string())));
    feed(
        &mut out,
        &mut collected,
        (2, TaskStatus::Finished { result: Ok(TaskResult::RanToCompletion) }),
    );
    assert!(collected.is_empty(), "task c must wait for a and b");
    feed(&mut out, &mut collected, (1, TaskStatus::StdOut("b says".to_string())));
    feed(
        &mut out,
        &mut collected,
        (1, TaskStatus::Finished { result: Ok(TaskResult::RanToCompletion) }),
    );
    assert!(collected.is_empty(), "task b must wait for a");
    feed(&mut out, &mut collected, (0, TaskStatus::StdOut("a says".to_string())));
    feed(
        &mut out,
        &mut collected,
        (0, TaskStatus::Finished { result: Ok(TaskResult::RanToCompletion) }),
    );
    let mut sink = Sink::new();
    for line in collected {
        sink.handle(line);
    }
    assert_eq!(
        sink.stdout,
        "a says\n\u{2574} Task \u{2018}a\u{2019} completed\n\
         b says\n\u{2574} Task \u{2018}b\u{2019} completed\n\
         c says\n\u{2574} Task \u{2018}c\u{2019} completed\n"
    );
}

#[test]
fn grouped_arrival_order_when_not_deterministic() {
    let mut out = create(&grouped_options(false, false), &names(&["a", "b"]));
    let mut sink = Sink::new();
    drain(&mut sink, &mut out, (1, TaskStatus::StdOut("b says".to_string())));
    assert_eq!(sink.stdout, "", "lines are buffered until the task finishes");
    drain(
        &mut sink,
        &mut out,
        (1, TaskStatus::Finished { result: Ok(TaskResult::RanToCompletion) }),
    );
    drain(
        &mut sink,
        &mut out,
        (0, TaskStatus::Finished { result: Ok(TaskResult::RanToCompletion) }),
    );
    assert_eq!(
        sink.stdout,
        "b says\n\u{2574} Task \u{2018}b\u{2019} completed\n\u{2574} Task \u{2018}a\u{2019} completed\n"
    );
}

#[test]
fn grouped_only_on_failure_drops_success_output() {
    let mut out = create(&grouped_options(false, true), &names(&["quiet", "loud"]));
    let mut sink = Sink::new();
    drain(&mut sink, &mut out, (0, TaskStatus::StdOut("hidden".to_string())));
    drain(
        &mut sink,
        &mut out,
        (0, TaskStatus::Finished { result: Ok(TaskResult::RanToCompletion) }),
    );
    assert_eq!(sink.stdout, "\u{2574} Task \u{2018}quiet\u{2019} completed\n");

    let failure = TaskError::Failed {
        command: "exit 1".to_string(),
        exit_status: ExitStatus { code: Some(1) },
    };
    drain(&mut sink, &mut out, (1, TaskStatus::StdOut("shown".to_string())));
    drain(&mut sink, &mut out, (1, TaskStatus::Finished { result: Err(failure) }));
    assert_eq!(
        sink.stdout,
        "\u{2574} Task \u{2018}quiet\u{2019} completed\n\
         shown\n\u{2574} Task \u{2018}loud\u{2019} failed: shell command `exit 1` failed (exit status: 1)\n"
    );
}

#[test]
fn skipped_and_cancelled_lines() {
    let mut out = create(&streamed_options(""), &names(&["a", "b"]));
    let mut sink = Sink::new();
    drain(
        &mut sink,
        &mut out,
        (0, TaskStatus::Finished { result: Ok(TaskResult::Skipped) }),
    );
    drain(
        &mut sink,
        &mut out,
        (1, TaskStatus::Finished { result: Ok(TaskResult::Cancelled) }),
    );
    assert_eq!(
        sink.stdout,
        "\u{2574} Task \u{2018}a\u{2019} skipped\n\u{2574} Task \u{2018}b\u{2019} cancelled\n"
    );
}

#[test]
fn grouped_decorated_separators() {
    // The decorated grouped style: aligned prefix, `╭` opening, `│` between,
    // `╰` closing each task's block.
    let opts = OutputOptions {
        style: OutputStyle::Grouped {
            separator: "\u{2502}".to_string(),
            separator_first: Some("\u{256d}".to_string()),
            separator_last: Some("\u{2570}".to_string()),
            deterministic: true,
            only_on_failure: false,
        },
        prefix: PrefixStyle::Aligned,
    };
    let mut out = create(&opts, &names(&["a"]));
    let mut sink = Sink::new();
    drain(&mut sink, &mut out, (0, TaskStatus::Started {}));
    drain(&mut sink, &mut out, (0, TaskStatus::StdOut("hi".to_string())));
    drain(
        &mut sink,
        &mut out,
        (0, TaskStatus::Finished { result: Ok(TaskResult::RanToCompletion) }),
    );
    assert_eq!(
        sink.stdout,
        "a\u{256d}\u{2574} Started task \u{2018}a\u{2019}\n \u{2502}hi\n \u{2570}\u{2574} Task \u{2018}a\u{2019} completed\n"
    );
}

#[test]
fn grouped_keeps_stderr_on_stderr() {
    let mut out = create(&grouped_options(true, false), &names(&["a"]));
    let mut sink = Sink::new();
    drain(&mut sink, &mut out, (0, TaskStatus::StdErr("warning".to_string())));
    drain(
        &mut sink,
        &mut out,
        (0, TaskStatus::Finished { result: Ok(TaskResult::RanToCompletion) }),
    );
    assert_eq!(sink.stderr, "warning\n");
    assert_eq!(sink.stdout, "\u{2574} Task \u{2018}a\u{2019} completed\n");
}

#[test]
fn task_error_rendering() {
    let e = TaskError::Failed {
        command: "exit 1".to_string(),
        exit_status: ExitStatus { code: Some(1) },
    };
    assert_eq!(e.render(), "shell command `exit 1` failed (exit status: 1)");
    let e = TaskError::Failed {
        command: "x".to_string(),
        exit_status: ExitStatus { code: None },
    };
    assert_eq!(e.render(), "shell command `x` failed (terminated by signal)");
    let e = TaskError::ExecutableError {
        executable: "/bin/sh".to_string(),
        kind: "entity not found".to_string(),
    };
    assert_eq!(
        e.render(),
        "error starting executable \u{2018}/bin/sh\u{2019}: entity not found"
    );
}
