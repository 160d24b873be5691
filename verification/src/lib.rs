use vstd::prelude::*;
use vstd::string::StringExecFns;

pub mod commands;
pub mod nurfile;
pub mod output;
pub mod plan;
pub mod text;
pub mod version;

use crate::text::i64_to_string;
use crate::text::idec_seq;
use crate::version::ParseVersionError;
use crate::version::Version;

verus! {

/// Outcome of running one task, as reported in its `Finished` event.
///
/// `Skipped` means an upstream dependency did not run to completion, so this
/// task never started. `Cancelled` means the shared cancellation token was set
/// before or while the task's commands ran. `RanToCompletion` means every
/// command of the task exited successfully (or had its result ignored).
#[derive(PartialEq, Eq, Debug, Copy, Clone, Structural)]
pub enum TaskResult {
    Skipped,
    Cancelled,
    RanToCompletion,
}

/// Exit of a spawned child process: either a normal exit code, or
/// termination without one (for example by a signal).
#[derive(PartialEq, Eq, Debug, Copy, Clone, Structural)]
pub struct ExitStatus {
    pub code: Option<i32>,
}

/// What the rendered text of an `ExitStatus` says.
pub open spec fn exit_status_text(e: ExitStatus) -> Seq<char> {
    match e.code {
        Some(c) => "exit status: "@ + idec_seq(c as int),
        None => "terminated by signal"@,
    }
}

impl ExitStatus {
    /// A child succeeded exactly when it exited with code zero.
    pub fn success(&self) -> (r: bool)
        ensures
            r <==> self.code == Some(0i32),
    {
        match self.code {
            Some(c) => c == 0,
            None => false,
        }
    }

    pub fn render(&self) -> (r: String)
        ensures
            r@ == exit_status_text(*self),
    {
        match self.code {
            Some(c) => {
                let mut s = "exit status: ".to_owned();
                s.append(i64_to_string(c as i64).as_str());
                s
            },
            None => "terminated by signal".to_owned(),
        }
    }
}

/// Why one task failed.
#[derive(Debug)]
pub enum TaskError {
    /// A shell command exited non-zero and its result was not ignored.
    Failed { command: String, exit_status: ExitStatus },
    /// The shell could not be started.
    ExecutableError { executable: String, kind: String },
    /// Waiting for the child to finish failed.
    ExecutableWaitFailure { executable: String, kind: String },
}

pub enum TaskErrorV {
    Failed { command: Seq<char>, exit_status: ExitStatus },
    ExecutableError { executable: Seq<char>, kind: Seq<char> },
    ExecutableWaitFailure { executable: Seq<char>, kind: Seq<char> },
}

impl View for TaskError {
    type V = TaskErrorV;

    open spec fn view(&self) -> TaskErrorV {
        match self {
            TaskError::Failed { command, exit_status } => TaskErrorV::Failed {
                command: command@,
                exit_status: *exit_status,
            },
            TaskError::ExecutableError { executable, kind } => TaskErrorV::ExecutableError {
                executable: executable@,
                kind: kind@,
            },
            TaskError::ExecutableWaitFailure { executable, kind } => {
                TaskErrorV::ExecutableWaitFailure { executable: executable@, kind: kind@ }
            },
        }
    }
}

/// What the rendered text of a `TaskError` says.
pub open spec fn task_error_text(e: TaskErrorV) -> Seq<char> {
    match e {
        TaskErrorV::Failed { command, exit_status } => "shell command `"@ + command
            + "` failed ("@ + exit_status_text(exit_status) + ")"@,
        TaskErrorV::ExecutableError { executable, kind } => "error starting executable \u{2018}"@
            + executable + "\u{2019}: "@ + kind,
        TaskErrorV::ExecutableWaitFailure { executable, kind } => {
            "error waiting for command to complete: "@ + kind
        },
    }
}

impl TaskError {
    pub fn render(&self) -> (r: String)
        ensures
            r@ == task_error_text(self@),
    {
        match self {
            TaskError::Failed { command, exit_status } => {
                let mut s = "shell command `".to_owned();
                s.append(command.as_str());
                s.append("` failed (");
                s.append(exit_status.render().as_str());
                s.append(")");
                proof {
                    assert(s@ =~= task_error_text(self@));
                }
                s
            },
            TaskError::ExecutableError { executable, kind } => {
                let mut s = "error starting executable \u{2018}".to_owned();
                s.append(executable.as_str());
                s.append("\u{2019}: ");
                s.append(kind.as_str());
                proof {
                    assert(s@ =~= task_error_text(self@));
                }
                s
            },
            TaskError::ExecutableWaitFailure { executable, kind } => {
                let mut s = "error waiting for command to complete: ".to_owned();
                s.append(kind.as_str());
                proof {
                    assert(s@ =~= task_error_text(self@));
                }
                s
            },
        }
    }
}

impl Clone for TaskError {
    fn clone(&self) -> (r: Self)
        ensures
            r == *self,
    {
        match self {
            TaskError::Failed { command, exit_status } => TaskError::Failed {
                command: command.clone(),
                exit_status: *exit_status,
            },
            TaskError::ExecutableError { executable, kind } => TaskError::ExecutableError {
                executable: executable.clone(),
                kind: kind.clone(),
            },
            TaskError::ExecutableWaitFailure { executable, kind } => {
                TaskError::ExecutableWaitFailure {
                    executable: executable.clone(),
                    kind: kind.clone(),
                }
            },
        }
    }
}

/// One event from a task's executor to the output multiplexer.
#[derive(Debug)]
pub enum TaskStatus {
    StdOut(String),
    StdErr(String),
    Started {},
    Finished { result: Result<TaskResult, TaskError> },
}

pub enum TaskStatusV {
    StdOut(Seq<char>),
    StdErr(Seq<char>),
    Started,
    Finished { result: Result<TaskResult, TaskErrorV> },
}

/// A task result with its error part abstracted to the error's view.
pub open spec fn result_view(r: Result<TaskResult, TaskError>) -> Result<TaskResult, TaskErrorV> {
    match r {
        Ok(v) => Ok(v),
        Err(e) => Err(e@),
    }
}

impl View for TaskStatus {
    type V = TaskStatusV;

    open spec fn view(&self) -> TaskStatusV {
        match self {
            TaskStatus::StdOut(l) => TaskStatusV::StdOut(l@),
            TaskStatus::StdErr(l) => TaskStatusV::StdErr(l@),
            TaskStatus::Started {  } => TaskStatusV::Started,
            TaskStatus::Finished { result } => TaskStatusV::Finished {
                result: result_view(*result),
            },
        }
    }
}

impl DeepView for TaskStatus {
    type V = TaskStatusV;

    open spec fn deep_view(&self) -> TaskStatusV {
        self.view()
    }
}

/// The message type between executors and the output multiplexer: a task id
/// (position in the execution plan) and one event of that task.
pub type StatusMessage = (usize, TaskStatus);

/// A dependency loop among task names; the loop closes from the last name
/// back to the first.
#[derive(Debug, Clone)]
pub struct Cycle {
    pub path: Vec<String>,
}

impl View for Cycle {
    type V = Seq<Seq<char>>;

    open spec fn view(&self) -> Seq<Seq<char>> {
        self.path.deep_view()
    }
}

/// `name → ` for each name in turn, used by `Cycle::render`.
pub open spec fn cycle_arrows(names: Seq<Seq<char>>) -> Seq<char>
    decreases names.len(),
{
    if names.len() == 0 {
        Seq::empty()
    } else {
        cycle_arrows(names.drop_last()) + names.last() + " \u{2192} "@
    }
}

impl Cycle {
    /// The task names along the loop, in order.
    pub fn names(&self) -> (r: &Vec<String>)
        ensures
            r.deep_view() == self@,
    {
        &self.path
    }

    /// Renders the loop as `a → b → a`.
    pub fn render(&self) -> (r: String)
        requires
            self@.len() > 0,
        ensures
            r@ == cycle_arrows(self@) + self@[0],
    {
        let mut s = String::new();
        let mut i: usize = 0;
        while i < self.path.len()
            invariant
                i <= self.path@.len(),
                self@.len() == self.path@.len(),
                s@ == cycle_arrows(self@.subrange(0, i as int)),
            decreases self.path@.len() - i,
        {
            s.append(self.path[i].as_str());
            s.append(" \u{2192} ");
            i = i + 1;
            proof {
                assert(self@.subrange(0, i as int).drop_last() =~= self@.subrange(0, i - 1));
                assert(s@ =~= cycle_arrows(self@.subrange(0, i as int)));
            }
        }
        proof {
            assert(self@.subrange(0, self@.len() as int) =~= self@);
        }
        s.append(self.path[0].as_str());
        s
    }
}

/// Everything that can go wrong at the library's boundary.
#[derive(Debug)]
pub enum Error {
    /// The nurfile text has no version entry.
    MissingVersion,
    /// The version entry could not be parsed.
    InvalidVersion(ParseVersionError),
    /// The nurfile is of a version this library does not understand.
    UnsupportedVersion { version: Version },
    /// A channel or signal misbehaved while a run was in flight.
    InternalError { message: String },
    /// The dependency graph contains a loop.
    TaskCycle { cycle: Cycle },
    /// A requested root task or a declared dependency is not in the task map.
    NoSuchTask { task_name: String },
    /// One task failed; the run as a whole therefore failed.
    TaskFailed { task_name: String, task_error: TaskError },
    /// Several tasks failed, listed in execution-plan order.
    Multiple { failures: Vec<Error> },
}

} // verus!
