//! The task-running command: execution-plan construction, the per-task
//! command runner and executor decisions, and failure aggregation.
//!
//! The host drives the concurrency: it spawns children, reads their output
//! and awaits signals. Every decision — what to spawn next, when a task is
//! skipped, cancelled or failed, what each outcome means for the run — is
//! made here.

use vstd::prelude::*;

use crate::nurfile::has_task;
use crate::nurfile::lookup_task;
use crate::nurfile::NurFile;
use crate::nurfile::NurTask;
use crate::nurfile::OutputOptions;
use crate::plan;
use crate::plan::deps_at;
use crate::plan::has_cycle;
use crate::plan::is_declared_dep;
use crate::plan::name_at;
use crate::plan::name_in_order;
use crate::plan::plan_name_at;
use crate::nurfile::env_overlay;
use crate::nurfile::env_view;
use crate::result_view;
use crate::Error;
use crate::ExitStatus;
use crate::StatusMessage;
use crate::TaskError;
use crate::TaskErrorV;
use crate::TaskResult;
use crate::TaskStatus;
use crate::TaskStatusV;

verus! {

/// Runs a set of tasks from the nurfile, or shows what would run.
#[derive(Debug)]
pub struct Task {
    pub dry_run: bool,
    pub nur_file: Option<String>,
    /// The requested roots; empty means the task named `default`.
    pub task_names: Vec<String>,
    pub output_override: Option<OutputOptions>,
}

/// The index of the task with this name (well-defined when names are unique).
pub open spec fn task_ix_of(tasks: Seq<(String, NurTask)>, name: Seq<char>) -> int {
    choose|i: int| 0 <= i < tasks.len() && tasks[i].0@ == name
}

/// The task with this name.
pub open spec fn task_named(tasks: Seq<(String, NurTask)>, name: Seq<char>) -> NurTask {
    tasks[task_ix_of(tasks, name)].1
}

/// No name occurs twice in the plan.
pub open spec fn names_distinct(plan: Seq<String>) -> bool {
    forall|i: int, j: int| 0 <= i < j < plan.len() ==> plan[i]@ != plan[j]@
}

/// Every plan entry names a task of the map.
pub open spec fn plan_names_wf(tasks: Seq<(String, NurTask)>, plan: Seq<String>) -> bool {
    &&& names_distinct(plan)
    &&& forall|k: int| 0 <= k < plan.len() ==> has_task(tasks, (#[trigger] plan[k])@)
}

/// Dependency `d` of the task at plan position `k` appears at an earlier
/// position.
pub open spec fn dep_in_prefix(
    tasks: Seq<(String, NurTask)>,
    plan: Seq<String>,
    k: int,
    d: int,
) -> bool {
    exists|j: int|
        0 <= j < k && (#[trigger] plan[j])@ == task_named(tasks, plan[k]@).dependencies@[d]@
}

/// Every dependency of the task at plan position `k` appears earlier.
pub open spec fn name_deps_before(
    tasks: Seq<(String, NurTask)>,
    plan: Seq<String>,
    k: int,
) -> bool {
    forall|d: int|
        0 <= d < task_named(tasks, plan[k]@).dependencies@.len() ==> #[trigger] dep_in_prefix(
            tasks,
            plan,
            k,
            d,
        )
}

/// Dependencies precede dependents everywhere in the plan.
pub open spec fn name_plan_closed(tasks: Seq<(String, NurTask)>, plan: Seq<String>) -> bool {
    forall|k: int| 0 <= k < plan.len() ==> #[trigger] name_deps_before(tasks, plan, k)
}

/// The plan has an entry with this name.
pub open spec fn plan_has_name(plan: Seq<String>, name: Seq<char>) -> bool {
    exists|k: int| 0 <= k < plan.len() && (#[trigger] plan[k])@ == name
}

/// A name among the requested roots, with the empty request meaning
/// `default`.
pub open spec fn requested_root(task_names: Seq<String>, name: Seq<char>) -> bool {
    if task_names.len() == 0 {
        name == "default"@
    } else {
        plan::root_named(task_names, name)
    }
}

/// The task named `n` can be reached along dependency edges from a task one
/// of the requested roots names (the empty request meaning `default`).
pub open spec fn request_reaches_name(
    tasks: Seq<(String, NurTask)>,
    task_names: Seq<String>,
    n: Seq<char>,
) -> bool {
    exists|p: Seq<usize>|
        plan::is_chain(tasks, p) && requested_root(task_names, plan::name_at(tasks, p[0] as int))
            && plan::name_at(tasks, p.last() as int) == n
}

/// The result is the rejection of a dependency loop.
pub open spec fn is_cycle_err<T>(r: Result<T, Error>) -> bool {
    match r {
        Err(e) => e is TaskCycle,
        Ok(_) => false,
    }
}

pub(crate) fn clone_strings(v: &Vec<String>) -> (r: Vec<String>)
    ensures
        r@ == v@,
{
    let mut r: Vec<String> = Vec::new();
    let mut i: usize = 0;
    while i < v.len()
        invariant
            i <= v@.len(),
            r@ =~= v@.subrange(0, i as int),
        decreases v@.len() - i,
    {
        r.push(v[i].clone());
        i = i + 1;
        proof {
            assert(r@ =~= v@.subrange(0, i as int));
        }
    }
    proof {
        assert(r@ =~= v@);
    }
    r
}

impl Task {
    /// Validates the dependency graph of the whole map, then builds the
    /// execution plan for the requested roots (`default` when none was
    /// named): each task at most once, dependencies strictly before
    /// dependents, every requested root present.
    pub fn tasks_from_config(&self, config: &NurFile) -> (r: Result<Vec<String>, Error>)
        requires
            config.wf(),
        ensures
            match r {
                Ok(p) => {
                    &&& plan_names_wf(config.tasks@, p@)
                    &&& name_plan_closed(config.tasks@, p@)
                    &&& !has_cycle(config.tasks@)
                    &&& forall|n: Seq<char>|
                        requested_root(self.task_names@, n) ==> #[trigger] plan_has_name(p@, n)
                    &&& forall|k: int|
                        0 <= k < p@.len() ==> request_reaches_name(
                            config.tasks@,
                            self.task_names@,
                            (#[trigger] p@[k])@,
                        )
                    &&& ({
                        let rv = if self.task_names@.len() == 0 {
                            seq!["default"@]
                        } else {
                            self.task_names.deep_view()
                        };
                        plan::plan_spec(config.tasks@, rv) matches Some(o) && plan::names_match(
                            config.tasks@,
                            p.deep_view(),
                            o,
                        )
                    })
                },
                Err(e) => match e {
                    Error::TaskCycle { cycle } => has_cycle(config.tasks@) && exists|c: Seq<usize>|
                        plan::is_cycle(config.tasks@, c) && plan::names_match(
                            config.tasks@,
                            cycle@,
                            c,
                        ),
                    Error::NoSuchTask { task_name } => !has_task(config.tasks@, task_name@) && (
                    requested_root(self.task_names@, task_name@) || is_declared_dep(
                        config.tasks@,
                        task_name@,
                    )),
                    _ => false,
                },
            },
            has_cycle(config.tasks@) <==> is_cycle_err(r),
    {
        proof {
            assert(plan::tasks_wf(config.tasks@));
        }
        let roots: Vec<String> = if self.task_names.len() == 0 {
            let mut v: Vec<String> = Vec::new();
            v.push("default".to_owned());
            v
        } else {
            clone_strings(&self.task_names)
        };
        proof {
            assert forall|n: Seq<char>|
                requested_root(self.task_names@, n) implies plan::root_named(roots@, n) by {
                if self.task_names@.len() == 0 {
                    assert(roots@[0]@ == n);
                } else {
                    let ri = choose|ri: int|
                        0 <= ri < self.task_names@.len() && (#[trigger] self.task_names@[ri])@
                            == n;
                    assert(roots@[ri]@ == n);
                }
            }
            assert forall|n: Seq<char>|
                plan::root_named(roots@, n) implies requested_root(self.task_names@, n) by {
                let ri = choose|ri: int|
                    0 <= ri < roots@.len() && (#[trigger] roots@[ri])@ == n;
                if self.task_names@.len() == 0 {
                    assert(roots@.len() == 1);
                } else {
                    assert(self.task_names@[ri]@ == n);
                }
            }
        }
        match plan::check_cycles(&config.tasks) {
            Err(cycle) => {
                return Err(Error::TaskCycle { cycle });
            },
            Ok(()) => {},
        }
        let order = match plan::execution_order(&config.tasks, &roots) {
            Err(e) => {
                return Err(e);
            },
            Ok(o) => o,
        };
        let names = plan::names_at(&config.tasks, &order);
        proof {
            let tasks = config.tasks@;
            let ov = order@;
            let pv = names@;
            assert(pv.len() == ov.len());
            assert forall|k: int| 0 <= k < pv.len() implies (#[trigger] pv[k])@ == name_at(
                tasks,
                ov[k] as int,
            ) by {
                assert(names.deep_view()[k] == name_at(tasks, ov[k] as int));
            }
            // Distinct names, from distinct indices and unique task names.
            assert forall|i: int, j: int| 0 <= i < j < pv.len() implies pv[i]@ != pv[j]@ by {
                if pv[i]@ == pv[j]@ {
                    plan::lemma_name_unique(tasks, ov[i] as int, ov[j] as int);
                    assert(ov[i] != ov[j]);
                }
            }
            // Every entry names a task.
            assert forall|k: int| 0 <= k < pv.len() implies has_task(
                tasks,
                (#[trigger] pv[k])@,
            ) by {
                assert(tasks[ov[k] as int].0@ == pv[k]@);
            }
            // The plan is dependency-closed, at the level of names.
            assert forall|k: int| 0 <= k < pv.len() implies #[trigger] name_deps_before(
                tasks,
                pv,
                k,
            ) by {
                let t = task_ix_of(tasks, pv[k]@);
                assert(tasks[ov[k] as int].0@ == pv[k]@);
                plan::lemma_name_unique(tasks, t, ov[k] as int);
                assert(task_named(tasks, pv[k]@) == tasks[ov[k] as int].1);
                assert(plan::deps_satisfied_before(tasks, ov, k));
                assert forall|d: int|
                    0 <= d < task_named(tasks, pv[k]@).dependencies@.len()
                    implies #[trigger] dep_in_prefix(tasks, pv, k, d) by {
                    assert(task_named(tasks, pv[k]@).dependencies@[d] == deps_at(
                        tasks,
                        ov[k] as int,
                    )[d]);
                    assert(has_task(tasks, deps_at(tasks, ov[k] as int)[d]@));
                    let j = choose|j: int|
                        0 <= j < k && #[trigger] plan_name_at(tasks, ov, j) == deps_at(
                            tasks,
                            ov[k] as int,
                        )[d]@;
                    assert(pv[j]@ == plan_name_at(tasks, ov, j));
                    assert(pv[j]@ == task_named(tasks, pv[k]@).dependencies@[d]@);
                }
            }
            // The plan is the one the prescribed traversal yields, spelled
            // out in names.
            let rv = if self.task_names@.len() == 0 {
                seq!["default"@]
            } else {
                self.task_names.deep_view()
            };
            assert(rv =~= roots.deep_view()) by {
                if self.task_names@.len() == 0 {
                    assert(roots.deep_view()[0] == roots@[0]@);
                } else {
                    assert forall|q: int| 0 <= q < rv.len() implies rv[q] == roots.deep_view()[q]
                        by {
                        assert(roots.deep_view()[q] == roots@[q]@);
                        assert(rv[q] == self.task_names@[q]@);
                    }
                }
            }
            assert(plan::plan_spec(tasks, rv) == Some(ov));
            assert(plan::names_match(tasks, names.deep_view(), ov));
            // Every plan entry is reachable from a requested root.
            assert forall|k: int| 0 <= k < pv.len() implies request_reaches_name(
                tasks,
                self.task_names@,
                (#[trigger] pv[k])@,
            ) by {
                assert(plan::reachable_from_roots(tasks, roots@, (ov[k]) as int));
                let pc = choose|pc: Seq<usize>|
                    plan::is_chain(tasks, pc) && plan::root_named(
                        roots@,
                        name_at(tasks, pc[0] as int),
                    ) && (pc.last()) as int == (ov[k]) as int;
                assert(requested_root(self.task_names@, name_at(tasks, pc[0] as int)));
                assert(name_at(tasks, pc.last() as int) == pv[k]@);
            }
            // Every requested root is in the plan.
            assert forall|n: Seq<char>|
                requested_root(self.task_names@, n) implies #[trigger] plan_has_name(
                pv,
                n,
            ) by {
                assert(plan::root_named(roots@, n));
                let ri = choose|ri: int|
                    0 <= ri < roots@.len() && (#[trigger] roots@[ri])@ == n;
                assert(name_in_order(tasks, ov, roots@[ri]@));
                let k = choose|k: int|
                    0 <= k < ov.len() && #[trigger] plan_name_at(tasks, ov, k) == roots@[ri]@;
                assert(pv[k]@ == n);
            }
        }
        Ok(names)
    }
}

/// Index of the entry before `upto` whose name this is; callers know one
/// exists.
fn position_of_name(plan: &Vec<String>, upto: usize, name: &String) -> (r: usize)
    requires
        upto <= plan@.len(),
        exists|j: int| 0 <= j < upto && (#[trigger] plan@[j])@ == name@,
    ensures
        r < upto,
        plan@[r as int]@ == name@,
{
    let mut i: usize = 0;
    while i < upto
        invariant
            i <= upto <= plan@.len(),
            exists|j: int| 0 <= j < upto && (#[trigger] plan@[j])@ == name@,
            forall|j: int| 0 <= j < i ==> (#[trigger] plan@[j])@ != name@,
        decreases upto - i,
    {
        if plan[i] == *name {
            return i;
        }
        i = i + 1;
    }
    proof {
        assert(false);
    }
    0
}

/// For the task at plan position `i`, the plan positions of its dependencies'
/// completion signals — all strictly earlier, since the plan is closed.
pub fn dep_positions(config: &NurFile, p: &Vec<String>, i: usize) -> (r: Vec<usize>)
    requires
        config.wf(),
        plan_names_wf(config.tasks@, p@),
        name_plan_closed(config.tasks@, p@),
        i < p@.len(),
    ensures
        r@.len() == task_named(config.tasks@, p@[i as int]@).dependencies@.len(),
        forall|d: int|
            0 <= d < r@.len() ==> (#[trigger] r@[d]) < i && p@[r@[d] as int]@ == task_named(
                config.tasks@,
                p@[i as int]@,
            ).dependencies@[d]@,
{
    let ghost tasks = config.tasks@;
    let ti = match lookup_task(&config.tasks, &p[i]) {
        Some(ti) => ti,
        None => {
            proof {
                assert(has_task(tasks, p@[i as int]@));
                assert(false);
            }
            return Vec::new();
        },
    };
    proof {
        plan::lemma_name_unique(tasks, ti as int, task_ix_of(tasks, p@[i as int]@));
        assert(task_named(tasks, p@[i as int]@) == tasks[ti as int].1);
        assert(name_deps_before(tasks, p@, i as int));
    }
    let deps = &config.tasks[ti].1.dependencies;
    let mut r: Vec<usize> = Vec::new();
    let mut d: usize = 0;
    while d < deps.len()
        invariant
            config.wf(),
            tasks == config.tasks@,
            i < p@.len(),
            ti < tasks.len(),
            tasks[ti as int].0@ == p@[i as int]@,
            task_named(tasks, p@[i as int]@) == tasks[ti as int].1,
            name_deps_before(tasks, p@, i as int),
            deps@ == tasks[ti as int].1.dependencies@,
            d <= deps@.len(),
            r@.len() == d,
            forall|q: int|
                0 <= q < d ==> (#[trigger] r@[q]) < i && p@[r@[q] as int]@ == deps@[q]@,
        decreases deps@.len() - d,
    {
        proof {
            assert(dep_in_prefix(tasks, p@, i as int, d as int));
            assert(task_named(tasks, p@[i as int]@).dependencies@[d as int] == deps@[d as int]);
            assert(exists|j: int| 0 <= j < i && (#[trigger] p@[j])@ == deps@[d as int]@);
        }
        let pos = position_of_name(p, i, &deps[d]);
        r.push(pos);
        d = d + 1;
    }
    r
}

/// What the host loop must do next for one task.
#[derive(Debug)]
pub enum RunnerCmd {
    /// Spawn `/bin/sh -c sh`, with these bindings over the inherited
    /// environment, in its own process group; on cancellation send the group
    /// SIGINT only if `cancellable`.
    Spawn { sh: String, env: Vec<(String, String)>, cancellable: bool },
    /// The task is done; report this result in its `Finished` event.
    Finish { result: Result<TaskResult, TaskError> },
}

/// What became of a spawned command.
#[derive(Debug)]
pub enum SpawnOutcome {
    /// The shell did not start; `kind` names the I/O error kind.
    SpawnFailed { kind: String },
    /// Waiting for the child to finish failed; `kind` names the error kind.
    WaitFailed { kind: String },
    /// Cancellation fired while the child ran; it was signalled and reaped.
    Cancelled,
    /// The child exited with this status.
    Exited { status: ExitStatus },
}

fn clone_task_result(r: &Result<TaskResult, TaskError>) -> (c: Result<TaskResult, TaskError>)
    ensures
        c == *r,
{
    match r {
        Ok(v) => Ok(*v),
        Err(e) => Err(e.clone()),
    }
}

/// Drives one task's commands in order: hands out the next spawn, records
/// its outcome, stops on cancellation or failure.
#[derive(Debug)]
pub struct Runner {
    pub task: NurTask,
    /// Position of the next command to spawn.
    pub ix: usize,
    /// A `Spawn` was handed out and its outcome not yet reported.
    pub awaiting: bool,
    /// The task's result, once decided.
    pub done: Option<Result<TaskResult, TaskError>>,
}

impl Runner {
    pub open spec fn wf(&self) -> bool {
        &&& self.ix <= self.task.commands@.len()
        &&& self.awaiting ==> self.done is None && self.ix < self.task.commands@.len()
    }

    pub fn new(task: NurTask) -> (r: Runner)
        ensures
            r.wf(),
            r.task == task,
            r.ix == 0,
            !r.awaiting,
            r.done is None,
    {
        Runner { task, ix: 0, awaiting: false, done: None }
    }

    /// Decides the next step. The cancellation token is consulted before
    /// every spawn: once it is set, no further command of the task starts
    /// and the task reports `Cancelled`; with no commands left the task ran
    /// to completion.
    pub fn poll(&mut self, cancelled: bool) -> (c: RunnerCmd)
        requires
            old(self).wf(),
            !old(self).awaiting,
        ensures
            final(self).wf(),
            final(self).task == old(self).task,
            match old(self).done {
                Some(res) => c == (RunnerCmd::Finish { result: res }) && *final(self) == *old(
                    self,
                ),
                None => {
                    if cancelled {
                        &&& c == (RunnerCmd::Finish {
                            result: Ok::<TaskResult, TaskError>(TaskResult::Cancelled),
                        })
                        &&& final(self).done == Some(
                            Ok::<TaskResult, TaskError>(TaskResult::Cancelled),
                        )
                        &&& !final(self).awaiting
                    } else if old(self).ix == old(self).task.commands@.len() {
                        &&& c == (RunnerCmd::Finish {
                            result: Ok::<TaskResult, TaskError>(TaskResult::RanToCompletion),
                        })
                        &&& final(self).done == Some(
                            Ok::<TaskResult, TaskError>(TaskResult::RanToCompletion),
                        )
                        &&& !final(self).awaiting
                    } else {
                        &&& c matches RunnerCmd::Spawn { sh, env, cancellable } && (sh@ == old(
                            self,
                        ).task.commands@[old(self).ix as int].sh@ && (env_view(env@) == env_view(
                            old(self).task.env@,
                        ) + env_view(old(self).task.commands@[old(self).ix as int].env@)
                            && cancellable == old(self).task.cancellable))
                        &&& final(self).awaiting
                        &&& final(self).ix == old(self).ix
                        &&& final(self).done is None
                    }
                },
            },
    {
        if self.done.is_some() {
            let res = match &self.done {
                Some(r) => clone_task_result(r),
                None => {
                    proof {
                        assert(false);
                    }
                    Ok(TaskResult::Skipped)
                },
            };
            return RunnerCmd::Finish { result: res };
        }
        if cancelled {
            self.done = Some(Ok(TaskResult::Cancelled));
            RunnerCmd::Finish { result: Ok(TaskResult::Cancelled) }
        } else if self.ix == self.task.commands.len() {
            self.done = Some(Ok(TaskResult::RanToCompletion));
            RunnerCmd::Finish { result: Ok(TaskResult::RanToCompletion) }
        } else {
            let env = env_overlay(&self.task.env, &self.task.commands[self.ix].env);
            let sh = self.task.commands[self.ix].sh.clone();
            let cancellable = self.task.cancellable;
            self.awaiting = true;
            RunnerCmd::Spawn { sh, env, cancellable }
        }
    }

    /// Records the outcome of the spawned command. Returns whether the run's
    /// shared token must now be cancelled: exactly on a non-ignored non-zero
    /// exit, failure propagates laterally to every other task.
    pub fn report(&mut self, outcome: SpawnOutcome) -> (cancel: bool)
        requires
            old(self).wf(),
            old(self).awaiting,
        ensures
            final(self).wf(),
            final(self).task == old(self).task,
            !final(self).awaiting,
            ({
                let t = old(self).task;
                let ix = old(self).ix as int;
                match outcome {
                    SpawnOutcome::SpawnFailed { kind } => !cancel && (final(self).done matches Some(
                        r2,
                    ) && (r2 matches Err(e) && (e matches TaskError::ExecutableError {
                        executable,
                        kind: k2,
                    } && (executable@ == "/bin/sh"@ && k2 == kind)))),
                    SpawnOutcome::WaitFailed { kind } => !cancel && (final(self).done matches Some(
                        r2,
                    ) && (r2 matches Err(e) && (e matches TaskError::ExecutableWaitFailure {
                        executable,
                        kind: k2,
                    } && (executable@ == "/bin/sh"@ && k2 == kind)))),
                    SpawnOutcome::Cancelled => !cancel && final(self).done == Some(
                        Ok::<TaskResult, TaskError>(TaskResult::Cancelled),
                    ),
                    SpawnOutcome::Exited { status } => {
                        if status.code == Some(0i32) || t.commands@[ix].ignore_result {
                            !cancel && final(self).done is None && final(self).ix == ix + 1
                        } else {
                            cancel && (final(self).done matches Some(r2) && (r2 matches Err(e) && (
                            e matches TaskError::Failed { command, exit_status } && (command@
                                == t.commands@[ix].sh@ && exit_status == status))))
                        }
                    },
                }
            }),
    {
        self.awaiting = false;
        match outcome {
            SpawnOutcome::SpawnFailed { kind } => {
                self.done = Some(
                    Err(TaskError::ExecutableError { executable: "/bin/sh".to_owned(), kind }),
                );
                false
            },
            SpawnOutcome::WaitFailed { kind } => {
                self.done = Some(
                    Err(
                        TaskError::ExecutableWaitFailure {
                            executable: "/bin/sh".to_owned(),
                            kind,
                        },
                    ),
                );
                false
            },
            SpawnOutcome::Cancelled => {
                self.done = Some(Ok(TaskResult::Cancelled));
                false
            },
            SpawnOutcome::Exited { status } => {
                let n = self.task.commands.len();
                if status.success() || self.task.commands[self.ix].ignore_result {
                    self.ix = self.ix + 1;
                    false
                } else {
                    let command = self.task.commands[self.ix].sh.clone();
                    self.done = Some(Err(TaskError::Failed { command, exit_status: status }));
                    true
                }
            },
        }
    }
}

/// The first event of a task: skipped outright when an upstream completion
/// signal was dropped without firing, otherwise `Started`. The second
/// component says whether the task's commands run at all.
pub fn executor_begin(task_id: usize, upstream_ok: bool) -> (r: (StatusMessage, bool))
    ensures
        r.1 == upstream_ok,
        r.0.0 == task_id,
        upstream_ok ==> r.0.1@ == TaskStatusV::Started,
        !upstream_ok ==> r.0.1@ == (TaskStatusV::Finished {
            result: Ok::<TaskResult, TaskErrorV>(TaskResult::Skipped),
        }),
{
    if upstream_ok {
        ((task_id, TaskStatus::Started {  }), true)
    } else {
        ((task_id, TaskStatus::Finished { result: Ok(TaskResult::Skipped) }), false)
    }
}

/// Tags a line read from the child's stdout or stderr as a status event.
pub fn line_status(line: String, is_err: bool) -> (s: TaskStatus)
    ensures
        is_err ==> s@ == TaskStatusV::StdErr(line@),
        !is_err ==> s@ == TaskStatusV::StdOut(line@),
{
    if is_err {
        TaskStatus::StdErr(line)
    } else {
        TaskStatus::StdOut(line)
    }
}

/// Everything that follows the runner's verdict on one task.
pub struct ExecutorFinish {
    /// The task's closing event for the multiplexer.
    pub status: TaskStatus,
    /// Trigger the task's dep-done signal (exactly on `RanToCompletion`).
    pub trigger_done: bool,
    /// The executor's value for the run's failure aggregation.
    pub outcome: Result<TaskResult, Error>,
}

/// Decides how a task closes: the dep-done signal fires only when it ran to
/// completion, and an error becomes the run's `TaskFailed` carrying the task's name.
pub fn executor_finish(task_name: &String, result: Result<TaskResult, TaskError>) -> (r:
    ExecutorFinish)
    ensures
        r.trigger_done <==> result == Ok::<TaskResult, TaskError>(TaskResult::RanToCompletion),
        r.status@ == (TaskStatusV::Finished { result: result_view(result) }),
        match result {
            Ok(v) => r.outcome == Ok::<TaskResult, Error>(v),
            Err(e) => r.outcome matches Err(e2) && (e2 matches Error::TaskFailed {
                task_name: n2,
                task_error,
            } && (n2@ == task_name@ && task_error == e)),
        },
{
    let trigger_done = match &result {
        Ok(TaskResult::RanToCompletion) => true,
        _ => false,
    };
    let status = TaskStatus::Finished { result: clone_task_result(&result) };
    let outcome = match result {
        Ok(v) => Ok(v),
        Err(e) => Err(
            Error::TaskFailed { task_name: task_name.clone(), task_error: e },
        ),
    };
    ExecutorFinish { status, trigger_done, outcome }
}

/// The events one executor emits, in order: a task whose upstream did not
/// all complete reports only `Finished(Skipped)`; a task that ran reports
/// `Started`, its output lines, and one closing `Finished`.
pub open spec fn executor_emissions(
    upstream_ok: bool,
    lines: Seq<TaskStatusV>,
    result: Result<TaskResult, TaskErrorV>,
) -> Seq<TaskStatusV> {
    if !upstream_ok {
        seq![TaskStatusV::Finished { result: Ok(TaskResult::Skipped) }]
    } else {
        seq![TaskStatusV::Started] + lines + seq![TaskStatusV::Finished { result }]
    }
}

/// An event carrying one line of child output.
pub open spec fn is_line_event(s: TaskStatusV) -> bool {
    s is StdOut || s is StdErr
}

/// How many `Started` events a sequence holds.
pub open spec fn started_count(s: Seq<TaskStatusV>) -> nat
    decreases s.len(),
{
    if s.len() == 0 {
        0
    } else {
        started_count(s.drop_last()) + if s.last() is Started {
            1nat
        } else {
            0nat
        }
    }
}

proof fn lemma_started_count_first_only(s: Seq<TaskStatusV>)
    requires
        s.len() >= 1,
        forall|i: int| 1 <= i < s.len() ==> !((#[trigger] s[i]) is Started),
    ensures
        started_count(s) == if s[0] is Started {
            1nat
        } else {
            0nat
        },
    decreases s.len(),
{
    if s.len() == 1 {
        assert(s.drop_last().len() == 0);
        assert(started_count(s.drop_last()) == 0);
        assert(s.last() == s[0]);
    } else {
        lemma_started_count_first_only(s.drop_last());
    }
}

/// Each task appears at most once in `Started` and exactly once in
/// `Finished` events: its emission sequence is non-empty, ends with its one
/// `Finished`, and holds at most one `Started`.
pub proof fn lemma_task_events_unique(
    upstream_ok: bool,
    lines: Seq<TaskStatusV>,
    result: Result<TaskResult, TaskErrorV>,
)
    requires
        forall|i: int| 0 <= i < lines.len() ==> is_line_event(#[trigger] lines[i]),
    ensures
        ({
            let e = executor_emissions(upstream_ok, lines, result);
            &&& e.len() >= 1
            &&& e.last() is Finished
            &&& forall|i: int| 0 <= i < e.len() - 1 ==> !((#[trigger] e[i]) is Finished)
            &&& started_count(e) <= 1
        }),
{
    let e = executor_emissions(upstream_ok, lines, result);
    if !upstream_ok {
        lemma_started_count_first_only(e);
    } else {
        assert(e.last() is Finished);
        assert forall|i: int| 0 <= i < e.len() - 1 implies !((#[trigger] e[i]) is Finished) by {
            if i > 0 {
                assert(e[i] == lines[i - 1]);
                assert(is_line_event(lines[i - 1]));
            }
        }
        assert forall|i: int| 1 <= i < e.len() implies !((#[trigger] e[i]) is Started) by {
            if i < e.len() - 1 {
                assert(e[i] == lines[i - 1]);
                assert(is_line_event(lines[i - 1]));
            }
        }
        lemma_started_count_first_only(e);
    }
}

/// All upstream dependencies ran to completion, so their dep-done signals
/// all fired.
pub open spec fn upstream_ok_of(dep_results: Seq<Result<TaskResult, TaskErrorV>>) -> bool {
    forall|i: int|
        0 <= i < dep_results.len() ==> #[trigger] dep_results[i] == Ok::<TaskResult, TaskErrorV>(
            TaskResult::RanToCompletion,
        )
}

/// A task all of whose dependencies ran to completion begins with `Started`:
/// it really runs.
pub proof fn lemma_completed_upstream_starts_dependent(
    dep_results: Seq<Result<TaskResult, TaskErrorV>>,
    lines: Seq<TaskStatusV>,
    result: Result<TaskResult, TaskErrorV>,
)
    requires
        upstream_ok_of(dep_results),
    ensures
        executor_emissions(upstream_ok_of(dep_results), lines, result)[0] == TaskStatusV::Started,
{
}

/// A task any of whose dependencies finished with something other than
/// `RanToCompletion` emits exactly one event — `Finished(Skipped)` — and
/// never a `Started`.
pub proof fn lemma_failed_upstream_skips_dependent(
    dep_results: Seq<Result<TaskResult, TaskErrorV>>,
    i: int,
    lines: Seq<TaskStatusV>,
    result: Result<TaskResult, TaskErrorV>,
)
    requires
        0 <= i < dep_results.len(),
        dep_results[i] != Ok::<TaskResult, TaskErrorV>(TaskResult::RanToCompletion),
    ensures
        ({
            let e = executor_emissions(upstream_ok_of(dep_results), lines, result);
            &&& e =~= seq![
                TaskStatusV::Finished { result: Ok::<TaskResult, TaskErrorV>(TaskResult::Skipped) },
            ]
            &&& started_count(e) == 0
        }),
{
    assert(!upstream_ok_of(dep_results));
    let e = executor_emissions(upstream_ok_of(dep_results), lines, result);
    lemma_started_count_first_only(e);
}

/// The errors among the executors' outcomes, in plan order.
pub open spec fn errs_of(s: Seq<Result<TaskResult, Error>>) -> Seq<Error>
    decreases s.len(),
{
    if s.len() == 0 {
        Seq::empty()
    } else {
        errs_of(s.drop_last()) + (match s.last() {
            Ok(_) => Seq::<Error>::empty(),
            Err(e) => seq![e],
        })
    }
}

/// Collates the executors' outcomes into the run's result: success when no
/// task failed, the lone error when one did, `Multiple` (in plan order)
/// otherwise.
pub fn aggregate_results(results: Vec<Result<TaskResult, Error>>) -> (r: Result<(), Error>)
    ensures
        ({
            let errs = errs_of(results@);
            if errs.len() == 0 {
                r is Ok
            } else if errs.len() == 1 {
                r == Err::<(), Error>(errs[0])
            } else {
                r matches Err(e) && (e matches Error::Multiple { failures } && failures@ == errs)
            }
        }),
{
    let ghost results0 = results@;
    let mut rest = results;
    let mut tmp: Vec<Error> = Vec::new();
    while rest.len() > 0
        invariant
            errs_of(results0) == errs_of(rest@) + tmp@.reverse(),
        decreases rest@.len(),
    {
        let ghost pre = rest@;
        let x = rest.pop();
        match x {
            Some(Ok(_)) => {
                proof {
                    assert(errs_of(pre) =~= errs_of(rest@));
                    assert(errs_of(results0) == errs_of(rest@) + tmp@.reverse());
                }
            },
            Some(Err(e)) => {
                let ghost tpre = tmp@;
                tmp.push(e);
                proof {
                    assert(errs_of(pre) =~= errs_of(rest@) + seq![e]);
                    assert(tmp@.reverse() =~= seq![e] + tpre.reverse());
                    assert(errs_of(rest@) + tmp@.reverse() =~= (errs_of(rest@) + seq![e])
                        + tpre.reverse());
                    assert(errs_of(results0) =~= errs_of(rest@) + tmp@.reverse());
                }
            },
            None => {
                proof {
                    assert(false);
                }
            },
        }
    }
    proof {
        assert(errs_of(rest@) =~= Seq::<Error>::empty());
        assert(errs_of(results0) =~= tmp@.reverse());
    }
    let mut failures: Vec<Error> = Vec::new();
    while tmp.len() > 0
        invariant
            failures@ + tmp@.reverse() == errs_of(results0),
        decreases tmp@.len(),
    {
        let ghost tpre = tmp@;
        let ghost fpre = failures@;
        let x = tmp.pop();
        match x {
            Some(e) => {
                failures.push(e);
                proof {
                    assert(tpre.reverse() =~= seq![e] + tmp@.reverse());
                    assert(failures@ =~= fpre + seq![e]);
                    assert(failures@ + tmp@.reverse() =~= fpre + tpre.reverse());
                }
            },
            None => {
                proof {
                    assert(false);
                }
            },
        }
    }
    proof {
        assert(tmp@.reverse() =~= Seq::<Error>::empty());
        assert(failures@ =~= errs_of(results0));
    }
    if failures.len() == 0 {
        Ok(())
    } else if failures.len() == 1 {
        let e = match failures.pop() {
            Some(e) => e,
            None => {
                proof {
                    assert(false);
                }
                Error::MissingVersion
            },
        };
        Err(e)
    } else {
        Err(Error::Multiple { failures })
    }
}

/// The lines the dry-run mode prints: a heading, then `- name` per task in
/// plan order.
pub fn dry_run_lines(p: &Vec<String>) -> (r: Vec<String>)
    ensures
        r@.len() == p@.len() + 1,
        r@[0]@ == "Would run tasks in the following order:"@,
        forall|k: int| 1 <= k < r@.len() ==> (#[trigger] r@[k])@ == "- "@ + p@[k - 1]@,
{
    let mut r: Vec<String> = Vec::new();
    r.push("Would run tasks in the following order:".to_owned());
    let mut i: usize = 0;
    while i < p.len()
        invariant
            i <= p@.len(),
            r@.len() == i + 1,
            r@[0]@ == "Would run tasks in the following order:"@,
            forall|k: int| 1 <= k < r@.len() ==> (#[trigger] r@[k])@ == "- "@ + p@[k - 1]@,
        decreases p@.len() - i,
    {
        let mut line = "- ".to_owned();
        line.append(p[i].as_str());
        r.push(line);
        i = i + 1;
    }
    r
}

} // verus!
