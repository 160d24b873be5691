//! The in-memory nurfile data model: tasks, commands, environment maps and
//! output options. Configuration file parsing lives outside the library; only
//! its product, these types, is consumed here.
//!
//! Environment maps are association lists of `(key, value)` pairs. Lookup
//! takes the last binding of a key, so appending one list to another lets the
//! appended list's bindings win — exactly how a child process environment is
//! built up by applying task bindings and then command bindings.

use vstd::prelude::*;

use crate::version::Version;

verus! {

/// The bindings of an environment map, as sequences of characters.
pub open spec fn env_view(e: Seq<(String, String)>) -> Seq<(Seq<char>, Seq<char>)> {
    e.map_values(|p: (String, String)| (p.0@, p.1@))
}

/// The value bound to `key`, taking the last binding when a key repeats.
pub open spec fn env_lookup(e: Seq<(Seq<char>, Seq<char>)>, key: Seq<char>) -> Option<Seq<char>>
    decreases e.len(),
{
    if e.len() == 0 {
        None
    } else if e.last().0 == key {
        Some(e.last().1)
    } else {
        env_lookup(e.drop_last(), key)
    }
}

/// Looking a key up in one list appended to another finds the appended
/// list's binding first.
pub proof fn lemma_env_lookup_concat(
    a: Seq<(Seq<char>, Seq<char>)>,
    b: Seq<(Seq<char>, Seq<char>)>,
    key: Seq<char>,
)
    ensures
        env_lookup(a + b, key) == if env_lookup(b, key) is Some {
            env_lookup(b, key)
        } else {
            env_lookup(a, key)
        },
    decreases b.len(),
{
    if b.len() == 0 {
        assert(a + b =~= a);
    } else {
        assert((a + b).last() == b.last());
        assert((a + b).drop_last() =~= a + b.drop_last());
        lemma_env_lookup_concat(a, b.drop_last(), key);
    }
}

/// Returns the value bound to `key`, the last binding winning.
pub fn lookup_env(env: &Vec<(String, String)>, key: &String) -> (r: Option<String>)
    ensures
        match r {
            Some(v) => env_lookup(env_view(env@), key@) == Some(v@),
            None => env_lookup(env_view(env@), key@) is None,
        },
{
    let mut i: usize = env.len();
    proof {
        assert(env_view(env@).subrange(0, i as int) =~= env_view(env@));
    }
    while i > 0
        invariant
            i <= env@.len(),
            env_lookup(env_view(env@), key@) == env_lookup(
                env_view(env@).subrange(0, i as int),
                key@,
            ),
        decreases i,
    {
        i = i - 1;
        let ghost pre = env_view(env@).subrange(0, i + 1);
        proof {
            assert(pre.last() == (env@[i as int].0@, env@[i as int].1@));
            assert(pre.drop_last() =~= env_view(env@).subrange(0, i as int));
        }
        if env[i].0 == *key {
            return Some(env[i].1.clone());
        }
    }
    proof {
        assert(env_view(env@).subrange(0, 0) =~= Seq::<(Seq<char>, Seq<char>)>::empty());
    }
    None
}

/// The bindings a child process sees on top of the inherited environment:
/// the task's bindings, then the command's, so the command's win.
pub fn env_overlay(task_env: &Vec<(String, String)>, cmd_env: &Vec<(String, String)>) -> (r: Vec<
    (String, String),
>)
    ensures
        env_view(r@) == env_view(task_env@) + env_view(cmd_env@),
{
    let mut out: Vec<(String, String)> = Vec::new();
    let mut i: usize = 0;
    while i < task_env.len()
        invariant
            i <= task_env@.len(),
            out@.len() == i,
            env_view(out@) =~= env_view(task_env@.subrange(0, i as int)),
        decreases task_env@.len() - i,
    {
        let pair = (task_env[i].0.clone(), task_env[i].1.clone());
        proof {
            assert(pair == task_env@[i as int]);
        }
        out.push(pair);
        i = i + 1;
        proof {
            let sub = task_env@.subrange(0, i as int);
            assert(env_view(out@).len() == out@.len());
            assert(env_view(sub).len() == sub.len());
            assert(out@.len() == i);
            assert(env_view(out@).len() == env_view(sub).len());
            assert forall|k: int| 0 <= k < i implies env_view(out@)[k] == env_view(sub)[k] by {
                assert(sub[k] == task_env@[k]);
                if k < i - 1 {
                    assert(env_view(out@)[k] == env_view(task_env@.subrange(0, i - 1))[k]);
                }
            }
            assert(env_view(out@) =~= env_view(sub));
        }
    }
    proof {
        assert(task_env@.subrange(0, task_env@.len() as int) =~= task_env@);
    }
    let mut j: usize = 0;
    while j < cmd_env.len()
        invariant
            j <= cmd_env@.len(),
            out@.len() == task_env@.len() + j,
            env_view(out@) =~= env_view(task_env@) + env_view(cmd_env@.subrange(0, j as int)),
        decreases cmd_env@.len() - j,
    {
        let pair = (cmd_env[j].0.clone(), cmd_env[j].1.clone());
        proof {
            assert(pair == cmd_env@[j as int]);
        }
        out.push(pair);
        j = j + 1;
        proof {
            let sub = cmd_env@.subrange(0, j as int);
            let rhs = env_view(task_env@) + env_view(sub);
            assert(env_view(out@).len() == out@.len());
            assert(env_view(sub).len() == sub.len());
            assert(env_view(task_env@).len() == task_env@.len());
            assert forall|k: int| 0 <= k < out@.len() implies env_view(out@)[k] == rhs[k] by {
                if k < task_env@.len() {
                    assert(env_view(out@)[k] == (env_view(task_env@) + env_view(
                        cmd_env@.subrange(0, j - 1),
                    ))[k]);
                } else if k < out@.len() - 1 {
                    assert(env_view(out@)[k] == (env_view(task_env@) + env_view(
                        cmd_env@.subrange(0, j - 1),
                    ))[k]);
                    assert(sub[k - task_env@.len()] == cmd_env@[k - task_env@.len()]);
                } else {
                    assert(sub[k - task_env@.len()] == cmd_env@[j - 1]);
                }
            }
            assert(env_view(out@) =~= rhs);
        }
    }
    proof {
        assert(cmd_env@.subrange(0, cmd_env@.len() as int) =~= cmd_env@);
        assert(env_view(out@) =~= env_view(task_env@) + env_view(cmd_env@));
    }
    out
}

/// Environment precedence: with the task's bindings applied to the inherited
/// environment and the command's bindings applied on top, a key bound by the
/// command sees the command's value; a key bound only by the task sees the
/// task's; any other key keeps its inherited binding.
pub proof fn lemma_env_precedence(
    inherited: Seq<(Seq<char>, Seq<char>)>,
    task_env: Seq<(Seq<char>, Seq<char>)>,
    cmd_env: Seq<(Seq<char>, Seq<char>)>,
    key: Seq<char>,
)
    ensures
        env_lookup(inherited + (task_env + cmd_env), key) == if env_lookup(cmd_env, key)
            is Some {
            env_lookup(cmd_env, key)
        } else if env_lookup(task_env, key) is Some {
            env_lookup(task_env, key)
        } else {
            env_lookup(inherited, key)
        },
{
    lemma_env_lookup_concat(task_env, cmd_env, key);
    lemma_env_lookup_concat(inherited, task_env + cmd_env, key);
}

/// One shell command of a task.
#[derive(Debug, Clone)]
pub struct NurCommand {
    /// Bindings overriding the task's environment for this command.
    pub env: Vec<(String, String)>,
    /// The shell source to run, via `/bin/sh -c`.
    pub sh: String,
    /// When set, a non-zero exit does not fail the task.
    pub ignore_result: bool,
}

/// One named task: its dependencies and the commands it runs in order.
#[derive(Debug, Clone)]
pub struct NurTask {
    pub env: Vec<(String, String)>,
    pub description: String,
    pub dependencies: Vec<String>,
    pub commands: Vec<NurCommand>,
    /// When unset, cancellation does not interrupt the task's running child.
    pub cancellable: bool,
}

/// How each line of output is labelled.
#[derive(Debug, Copy, Clone, PartialEq, Eq, Structural)]
pub enum PrefixStyle {
    NoPrefix,
    Always,
    Aligned,
}

impl Default for PrefixStyle {
    fn default() -> (r: Self)
        ensures
            r == PrefixStyle::Aligned,
    {
        PrefixStyle::Aligned
    }
}

/// How per-task output is composed into the host streams.
#[derive(Debug, Clone)]
pub enum OutputStyle {
    Grouped {
        separator: String,
        separator_first: Option<String>,
        separator_last: Option<String>,
        deterministic: bool,
        only_on_failure: bool,
    },
    Streamed { separator: String, separator_switch: Option<String> },
}

impl Default for OutputStyle {
    fn default() -> (r: Self)
        ensures
            r matches OutputStyle::Streamed { separator, separator_switch } && (separator@
                == "\u{2502}"@ && (separator_switch matches Some(sw) && sw@ == "\u{253c}"@)),
    {
        OutputStyle::Streamed {
            separator: "\u{2502}".to_owned(),
            separator_switch: Some("\u{253c}".to_owned()),
        }
    }
}

#[derive(Debug, Clone)]
pub struct OutputOptions {
    pub style: OutputStyle,
    pub prefix: PrefixStyle,
}

impl Default for OutputOptions {
    fn default() -> (r: Self)
        ensures
            r.prefix == PrefixStyle::Aligned,
            r.style matches OutputStyle::Streamed { separator, separator_switch } && (separator@
                == "\u{2502}"@ && (separator_switch matches Some(sw) && sw@ == "\u{253c}"@)),
    {
        OutputOptions { style: Default::default(), prefix: Default::default() }
    }
}

#[derive(Debug, Clone)]
pub struct Options {
    pub output: OutputOptions,
}

impl Default for Options {
    fn default() -> (r: Self)
        ensures
            r.output.prefix == PrefixStyle::Aligned,
            r.output.style matches OutputStyle::Streamed { separator, separator_switch }
                && (separator@ == "\u{2502}"@ && (separator_switch matches Some(sw) && sw@
                == "\u{253c}"@)),
    {
        Options { output: Default::default() }
    }
}

/// A named value declaration. The nurfile format reserves these; the engine
/// does not use them yet.
#[derive(Debug, Clone)]
pub struct Let {}

/// A loaded nurfile: the task map (names unique), file-wide environment, and
/// output options.
#[derive(Debug, Clone)]
pub struct NurFile {
    pub version: Version,
    pub options: Options,
    pub lets: Vec<Let>,
    pub tasks: Vec<(String, NurTask)>,
    pub env: Vec<(String, String)>,
}

impl NurFile {
    /// Task names are unique, as keys of a map.
    pub open spec fn wf(&self) -> bool {
        forall|i: int, j: int|
            0 <= i < j < self.tasks@.len() ==> self.tasks@[i].0@ != self.tasks@[j].0@
    }
}

/// Whether some task in the map has this name.
pub open spec fn has_task(tasks: Seq<(String, NurTask)>, name: Seq<char>) -> bool {
    exists|i: int| 0 <= i < tasks.len() && #[trigger] tasks[i].0@ == name
}

/// Finds the task with this name.
pub fn lookup_task<'a>(tasks: &'a Vec<(String, NurTask)>, name: &String) -> (r: Option<usize>)
    ensures
        match r {
            Some(i) => i < tasks@.len() && tasks@[i as int].0@ == name@,
            None => !has_task(tasks@, name@),
        },
{
    let mut i: usize = 0;
    while i < tasks.len()
        invariant
            i <= tasks@.len(),
            forall|j: int| 0 <= j < i ==> #[trigger] tasks@[j].0@ != name@,
        decreases tasks@.len() - i,
    {
        if tasks[i].0 == *name {
            return Some(i);
        }
        i = i + 1;
    }
    None
}

} // verus!
