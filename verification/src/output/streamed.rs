//! The streamed output style: every status message becomes one line the
//! moment it arrives, labelled by the prefixer and joined with a separator —
//! the switch separator when a different task starts writing.

use vstd::prelude::*;
use vstd::string::StringExecFns;

use crate::commands::Message;
use crate::commands::MessageV;
use crate::output::prefix_step;
use crate::output::prefixer_wf;
use crate::output::Prefixer;
use crate::output::PrefixerV;
use crate::task_error_text;
use crate::StatusMessage;
use crate::TaskResult;
use crate::TaskStatus;
use crate::TaskStatusV;

verus! {

/// Turns status messages into single annotated lines as they arrive.
pub struct Streamed {
    /// The task that wrote most recently (a sentinel before any wrote).
    pub last_id: usize,
    pub separator: String,
    pub separator_first: String,
    pub separator_switch: String,
    pub separator_last: String,
    /// Task names, indexed by task id (plan position).
    pub names: Vec<String>,
    pub prefixer: Prefixer,
}

pub struct StreamedV {
    pub last_id: int,
    pub separator: Seq<char>,
    pub separator_first: Seq<char>,
    pub separator_switch: Seq<char>,
    pub separator_last: Seq<char>,
    pub names: Seq<Seq<char>>,
    pub prefixer: PrefixerV,
}

impl View for Streamed {
    type V = StreamedV;

    open spec fn view(&self) -> StreamedV {
        StreamedV {
            last_id: self.last_id as int,
            separator: self.separator@,
            separator_first: self.separator_first@,
            separator_switch: self.separator_switch@,
            separator_last: self.separator_last@,
            names: self.names.deep_view(),
            prefixer: self.prefixer@,
        }
    }
}

/// The text that follows the separator, for each kind of event.
pub open spec fn streamed_body(name: Seq<char>, st: TaskStatusV) -> Seq<char> {
    match st {
        TaskStatusV::StdOut(l) => l,
        TaskStatusV::StdErr(l) => l,
        TaskStatusV::Started => "\u{2574} Started task \u{2018}"@ + name + "\u{2019}"@,
        TaskStatusV::Finished { result } => match result {
            Ok(TaskResult::Skipped) => "\u{2574} Task \u{2018}"@ + name + "\u{2019} skipped"@,
            Ok(TaskResult::RanToCompletion) => "\u{2574} Task \u{2018}"@ + name
                + "\u{2019} completed"@,
            Ok(TaskResult::Cancelled) => "\u{2574} Task \u{2018}"@ + name + "\u{2019} cancelled"@,
            Err(e) => "\u{2574} Task \u{2018}"@ + name + "\u{2019} failed: "@ + task_error_text(e),
        },
    }
}

/// The separator between label and body, for each kind of event.
pub open spec fn streamed_sep(v: StreamedV, id: int, st: TaskStatusV) -> Seq<char> {
    match st {
        TaskStatusV::StdOut(l) => if id == v.last_id {
            v.separator
        } else {
            v.separator_switch
        },
        TaskStatusV::StdErr(l) => if id == v.last_id {
            v.separator
        } else {
            v.separator_switch
        },
        TaskStatusV::Started => v.separator_first,
        TaskStatusV::Finished { result } => v.separator_last,
    }
}

/// One step of the streamed writer: the line it emits, and its state after.
pub open spec fn streamed_step(v: StreamedV, id: int, st: TaskStatusV) -> (StreamedV, MessageV) {
    let name = v.names[id];
    let pr = prefix_step(v.prefixer, name);
    let line = pr.1 + streamed_sep(v, id, st) + streamed_body(name, st);
    let v2 = StreamedV { last_id: id, prefixer: pr.0, ..v };
    let msg = match st {
        TaskStatusV::StdErr(l) => MessageV::Stderr(line),
        _ => MessageV::Stdout(line),
    };
    (v2, msg)
}

impl Streamed {
    pub open spec fn wf(&self) -> bool {
        prefixer_wf(self.prefixer@)
    }

    pub fn new(
        separator: String,
        separator_first: String,
        separator_switch: String,
        separator_last: String,
        names: Vec<String>,
        prefixer: Prefixer,
    ) -> (r: Streamed)
        requires
            prefixer_wf(prefixer@),
        ensures
            r.wf(),
            r.last_id == usize::MAX,
            r.separator == separator,
            r.separator_first == separator_first,
            r.separator_switch == separator_switch,
            r.separator_last == separator_last,
            r.names == names,
            r.prefixer == prefixer,
    {
        Streamed {
            last_id: usize::MAX,
            separator,
            separator_first,
            separator_switch,
            separator_last,
            names,
            prefixer,
        }
    }

    /// Formats one status message as a line for the host's stdout (or, for a
    /// child's stderr line, the host's stderr).
    pub fn handle(&mut self, msg: StatusMessage) -> (m: Message)
        requires
            old(self).wf(),
            msg.0 < old(self).names@.len(),
        ensures
            final(self).wf(),
            final(self).names == old(self).names,
            final(self)@ == streamed_step(old(self)@, msg.0 as int, msg.1@).0,
            m@ == streamed_step(old(self)@, msg.0 as int, msg.1@).1,
    {
        let (task_id, status) = msg;
        let name = self.names[task_id].clone();
        proof {
            assert(name@ == old(self)@.names[task_id as int]);
        }
        let mut line = self.prefixer.prefix(&name);
        let is_switch = task_id != self.last_id;
        let res = match status {
            TaskStatus::StdOut(l) => {
                if is_switch {
                    line.append(self.separator_switch.as_str());
                } else {
                    line.append(self.separator.as_str());
                }
                line.append(l.as_str());
                Message::Stdout(line)
            },
            TaskStatus::StdErr(l) => {
                if is_switch {
                    line.append(self.separator_switch.as_str());
                } else {
                    line.append(self.separator.as_str());
                }
                line.append(l.as_str());
                Message::Stderr(line)
            },
            TaskStatus::Started {  } => {
                line.append(self.separator_first.as_str());
                line.append("\u{2574} Started task \u{2018}");
                line.append(name.as_str());
                line.append("\u{2019}");
                Message::Stdout(line)
            },
            TaskStatus::Finished { result } => {
                line.append(self.separator_last.as_str());
                match result {
                    Ok(TaskResult::Skipped) => {
                        line.append("\u{2574} Task \u{2018}");
                        line.append(name.as_str());
                        line.append("\u{2019} skipped");
                    },
                    Ok(TaskResult::RanToCompletion) => {
                        line.append("\u{2574} Task \u{2018}");
                        line.append(name.as_str());
                        line.append("\u{2019} completed");
                    },
                    Ok(TaskResult::Cancelled) => {
                        line.append("\u{2574} Task \u{2018}");
                        line.append(name.as_str());
                        line.append("\u{2019} cancelled");
                    },
                    Err(e) => {
                        line.append("\u{2574} Task \u{2018}");
                        line.append(name.as_str());
                        line.append("\u{2019} failed: ");
                        line.append(e.render().as_str());
                    },
                }
                Message::Stdout(line)
            },
        };
        self.last_id = task_id;
        proof {
            let step = streamed_step(old(self)@, task_id as int, msg.1@);
            assert(match (res@, step.1) {
                (MessageV::Stdout(a), MessageV::Stdout(b)) => a =~= b,
                (MessageV::Stderr(a), MessageV::Stderr(b)) => a =~= b,
                _ => false,
            });
            assert(res@ == step.1);
            assert(final(self)@ == step.0);
        }
        res
    }
}

} // verus!
