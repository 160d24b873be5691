//! The commands the host CLI can run. Their data lives here; the parts that
//! touch the file system, terminal or processes are the host's, and hand
//! these types plain values.

use vstd::prelude::*;

pub mod task;

pub use task::Task;

verus! {

/// A finished line for one of the host's two output streams.
#[derive(Debug)]
pub enum Message {
    Stdout(String),
    Stderr(String),
}

pub enum MessageV {
    Stdout(Seq<char>),
    Stderr(Seq<char>),
}

impl View for Message {
    type V = MessageV;

    open spec fn view(&self) -> MessageV {
        match self {
            Message::Stdout(l) => MessageV::Stdout(l@),
            Message::Stderr(l) => MessageV::Stderr(l@),
        }
    }
}

impl DeepView for Message {
    type V = MessageV;

    open spec fn deep_view(&self) -> MessageV {
        self.view()
    }
}

/// Syntax-checks the nurfile and its shell commands.
#[derive(Debug)]
pub struct Check {
    pub nur_file: Option<String>,
}

/// Creates a fresh sample nurfile.
#[derive(Debug)]
pub struct Init {
    pub nur_file: Option<String>,
    pub dry_run: bool,
}

/// Lists the tasks of the nurfile.
#[derive(Debug)]
pub struct List {
    pub nur_file: Option<String>,
}

} // verus!
