//! The byte sink at the end of the multiplexer: lines, each closed with a
//! newline, gathered for the host's two output streams. The host copies the
//! gathered text to its real stdout and stderr.

use vstd::prelude::*;
use vstd::string::StringExecFns;

use crate::commands::Message;
use crate::commands::MessageV;

verus! {

/// The text written so far to each of the host's streams.
pub struct Sink {
    pub stdout: String,
    pub stderr: String,
}

impl Sink {
    pub fn new() -> (r: Sink)
        ensures
            r.stdout@ == Seq::<char>::empty(),
            r.stderr@ == Seq::<char>::empty(),
    {
        Sink { stdout: String::new(), stderr: String::new() }
    }

    /// Appends the line and a closing newline to the stream it is for.
    pub fn handle(&mut self, msg: Message)
        ensures
            match msg@ {
                MessageV::Stdout(l) => final(self).stdout@ == old(self).stdout@ + l + "\n"@
                    && final(self).stderr == old(self).stderr,
                MessageV::Stderr(l) => final(self).stderr@ == old(self).stderr@ + l + "\n"@
                    && final(self).stdout == old(self).stdout,
            },
    {
        match msg {
            Message::Stdout(l) => {
                self.stdout.append(l.as_str());
                self.stdout.append("\n");
            },
            Message::Stderr(l) => {
                self.stderr.append(l.as_str());
                self.stderr.append("\n");
            },
        }
    }
}

} // verus!
