//! The output multiplexer: per-line prefixers and the two composition
//! styles, streamed and grouped. A single consumer feeds status messages in
//! and writes the returned lines to the host's streams, so no further
//! synchronization is needed around the byte sinks.

use vstd::prelude::*;
use vstd::string::StrSliceExecFns;

use crate::commands::Message;
use crate::output::grouped::grouped_step;
use crate::output::grouped::streamed_run;
use crate::output::grouped::Grouped;
use crate::output::streamed::streamed_step;
use crate::text::spaces;
use crate::text::spaces_seq;
use crate::StatusMessage;

pub mod grouped;
pub mod sink;
pub mod streamed;

pub use streamed::Streamed;

verus! {

/// Tracks the widest task name seen, labelling each line with the name
/// right-aligned in a column of that width — or just spaces when the task
/// repeats.
pub struct AlignedPrefixer {
    /// Current column width: the largest of the initial hint and every name
    /// seen so far.
    pub max_len: usize,
    /// The name most recently labelled.
    pub last: String,
    /// The width the column started with.
    pub hint: Ghost<nat>,
    /// Every name labelled so far, in order.
    pub seen: Ghost<Seq<Seq<char>>>,
}

/// The per-line label generator: nothing, the bare task name, or the task
/// name aligned in a growing column.
pub enum Prefixer {
    Null,
    Always,
    Aligned(AlignedPrefixer),
}

pub enum PrefixerV {
    Null,
    Always,
    Aligned { max_len: nat, last: Seq<char>, hint: nat, seen: Seq<Seq<char>> },
}

impl View for Prefixer {
    type V = PrefixerV;

    open spec fn view(&self) -> PrefixerV {
        match self {
            Prefixer::Null => PrefixerV::Null,
            Prefixer::Always => PrefixerV::Always,
            Prefixer::Aligned(a) => PrefixerV::Aligned {
                max_len: a.max_len as nat,
                last: a.last@,
                hint: a.hint@,
                seen: a.seen@,
            },
        }
    }
}

/// The width of the aligned column: the largest of the initial hint and the
/// lengths of all names seen.
pub open spec fn width_of(hint: nat, seen: Seq<Seq<char>>) -> nat
    decreases seen.len(),
{
    if seen.len() == 0 {
        hint
    } else {
        let w = width_of(hint, seen.drop_last());
        if seen.last().len() > w {
            seen.last().len()
        } else {
            w
        }
    }
}

/// The aligned column is exactly as wide as the longest name seen (or the
/// hint), and the remembered previous name fits in it.
pub open spec fn prefixer_wf(p: PrefixerV) -> bool {
    match p {
        PrefixerV::Aligned { max_len, last, hint, seen } => {
            &&& max_len == width_of(hint, seen)
            &&& last.len() <= max_len
        },
        _ => true,
    }
}

/// One labelling step: the label text, and the prefixer's state after it.
pub open spec fn prefix_step(p: PrefixerV, name: Seq<char>) -> (PrefixerV, Seq<char>) {
    match p {
        PrefixerV::Null => (PrefixerV::Null, Seq::empty()),
        PrefixerV::Always => (PrefixerV::Always, name),
        PrefixerV::Aligned { max_len, last, hint, seen } => {
            if last == name {
                (
                    PrefixerV::Aligned { max_len, last, hint, seen: seen.push(name) },
                    spaces_seq(max_len),
                )
            } else {
                let w = if name.len() > max_len {
                    name.len()
                } else {
                    max_len
                };
                (
                    PrefixerV::Aligned { max_len: w, last: name, hint, seen: seen.push(name) },
                    spaces_seq((w - name.len()) as nat) + name,
                )
            }
        },
    }
}

/// Labelling never shrinks the aligned column, and afterwards the column is
/// exactly the largest of the starting hint and every name labelled so far.
pub proof fn lemma_prefix_width(p: PrefixerV, name: Seq<char>)
    requires
        prefixer_wf(p),
        p is Aligned,
    ensures
        ({
            let (q, text) = prefix_step(p, name);
            &&& prefixer_wf(q)
            &&& q matches PrefixerV::Aligned { max_len: w2, last: l2, hint: h2, seen: s2 } && (
            p matches PrefixerV::Aligned { max_len: w1, hint: h1, seen: s1, .. } && (w2 >= w1 && (
            w2 == width_of(h1, s1.push(name)) && (text.len() == w2 && (h2 == h1 && s2 == s1.push(
                name,
            ))))))
        }),
{
    match p {
        PrefixerV::Aligned { max_len, last, hint, seen } => {
            assert(seen.push(name).drop_last() =~= seen);
            assert(seen.push(name).last() == name);
        },
        _ => {},
    }
}

impl AlignedPrefixer {
    /// A fresh aligned column, `max_len` wide to begin with.
    pub fn new(max_len: usize) -> (r: AlignedPrefixer)
        ensures
            r.max_len == max_len,
            r.last@ == Seq::<char>::empty(),
            r.hint@ == max_len as nat,
            r.seen@ == Seq::<Seq<char>>::empty(),
            prefixer_wf(Prefixer::Aligned(r)@),
    {
        AlignedPrefixer {
            max_len,
            last: String::new(),
            hint: Ghost(max_len as nat),
            seen: Ghost(Seq::empty()),
        }
    }
}

impl Prefixer {
    /// The label for one line of `task_name`'s output.
    pub fn prefix(&mut self, task_name: &String) -> (r: String)
        requires
            prefixer_wf(old(self)@),
        ensures
            prefixer_wf(final(self)@),
            final(self)@ == prefix_step(old(self)@, task_name@).0,
            r@ == prefix_step(old(self)@, task_name@).1,
    {
        match self {
            Prefixer::Null => String::new(),
            Prefixer::Always => task_name.clone(),
            Prefixer::Aligned(a) => {
                proof {
                    lemma_prefix_width(Prefixer::Aligned(*a)@, task_name@);
                }
                if a.last == *task_name {
                    let r = spaces(a.max_len);
                    proof {
                        a.seen@ = a.seen@.push(task_name@);
                    }
                    r
                } else {
                    let nl = task_name.as_str().unicode_len();
                    if nl > a.max_len {
                        a.max_len = nl;
                    }
                    let mut r = spaces(a.max_len - nl);
                    r.append(task_name.as_str());
                    a.last = task_name.clone();
                    proof {
                        a.seen@ = a.seen@.push(task_name@);
                    }
                    r
                }
            },
        }
    }
}

/// The assembled multiplexer: a streamed writer, optionally behind the
/// grouped buffer.
pub enum Output {
    Streamed(streamed::Streamed),
    Grouped(grouped::Grouped),
}

/// The streamed writer at the multiplexer's heart.
pub open spec fn output_streamed(r: Output) -> streamed::StreamedV {
    match r {
        Output::Streamed(s) => s@,
        Output::Grouped(g) => g.inner@,
    }
}

impl Output {
    pub open spec fn wf(&self) -> bool {
        match self {
            Output::Streamed(s) => s.wf(),
            Output::Grouped(g) => g.wf(),
        }
    }

    /// How many task ids the multiplexer accepts.
    pub open spec fn task_count(&self) -> nat {
        match self {
            Output::Streamed(s) => s.names@.len(),
            Output::Grouped(g) => g.logs@.len(),
        }
    }

    /// Takes one status message; returns the lines to write, in order.
    pub fn handle(&mut self, msg: StatusMessage) -> (r: Vec<Message>)
        requires
            old(self).wf(),
            (msg.0 as nat) < old(self).task_count(),
            (*old(self)) matches Output::Grouped(g) ==> g.logs.deep_view()[msg.0 as int]
                is Appending,
        ensures
            final(self).wf(),
            final(self).task_count() == old(self).task_count(),
            match *old(self) {
                Output::Streamed(s) => (*final(self)) matches Output::Streamed(s2) && (s2@
                    == streamed_step(s@, msg.0 as int, msg.1@).0 && r.deep_view() == seq![
                    streamed_step(s@, msg.0 as int, msg.1@).1,
                ]),
                Output::Grouped(g) => (*final(self)) matches Output::Grouped(g2) && ({
                    let step = grouped_step(
                        g.logs.deep_view(),
                        g.deterministic,
                        g.only_on_failure,
                        msg.0 as int,
                        msg.1@,
                    );
                    let lines = streamed_run(g.inner@, step.1);
                    &&& g2.logs.deep_view() == step.0
                    &&& g2.forwarded@ == g.forwarded@ + grouped::ids_of(step.1)
                    &&& g2.inner@ == lines.0
                    &&& r.deep_view() == lines.1
                    &&& g2.deterministic == g.deterministic
                    &&& g2.only_on_failure == g.only_on_failure
                }),
            },
    {
        match self {
            Output::Streamed(s) => {
                let m = s.handle(msg);
                let ghost mv = m@;
                let mut v: Vec<Message> = Vec::new();
                v.push(m);
                proof {
                    assert(v.deep_view() =~= seq![mv]);
                }
                v
            },
            Output::Grouped(g) => g.handle(msg),
        }
    }
}

/// Builds the multiplexer the options call for, over the plan's task names:
/// the prefixer (an aligned one starts empty and grows with the names it
/// labels), the streamed writer with the style's separators (absent ones fall
/// back to the plain separator), and, for the grouped style, the buffering
/// layer with every slot collecting.
pub fn create(options: &crate::nurfile::OutputOptions, execution_order: &Vec<String>) -> (r:
    Output)
    ensures
        r.wf(),
        r.task_count() == execution_order@.len(),
        ({
            let names = execution_order.deep_view();
            let s = output_streamed(r);
            &&& s.names == names
            &&& s.last_id == usize::MAX as int
            &&& match options.prefix {
                crate::nurfile::PrefixStyle::NoPrefix => s.prefixer == PrefixerV::Null,
                crate::nurfile::PrefixStyle::Always => s.prefixer == PrefixerV::Always,
                crate::nurfile::PrefixStyle::Aligned => s.prefixer == (PrefixerV::Aligned {
                    max_len: 0,
                    last: Seq::<char>::empty(),
                    hint: 0,
                    seen: Seq::<Seq<char>>::empty(),
                }),
            }
            &&& match options.style {
                crate::nurfile::OutputStyle::Streamed { separator, separator_switch } => {
                    &&& r is Streamed
                    &&& s.separator == separator@
                    &&& s.separator_first == separator@
                    &&& s.separator_switch == (match separator_switch {
                        Some(sw) => sw@,
                        None => separator@,
                    })
                    &&& s.separator_last == separator@
                },
                crate::nurfile::OutputStyle::Grouped {
                    separator,
                    separator_first,
                    separator_last,
                    deterministic,
                    only_on_failure,
                } => r matches Output::Grouped(g) && ({
                    &&& g.deterministic == deterministic
                    &&& g.only_on_failure == only_on_failure
                    &&& s.separator == separator@
                    &&& s.separator_first == (match separator_first {
                        Some(x) => x@,
                        None => separator@,
                    })
                    &&& s.separator_switch == separator@
                    &&& s.separator_last == (match separator_last {
                        Some(x) => x@,
                        None => separator@,
                    })
                    &&& g.forwarded@ == Seq::<int>::empty()
                    &&& forall|j: int|
                        0 <= j < g.logs@.len() ==> (#[trigger] g.logs.deep_view()[j])
                            == grouped::StateV::Appending(Seq::<crate::TaskStatusV>::empty())
                }),
            }
        }),
{
    let prefixer = match options.prefix {
        crate::nurfile::PrefixStyle::NoPrefix => Prefixer::Null,
        crate::nurfile::PrefixStyle::Always => Prefixer::Always,
        crate::nurfile::PrefixStyle::Aligned => Prefixer::Aligned(AlignedPrefixer::new(0)),
    };
    let names = crate::commands::task::clone_strings(execution_order);
    proof {
        assert(names.deep_view() =~= execution_order.deep_view());
    }
    match &options.style {
        crate::nurfile::OutputStyle::Streamed { separator, separator_switch } => {
            let sw = match separator_switch {
                Some(x) => x.clone(),
                None => separator.clone(),
            };
            Output::Streamed(
                Streamed::new(
                    separator.clone(),
                    separator.clone(),
                    sw,
                    separator.clone(),
                    names,
                    prefixer,
                ),
            )
        },
        crate::nurfile::OutputStyle::Grouped {
            separator,
            separator_first,
            separator_last,
            deterministic,
            only_on_failure,
        } => {
            let sf = match separator_first {
                Some(x) => x.clone(),
                None => separator.clone(),
            };
            let sl = match separator_last {
                Some(x) => x.clone(),
                None => separator.clone(),
            };
            let task_count = names.len();
            let inner = Streamed::new(separator.clone(), sf, separator.clone(), sl, names, prefixer);
            Output::Grouped(Grouped::new(inner, task_count, *only_on_failure, *deterministic))
        },
    }
}

} // verus!
