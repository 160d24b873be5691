//! The grouped output style: each task's events are buffered until its
//! `Finished` arrives, then flushed as one contiguous block through the
//! streamed writer. In deterministic mode blocks come out strictly in plan
//! order, whatever order the tasks finish in: a block whose earlier
//! neighbours are still running is held back, and released by the flush that
//! completes the prefix.

use vstd::pervasive::VecAdditionalExecFns;
use vstd::prelude::*;

use crate::commands::Message;
use crate::output::streamed::streamed_step;
use crate::output::streamed::Streamed;
use crate::output::streamed::StreamedV;
use crate::StatusMessage;
use crate::TaskStatus;
use crate::TaskStatusV;

verus! {

/// One task's slot: still collecting events, complete but held back for plan
/// order, or already written out.
pub enum State {
    Appending(Vec<TaskStatus>),
    ReadyToFlush(Vec<TaskStatus>),
    Flushed,
}

pub enum StateV {
    Appending(Seq<TaskStatusV>),
    ReadyToFlush(Seq<TaskStatusV>),
    Flushed,
}

impl View for State {
    type V = StateV;

    open spec fn view(&self) -> StateV {
        match self {
            State::Appending(v) => StateV::Appending(v.deep_view()),
            State::ReadyToFlush(v) => StateV::ReadyToFlush(v.deep_view()),
            State::Flushed => StateV::Flushed,
        }
    }
}

impl DeepView for State {
    type V = StateV;

    open spec fn deep_view(&self) -> StateV {
        self.view()
    }
}

/// The events of one task, tagged with its id.
pub open spec fn tag_events(id: int, evs: Seq<TaskStatusV>) -> Seq<(int, TaskStatusV)> {
    evs.map_values(|e: TaskStatusV| (id, e))
}

/// The first slot at or after `k` that is not yet flushed (the length if all
/// are).
pub open spec fn first_unflushed(logs: Seq<StateV>, k: int) -> int
    decreases logs.len() - k,
{
    if k < 0 || k >= logs.len() {
        k
    } else if logs[k] is Flushed {
        first_unflushed(logs, k + 1)
    } else {
        k
    }
}

proof fn lemma_first_unflushed_at(logs: Seq<StateV>, m: int, i: int)
    requires
        0 <= m <= i <= logs.len(),
        forall|j: int| m <= j < i ==> (#[trigger] logs[j]) is Flushed,
        i == logs.len() || !(logs[i] is Flushed),
    ensures
        first_unflushed(logs, m) == i,
    decreases i - m,
{
    if m < i {
        lemma_first_unflushed_at(logs, m + 1, i);
    }
}

/// Flushes the run of ready slots starting at `k`: marks them flushed and
/// releases their tagged events in slot order, stopping at the first slot
/// still collecting (or the end).
pub open spec fn take_ready_run(logs: Seq<StateV>, k: int) -> (Seq<StateV>, Seq<
    (int, TaskStatusV),
>)
    decreases logs.len() - k,
{
    if k < 0 || k >= logs.len() {
        (logs, Seq::empty())
    } else {
        match logs[k] {
            StateV::ReadyToFlush(evs) => {
                let rest = take_ready_run(logs.update(k, StateV::Flushed), k + 1);
                (rest.0, tag_events(k, evs) + rest.1)
            },
            _ => (logs, Seq::empty()),
        }
    }
}

/// One step of the grouped stage: the slots afterwards, and the tagged
/// events released to the streamed writer (often none).
pub open spec fn grouped_step(
    logs: Seq<StateV>,
    deterministic: bool,
    only_on_failure: bool,
    id: int,
    st: TaskStatusV,
) -> (Seq<StateV>, Seq<(int, TaskStatusV)>) {
    let buf = match logs[id] {
        StateV::Appending(v) => v,
        StateV::ReadyToFlush(v) => v,
        StateV::Flushed => Seq::empty(),
    };
    match st {
        TaskStatusV::Finished { result } => {
            let full = if only_on_failure && result is Ok {
                seq![st]
            } else {
                buf.push(st)
            };
            if !deterministic {
                (logs.update(id, StateV::Flushed), tag_events(id, full))
            } else {
                if first_unflushed(logs, 0) == id {
                    let run = take_ready_run(logs.update(id, StateV::Flushed), id + 1);
                    (run.0, tag_events(id, full) + run.1)
                } else {
                    (logs.update(id, StateV::ReadyToFlush(full)), Seq::empty())
                }
            }
        },
        _ => (logs.update(id, StateV::Appending(buf.push(st))), Seq::empty()),
    }
}

/// The streamed writer over a whole sequence of tagged events: its final
/// state, and the lines it emits in order.
pub open spec fn streamed_run(v: StreamedV, msgs: Seq<(int, TaskStatusV)>) -> (StreamedV, Seq<
    crate::commands::MessageV,
>)
    decreases msgs.len(),
{
    if msgs.len() == 0 {
        (v, Seq::empty())
    } else {
        let s1 = streamed_step(v, msgs[0].0, msgs[0].1);
        let rest = streamed_run(s1.0, msgs.drop_first());
        (rest.0, seq![s1.1] + rest.1)
    }
}

/// Running the writer over two sequences in turn is running it over their
/// concatenation.
pub proof fn lemma_streamed_run_concat(
    v: StreamedV,
    a: Seq<(int, TaskStatusV)>,
    b: Seq<(int, TaskStatusV)>,
)
    ensures
        streamed_run(v, a + b).0 == streamed_run(streamed_run(v, a).0, b).0,
        streamed_run(v, a + b).1 == streamed_run(v, a).1 + streamed_run(
            streamed_run(v, a).0,
            b,
        ).1,
    decreases a.len(),
{
    if a.len() == 0 {
        assert(a + b =~= b);
        assert(streamed_run(v, a).1 + streamed_run(streamed_run(v, a).0, b).1 =~= streamed_run(
            v,
            b,
        ).1);
    } else {
        assert((a + b)[0] == a[0]);
        let s1 = streamed_step(v, a[0].0, a[0].1);
        assert((a + b).drop_first() =~= a.drop_first() + b);
        lemma_streamed_run_concat(s1.0, a.drop_first(), b);
        assert(streamed_run(v, a + b).1 =~= streamed_run(v, a).1 + streamed_run(
            streamed_run(v, a).0,
            b,
        ).1);
    }
}

/// Ids never decrease along the sequence.
pub open spec fn ids_sorted(ids: Seq<int>) -> bool {
    forall|a: int, b: int| 0 <= a <= b < ids.len() ==> ids[a] <= ids[b]
}

/// Every id is below `k`.
pub open spec fn ids_below(ids: Seq<int>, k: int) -> bool {
    forall|a: int| 0 <= a < ids.len() ==> (#[trigger] ids[a]) < k
}

/// The ids of a sequence of tagged events.
pub open spec fn ids_of(msgs: Seq<(int, TaskStatusV)>) -> Seq<int> {
    msgs.map_values(|p: (int, TaskStatusV)| p.0)
}

/// Buffers per-task events and releases whole blocks through the streamed
/// writer.
pub struct Grouped {
    pub logs: Vec<State>,
    pub deterministic: bool,
    pub only_on_failure: bool,
    pub inner: Streamed,
    /// Task ids of the events released to the streamed writer, in order.
    pub forwarded: Ghost<Seq<int>>,
}

impl Grouped {
    /// In deterministic mode, the flushed slots are exactly a prefix of the
    /// plan, and everything released so far came from that prefix in
    /// non-decreasing id order: blocks leave strictly in plan order.
    pub open spec fn wf(&self) -> bool {
        &&& self.inner.wf()
        &&& self.logs@.len() == self.inner.names@.len()
        &&& self.deterministic ==> {
            let k = first_unflushed(self.logs.deep_view(), 0);
            &&& forall|j: int|
                0 <= j < self.logs@.len() ==> ((#[trigger] self.logs.deep_view()[j]) is Flushed
                    <==> j < k)
            &&& ids_sorted(self.forwarded@)
            &&& ids_below(self.forwarded@, k)
        }
    }

    pub fn new(inner: Streamed, task_count: usize, only_on_failure: bool, deterministic: bool) -> (r:
        Grouped)
        requires
            inner.wf(),
            task_count == inner.names@.len(),
        ensures
            r.wf(),
            r.deterministic == deterministic,
            r.only_on_failure == only_on_failure,
            r.inner == inner,
            r.forwarded@ == Seq::<int>::empty(),
            r.logs@.len() == task_count,
            forall|j: int|
                0 <= j < task_count ==> (#[trigger] r.logs.deep_view()[j]) == StateV::Appending(
                    Seq::empty(),
                ),
    {
        let mut logs: Vec<State> = Vec::new();
        let mut i: usize = 0;
        while i < task_count
            invariant
                i <= task_count,
                logs@.len() == i,
                forall|j: int|
                    0 <= j < i ==> (#[trigger] logs.deep_view()[j]) == StateV::Appending(
                        Seq::<TaskStatusV>::empty(),
                    ),
            decreases task_count - i,
        {
            let st = State::Appending(Vec::new());
            let ghost stv = st;
            proof {
                match stv {
                    State::Appending(v) => {
                        assert(v.deep_view() =~= Seq::<TaskStatusV>::empty());
                    },
                    _ => {},
                }
                assert(stv@ == StateV::Appending(Seq::<TaskStatusV>::empty()));
            }
            let ghost lpre = logs.deep_view();
            let ghost lv = logs@;
            logs.push(st);
            i = i + 1;
            proof {
                assert forall|j: int|
                    0 <= j < i implies (#[trigger] logs.deep_view()[j]) == StateV::Appending(
                    Seq::<TaskStatusV>::empty(),
                ) by {
                    assert(logs.deep_view()[j] == logs@[j].deep_view());
                    if j == i - 1 {
                        assert(logs@[j] == stv);
                    } else {
                        assert(logs@[j] == lv[j]);
                        assert(lpre[j] == lv[j].deep_view());
                        assert(lpre[j] == StateV::Appending(Seq::<TaskStatusV>::empty()));
                    }
                }
            }
        }
        let r = Grouped { logs, deterministic, only_on_failure, inner, forwarded: Ghost(Seq::empty()) };
        proof {
            if r.logs@.len() > 0 {
                lemma_first_unflushed_at(r.logs.deep_view(), 0, 0);
            }
        }
        r
    }
}

/// Where the run of consecutive ready slots starting at `k` ends.
pub open spec fn ready_end(logs: Seq<StateV>, k: int) -> int
    decreases logs.len() - k,
{
    if k < 0 || k >= logs.len() {
        k
    } else if logs[k] is ReadyToFlush {
        ready_end(logs, k + 1)
    } else {
        k
    }
}

/// Every id is at least `k`.
pub open spec fn ids_at_least(ids: Seq<int>, k: int) -> bool {
    forall|a: int| 0 <= a < ids.len() ==> (#[trigger] ids[a]) >= k
}

/// What flushing the ready run does: it marks exactly the slots from `k` to
/// the end of the run flushed, and releases their events with ids in that
/// range, in non-decreasing order.
proof fn lemma_take_ready_run(logs: Seq<StateV>, k: int)
    requires
        0 <= k <= logs.len(),
    ensures
        ({
            let (l2, out) = take_ready_run(logs, k);
            let m = ready_end(logs, k);
            &&& k <= m <= logs.len()
            &&& l2.len() == logs.len()
            &&& forall|j: int|
                0 <= j < logs.len() ==> (#[trigger] l2[j]) == if k <= j < m {
                    StateV::Flushed
                } else {
                    logs[j]
                }
            &&& m == logs.len() || !(logs[m] is ReadyToFlush)
            &&& m == logs.len() || l2[m] == logs[m]
            &&& ids_sorted(ids_of(out))
            &&& ids_below(ids_of(out), m)
            &&& ids_at_least(ids_of(out), k)
        }),
    decreases logs.len() - k,
{
    let (l2, out) = take_ready_run(logs, k);
    let m = ready_end(logs, k);
    if k == logs.len() {
    } else {
        match logs[k] {
            StateV::ReadyToFlush(evs) => {
                let logs1 = logs.update(k, StateV::Flushed);
                lemma_take_ready_run(logs1, k + 1);
                assert(ready_end(logs1, k + 1) == ready_end(logs, k + 1)) by {
                    lemma_ready_end_same(logs1, logs, k + 1);
                }
                let rest = take_ready_run(logs1, k + 1);
                assert(ids_of(out) =~= ids_of(tag_events(k, evs)) + ids_of(rest.1));
                assert forall|a: int| 0 <= a < ids_of(out).len() implies k <= (#[trigger] ids_of(
                    out,
                )[a]) < m by {
                    if a < evs.len() {
                        assert(ids_of(out)[a] == k);
                        assert(ready_end(logs, k) == ready_end(logs, k + 1));
                        assert(m >= k + 1);
                    } else {
                        assert(ids_of(out)[a] == ids_of(rest.1)[a - evs.len()]);
                    }
                }
                assert forall|a: int, b: int|
                    0 <= a <= b < ids_of(out).len() implies ids_of(out)[a] <= ids_of(
                    out,
                )[b] by {
                    if a < evs.len() && b >= evs.len() {
                        assert(ids_of(out)[a] == k);
                        assert(ids_of(out)[b] == ids_of(rest.1)[b - evs.len()]);
                    } else if b < evs.len() {
                        assert(ids_of(out)[a] == k && ids_of(out)[b] == k);
                    } else {
                        assert(ids_of(out)[a] == ids_of(rest.1)[a - evs.len()]);
                        assert(ids_of(out)[b] == ids_of(rest.1)[b - evs.len()]);
                    }
                }
            },
            _ => {
                assert(m == k);
            },
        }
    }
}

/// The end of the ready run does not depend on entries before its start.
proof fn lemma_ready_end_same(a: Seq<StateV>, b: Seq<StateV>, k: int)
    requires
        0 <= k,
        a.len() == b.len(),
        forall|j: int| k <= j < a.len() ==> (#[trigger] a[j]) == b[j],
    ensures
        ready_end(a, k) == ready_end(b, k),
    decreases a.len() - k,
{
    if k < a.len() {
        if a[k] is ReadyToFlush {
            lemma_ready_end_same(a, b, k + 1);
        }
    }
}

/// Feeds one task's events, tagged with its id, through the streamed writer,
/// appending the lines to `out`.
fn run_block(inner: &mut Streamed, id: usize, evs: Vec<TaskStatus>, out: &mut Vec<Message>)
    requires
        old(inner).wf(),
        id < old(inner).names@.len(),
    ensures
        final(inner).wf(),
        final(inner)@ == streamed_run(old(inner)@, tag_events(id as int, evs.deep_view())).0,
        final(out).deep_view() == old(out).deep_view() + streamed_run(
            old(inner)@,
            tag_events(id as int, evs.deep_view()),
        ).1,
        final(inner).names@ == old(inner).names@,
{
    let ghost full = evs.deep_view();
    let ghost inner0 = inner@;
    let ghost out0 = out.deep_view();
    let mut rest = evs;
    let total: usize = rest.len();
    let mut i: usize = 0;
    proof {
        assert(full.take(0) =~= Seq::<TaskStatusV>::empty());
        assert(tag_events(id as int, full.take(0)) =~= Seq::<(int, TaskStatusV)>::empty());
        assert(out.deep_view() =~= out0 + streamed_run(
            inner0,
            tag_events(id as int, full.take(0)),
        ).1);
    }
    while rest.len() > 0
        invariant
            inner.wf(),
            inner0 == old(inner)@,
            out0 == old(out).deep_view(),
            full.len() == total,
            i + rest@.len() == full.len(),
            rest.deep_view() =~= full.subrange(i as int, full.len() as int),
            inner@ == streamed_run(inner0, tag_events(id as int, full.take(i as int))).0,
            out.deep_view() == out0 + streamed_run(
                inner0,
                tag_events(id as int, full.take(i as int)),
            ).1,
            inner.names@ == old(inner).names@,
            id < inner.names@.len(),
        decreases rest@.len(),
    {
        let ghost rpre = rest.deep_view();
        let ghost rvec = rest@;
        let ev = rest.remove(0);
        proof {
            assert(ev == rvec[0]);
            assert(ev@ == rpre[0]);
            assert(rpre[0] == full[i as int]);
            assert(rest@ =~= rvec.subrange(1, rvec.len() as int));
            assert forall|q: int| 0 <= q < rest@.len() implies #[trigger] rest.deep_view()[q]
                == full[i + 1 + q] by {
                assert(rest.deep_view()[q] == rest@[q].deep_view());
                assert(rest@[q] == rvec[q + 1]);
                assert(rpre[q + 1] == rvec[q + 1].deep_view());
                assert(rpre[q + 1] == full[i + 1 + q]);
            }
            assert(rest.deep_view() =~= full.subrange(i + 1, full.len() as int));
        }
        let m = inner.handle((id, ev));
        let ghost mv = m@;
        let ghost opre = out.deep_view();
        let ghost ov = out@;
        out.push(m);
        i = i + 1;
        proof {
            let a = tag_events(id as int, full.take(i - 1));
            let one = seq![(id as int, full[i - 1])];
            lemma_streamed_run_concat(inner0, a, one);
            assert(tag_events(id as int, full.take(i as int)) =~= a + one);
            let v1 = streamed_run(inner0, a).0;
            let s1 = streamed_step(v1, id as int, full[i - 1]);
            assert(one[0] == (id as int, full[i - 1]));
            let emp = one.drop_first();
            assert(emp =~= Seq::<(int, TaskStatusV)>::empty());
            assert(streamed_run(s1.0, emp).1 =~= Seq::<crate::commands::MessageV>::empty());
            assert(streamed_run(s1.0, emp).0 == s1.0);
            assert(streamed_run(v1, one).1 =~= seq![s1.1]);
            assert(streamed_run(v1, one).0 == s1.0);
            assert(mv == s1.1);
            assert forall|q: int| 0 <= q < out@.len() implies #[trigger] out.deep_view()[q]
                == opre.push(mv)[q] by {
                assert(out.deep_view()[q] == out@[q].deep_view());
                if q < out@.len() - 1 {
                    assert(out@[q] == ov[q]);
                    assert(opre[q] == ov[q].deep_view());
                }
            }
            assert(out.deep_view() =~= opre.push(mv));
            assert(out.deep_view() =~= out0 + streamed_run(
                inner0,
                tag_events(id as int, full.take(i as int)),
            ).1);
        }
    }
    proof {
        assert(full.take(full.len() as int) =~= full);
    }
}

/// Whether every slot before `upto` is already flushed.
fn flushed_upto(logs: &Vec<State>, upto: usize) -> (r: bool)
    requires
        upto <= logs@.len(),
    ensures
        r <==> forall|j: int| 0 <= j < upto ==> (#[trigger] logs.deep_view()[j]) is Flushed,
{
    let mut k: usize = 0;
    while k < upto
        invariant
            k <= upto <= logs@.len(),
            forall|j: int| 0 <= j < k ==> (#[trigger] logs.deep_view()[j]) is Flushed,
        decreases upto - k,
    {
        let fl = match &logs[k] {
            State::Flushed => true,
            _ => false,
        };
        if !fl {
            proof {
                assert(!(logs.deep_view()[k as int] is Flushed));
            }
            return false;
        }
        proof {
            assert(logs.deep_view()[k as int] is Flushed);
        }
        k = k + 1;
    }
    true
}

impl Grouped {
    /// Releases the run of ready slots from `j` on, in slot order.
    fn flush_ready_run(&mut self, j: usize, out: &mut Vec<Message>)
        requires
            old(self).inner.wf(),
            old(self).logs@.len() == old(self).inner.names@.len(),
        ensures
            ({
                let run = take_ready_run(old(self).logs.deep_view(), j as int);
                let lines = streamed_run(old(self).inner@, run.1);
                &&& final(self).logs.deep_view() == run.0
                &&& final(self).inner@ == lines.0
                &&& final(out).deep_view() == old(out).deep_view() + lines.1
            }),
            final(self).inner.wf(),
            final(self).logs@.len() == old(self).logs@.len(),
            final(self).inner.names@ == old(self).inner.names@,
            final(self).deterministic == old(self).deterministic,
            final(self).only_on_failure == old(self).only_on_failure,
            final(self).forwarded == old(self).forwarded,
        decreases old(self).logs@.len() - j,
    {
        if j >= self.logs.len() {
            return ;
        }
        let ghost logs0 = self.logs.deep_view();
        let is_ready = match &self.logs[j] {
            State::ReadyToFlush(_) => true,
            _ => false,
        };
        if !is_ready {
            proof {
                assert(!(logs0[j as int] is ReadyToFlush));
                assert(take_ready_run(logs0, j as int).0 =~= logs0);
                assert(take_ready_run(logs0, j as int).1 =~= Seq::<(int, TaskStatusV)>::empty());
                assert(final(out).deep_view() =~= old(out).deep_view());
            }
            return ;
        }
        let mut slot = State::Flushed;
        self.logs.set_and_swap(j, &mut slot);
        let evs = match slot {
            State::ReadyToFlush(v) => v,
            _ => {
                proof {
                    assert(false);
                }
                Vec::new()
            },
        };
        let ghost evsv = evs.deep_view();
        proof {
            assert(logs0[j as int] == StateV::ReadyToFlush(evsv));
            assert(self.logs.deep_view() =~= logs0.update(j as int, StateV::Flushed));
        }
        let ghost inner0 = self.inner@;
        let ghost out0 = out.deep_view();
        run_block(&mut self.inner, j, evs, out);
        let ghost inner1 = self.inner@;
        let ghost logs1 = self.logs.deep_view();
        self.flush_ready_run(j + 1, out);
        proof {
            let run = take_ready_run(logs0, j as int);
            let rest = take_ready_run(logs1, j + 1);
            assert(run.0 == rest.0 && run.1 =~= tag_events(j as int, evsv) + rest.1);
            lemma_streamed_run_concat(inner0, tag_events(j as int, evsv), rest.1);
            assert(final(out).deep_view() =~= old(out).deep_view() + streamed_run(
                inner0,
                run.1,
            ).1);
        }
    }

    /// Takes one status message. A non-final event is buffered in its task's
    /// slot; a `Finished` closes the task's block (just the `Finished`, when
    /// success is not to be shown) and releases whatever blocks the style now
    /// allows: this one immediately when not deterministic; in deterministic
    /// mode, this one only once every earlier task's block is out, together
    /// with any later blocks that were already waiting.
    pub fn handle(&mut self, msg: StatusMessage) -> (r: Vec<Message>)
        requires
            old(self).wf(),
            msg.0 < old(self).logs@.len(),
            old(self).logs.deep_view()[msg.0 as int] is Appending,
        ensures
            final(self).wf(),
            final(self).deterministic == old(self).deterministic,
            final(self).only_on_failure == old(self).only_on_failure,
            final(self).logs@.len() == old(self).logs@.len(),
            ({
                let step = grouped_step(
                    old(self).logs.deep_view(),
                    old(self).deterministic,
                    old(self).only_on_failure,
                    msg.0 as int,
                    msg.1@,
                );
                let lines = streamed_run(old(self).inner@, step.1);
                &&& final(self).logs.deep_view() == step.0
                &&& final(self).forwarded@ == old(self).forwarded@ + ids_of(step.1)
                &&& final(self).inner@ == lines.0
                &&& r.deep_view() == lines.1
            }),
    {
        let (task_id, status) = msg;
        let nlogs = self.logs.len();
        let ghost logs0 = self.logs.deep_view();
        let ghost inner0 = self.inner@;
        let ghost stv = status@;
        let ghost det = self.deterministic;
        let ghost k0 = first_unflushed(logs0, 0);
        let mut out: Vec<Message> = Vec::new();
        let mut slot = State::Flushed;
        self.logs.set_and_swap(task_id, &mut slot);
        let buf: Vec<TaskStatus> = match slot {
            State::Appending(v) => v,
            State::ReadyToFlush(v) => v,
            State::Flushed => {
                proof {
                    assert(false);
                }
                Vec::new()
            },
        };
        let ghost bufv = buf.deep_view();
        proof {
            assert(logs0[task_id as int] == StateV::Appending(bufv));
            assert(self.logs.deep_view() =~= logs0.update(task_id as int, StateV::Flushed));
        }
        match status {
            TaskStatus::Finished { result } => {
                let ok = result.is_ok();
                let fin = TaskStatus::Finished { result };
                let ghost finv = fin@;
                proof {
                    assert(finv == stv);
                }
                let full: Vec<TaskStatus> = if self.only_on_failure && ok {
                    let mut v: Vec<TaskStatus> = Vec::new();
                    v.push(fin);
                    v
                } else {
                    let mut v = buf;
                    v.push(fin);
                    v
                };
                let ghost fullv = full.deep_view();
                proof {
                    if self.only_on_failure && result_view_is_ok(stv) {
                        assert(fullv =~= seq![stv]);
                    } else {
                        assert(fullv =~= bufv.push(stv));
                    }
                }
                if !self.deterministic {
                    run_block(&mut self.inner, task_id, full, &mut out);
                    proof {
                        let step = grouped_step(logs0, det, self.only_on_failure, task_id as int, stv);
                        assert(step.0 =~= logs0.update(task_id as int, StateV::Flushed));
                        assert(step.1 == tag_events(task_id as int, fullv));
                        self.forwarded@ = self.forwarded@ + ids_of(step.1);
                    }
                    out
                } else {
                    if flushed_upto(&self.logs, task_id) {
                        proof {
                            assert forall|j: int| 0 <= j < task_id as int implies (
                            #[trigger] logs0[j]) is Flushed by {
                                assert(self.logs.deep_view()[j] is Flushed);
                                assert(self.logs.deep_view()[j] == logs0[j]);
                            }
                            lemma_first_unflushed_at(logs0, 0, task_id as int);
                        }
                        let ghost logsf = self.logs.deep_view();
                        run_block(&mut self.inner, task_id, full, &mut out);
                        let ghost inner1 = self.inner@;
                        self.flush_ready_run(task_id + 1, &mut out);
                        proof {
                            let step = grouped_step(
                                logs0,
                                det,
                                self.only_on_failure,
                                task_id as int,
                                stv,
                            );
                            let run = take_ready_run(logsf, task_id + 1);
                            assert(step.0 == run.0);
                            assert(step.1 =~= tag_events(task_id as int, fullv) + run.1);
                            lemma_streamed_run_concat(
                                inner0,
                                tag_events(task_id as int, fullv),
                                run.1,
                            );
                            assert(out.deep_view() =~= streamed_run(inner0, step.1).1);
                            // The flushed slots are again exactly a prefix.
                            lemma_take_ready_run(logsf, task_id + 1);
                            let m = ready_end(logsf, task_id + 1);
                            assert forall|j: int|
                                0 <= j < m implies (#[trigger] self.logs.deep_view()[j])
                                is Flushed by {
                                if j < task_id as int {
                                    assert(logsf[j] is Flushed);
                                } else if j == task_id as int {
                                    assert(logsf[j] is Flushed);
                                }
                            }
                            assert(m == self.logs.deep_view().len() || !(self.logs.deep_view()[m]
                                is Flushed)) by {
                                if m < logsf.len() {
                                    assert(self.logs.deep_view()[m] == logsf[m]);
                                    assert(logsf[m] == logs0[m]);
                                    assert(!(logs0[m] is Flushed));
                                }
                            }
                            lemma_first_unflushed_at(self.logs.deep_view(), 0, m);
                            // Order: everything released sits between the old
                            // and the new prefix end.
                            assert(ids_sorted(ids_of(step.1)) && ids_below(ids_of(step.1), m)
                                && ids_at_least(ids_of(step.1), task_id as int)) by {
                                assert forall|a: int|
                                    0 <= a < ids_of(step.1).len() implies task_id as int <= (
                                #[trigger] ids_of(step.1)[a]) < m by {
                                    if a < fullv.len() {
                                        assert(ids_of(step.1)[a] == task_id as int);
                                        assert(m >= task_id + 1);
                                    } else {
                                        assert(ids_of(step.1)[a] == ids_of(run.1)[a - fullv.len()]);
                                    }
                                }
                                assert forall|a: int, b: int|
                                    0 <= a <= b < ids_of(step.1).len() implies ids_of(step.1)[a]
                                    <= ids_of(step.1)[b] by {
                                    if a < fullv.len() && b >= fullv.len() {
                                        assert(ids_of(step.1)[a] == task_id as int);
                                        assert(ids_of(step.1)[b] == ids_of(run.1)[b - fullv.len()]);
                                    } else if b < fullv.len() {
                                        assert(ids_of(step.1)[a] == task_id as int);
                                        assert(ids_of(step.1)[b] == task_id as int);
                                    } else if a >= fullv.len() {
                                        assert(ids_of(step.1)[a] == ids_of(run.1)[a - fullv.len()]);
                                        assert(ids_of(step.1)[b] == ids_of(run.1)[b - fullv.len()]);
                                    }
                                }
                            }
                            let fwd0 = self.forwarded@;
                            self.forwarded@ = self.forwarded@ + ids_of(step.1);
                            assert(ids_sorted(self.forwarded@)) by {
                                assert forall|a: int, b: int|
                                    0 <= a <= b < self.forwarded@.len() implies self.forwarded@[a]
                                    <= self.forwarded@[b] by {
                                    if a < fwd0.len() && b >= fwd0.len() {
                                        assert(self.forwarded@[a] == fwd0[a]);
                                        assert(self.forwarded@[b] == ids_of(step.1)[b - fwd0.len()]);
                                        assert(fwd0[a] < k0);
                                        assert(k0 <= task_id as int);
                                    } else if b < fwd0.len() {
                                        assert(self.forwarded@[a] == fwd0[a]);
                                        assert(self.forwarded@[b] == fwd0[b]);
                                    } else if a >= fwd0.len() {
                                        assert(self.forwarded@[a] == ids_of(step.1)[a - fwd0.len()]);
                                        assert(self.forwarded@[b] == ids_of(step.1)[b - fwd0.len()]);
                                    }
                                }
                            }
                            assert(ids_below(self.forwarded@, m)) by {
                                assert forall|a: int|
                                    0 <= a < self.forwarded@.len() implies (#[trigger] self.forwarded@[a])
                                    < m by {
                                    if a < fwd0.len() {
                                        assert(self.forwarded@[a] == fwd0[a]);
                                        assert(fwd0[a] < k0);
                                        assert(k0 <= task_id as int);
                                        assert(m >= task_id + 1);
                                    } else {
                                        assert(self.forwarded@[a] == ids_of(step.1)[a - fwd0.len()]);
                                    }
                                }
                            }
                        }
                        out
                    } else {
                        self.logs.set(task_id, State::ReadyToFlush(full));
                        proof {
                            let step = grouped_step(
                                logs0,
                                det,
                                self.only_on_failure,
                                task_id as int,
                                stv,
                            );
                            // Some earlier slot is still collecting, so the
                            // first unflushed slot is not this one.
                            let jw = choose|j: int|
                                0 <= j < task_id as int && !((#[trigger] logs0.update(
                                    task_id as int,
                                    StateV::Flushed,
                                )[j]) is Flushed);
                            assert(!(logs0[jw] is Flushed));
                            assert(k0 <= jw) by {
                                if jw < k0 {
                                    assert(logs0[jw] is Flushed);
                                }
                            }
                            assert(k0 != task_id as int);
                            assert(step.0 =~= logs0.update(
                                task_id as int,
                                StateV::ReadyToFlush(fullv),
                            ));
                            assert(self.logs.deep_view() =~= step.0);
                            assert(step.1 =~= Seq::<(int, TaskStatusV)>::empty());
                            assert(ids_of(step.1) =~= Seq::<int>::empty());
                            self.forwarded@ = self.forwarded@ + ids_of(step.1);
                            assert(self.forwarded@ =~= old(self).forwarded@);
                            // The flushed prefix is unchanged.
                            assert forall|j: int|
                                0 <= j < k0 implies (#[trigger] self.logs.deep_view()[j])
                                is Flushed by {
                                assert(logs0[j] is Flushed);
                            }
                            assert(k0 == self.logs.deep_view().len() || !(self.logs.deep_view()[k0]
                                is Flushed)) by {
                                if k0 < logs0.len() {
                                    assert(!(logs0[k0] is Flushed));
                                }
                            }
                            lemma_first_unflushed_at(self.logs.deep_view(), 0, k0);
                            assert(streamed_run(inner0, step.1).1 =~= Seq::<
                                crate::commands::MessageV,
                            >::empty());
                            assert(out.deep_view() =~= streamed_run(inner0, step.1).1);
                        }
                        out
                    }
                }
            },
            st => {
                let mut v = buf;
                v.push(st);
                let ghost vv = v.deep_view();
                self.logs.set(task_id, State::Appending(v));
                proof {
                    let step = grouped_step(logs0, det, self.only_on_failure, task_id as int, stv);
                    assert(vv =~= bufv.push(stv));
                    assert(step.0 =~= logs0.update(task_id as int, StateV::Appending(vv)));
                    assert(self.logs.deep_view() =~= step.0);
                    assert(step.1 =~= Seq::<(int, TaskStatusV)>::empty());
                    assert(ids_of(step.1) =~= Seq::<int>::empty());
                    self.forwarded@ = self.forwarded@ + ids_of(step.1);
                    assert(self.forwarded@ =~= old(self).forwarded@);
                    if det {
                        // Flushedness is unchanged slot by slot.
                        assert forall|j: int|
                            0 <= j < k0 implies (#[trigger] self.logs.deep_view()[j])
                            is Flushed by {
                            assert(logs0[j] is Flushed);
                        }
                        assert(k0 == self.logs.deep_view().len() || !(self.logs.deep_view()[k0]
                            is Flushed)) by {
                            if k0 < logs0.len() {
                                assert(!(logs0[k0] is Flushed));
                            }
                        }
                        lemma_first_unflushed_at(self.logs.deep_view(), 0, k0);
                    }
                    assert(streamed_run(inner0, step.1).1 =~= Seq::<
                        crate::commands::MessageV,
                    >::empty());
                    assert(out.deep_view() =~= streamed_run(inner0, step.1).1);
                }
                out
            },
        }
    }
}

/// Plan order in a deterministic grouped run: the stream of released events
/// never returns to an earlier task, so each task's block is contiguous and
/// blocks appear strictly in plan order.
pub proof fn lemma_deterministic_plan_order(g: &Grouped, a: int, b: int)
    requires
        g.wf(),
        g.deterministic,
        0 <= a <= b < g.forwarded@.len(),
    ensures
        g.forwarded@[a] <= g.forwarded@[b],
{
}

/// Whether a finished result is a success, at the view level.
pub open spec fn result_view_is_ok(st: TaskStatusV) -> bool {
    match st {
        TaskStatusV::Finished { result } => result is Ok,
        _ => false,
    }
}

} // verus!
