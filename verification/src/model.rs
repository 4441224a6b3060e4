//! The dispatcher as a mathematical state machine: its state, the events
//! that move it, and what holds of every state it can reach.

use vstd::prelude::*;
use crate::policy::TerminationType;

verus! {

/// How a line left the running state.
#[derive(Clone, Copy, Debug, PartialEq, Eq, Structural)]
pub enum LineEnd {
    /// Every sub-command of the line ran and succeeded.
    Completed,
    /// A sub-command of the line failed; those after it were skipped.
    Aborted,
    /// The line was stopped between two sub-commands because a failure had
    /// been observed elsewhere.
    Halted,
}

/// A line: its number in the order of submission, and its sub-commands.
pub struct LineModel {
    pub id: nat,
    pub commands: Seq<Seq<char>>,
}

/// A slot: idle, or bound to one running line.
pub enum SlotModel {
    Idle,
    /// The slot runs sub-command number `done` of `line`; `buffer` holds
    /// what the sub-commands before it have printed.
    Busy { line: LineModel, done: nat, buffer: Seq<Seq<char>> },
}

/// A line that has left the running state, with the block of output that
/// was flushed for it.
pub struct Finish {
    pub id: nat,
    pub end: LineEnd,
    pub block: Seq<Seq<char>>,
}

/// The state of a dispatcher.
pub struct Model {
    /// The halt policy, fixed at the start.
    pub policy: TerminationType,
    /// Whether any sub-command has failed so far.
    pub failed: bool,
    /// Whether the input has ended.
    pub closed: bool,
    /// The number of lines submitted so far.
    pub submitted: nat,
    /// The lines that wait for a slot, the oldest first.
    pub pending: Seq<LineModel>,
    /// The pool.
    pub slots: Seq<SlotModel>,
    /// The lines that have left the running state, in the order in which
    /// they left it.
    pub finished: Seq<Finish>,
}

/// What can happen to a dispatcher.
pub enum Event {
    /// A line with these sub-commands arrives.
    Submit(Seq<Seq<char>>),
    /// The input ends.
    Close,
    /// The slot asks for a line.
    Acquire(int),
    /// The sub-command that the slot runs has ended, with these lines of
    /// output and with success or without.
    Complete(int, Seq<Seq<char>>, bool),
}

/// The blocks of `finished`, one after the other: the output stream.
pub open spec fn stream(finished: Seq<Finish>) -> Seq<Seq<char>>
    decreases finished.len(),
{
    if finished.len() == 0 {
        Seq::empty()
    } else {
        stream(finished.drop_last()) + finished.last().block
    }
}

/// The sub-commands that a line at its sub-command number `done` may still
/// run. A bound line counts for one at least, so that its end is progress.
pub open spec fn line_work(line: LineModel, done: nat) -> nat {
    if done < line.commands.len() {
        (line.commands.len() - done) as nat
    } else {
        1
    }
}

/// The sub-commands that the line of a slot may still run.
pub open spec fn slot_work(slot: SlotModel) -> nat {
    match slot {
        SlotModel::Idle => 0,
        SlotModel::Busy { line, done, buffer } => line_work(line, done),
    }
}

/// The sub-commands that the lines bound to the slots may still run.
pub open spec fn pool_work(slots: Seq<SlotModel>) -> nat
    decreases slots.len(),
{
    if slots.len() == 0 {
        0
    } else {
        pool_work(slots.drop_last()) + slot_work(slots.last())
    }
}

/// The sub-commands that the waiting lines may run.
pub open spec fn queue_work(pending: Seq<LineModel>) -> nat
    decreases pending.len(),
{
    if pending.len() == 0 {
        0
    } else {
        queue_work(pending.drop_last()) + line_work(pending.last(), 0)
    }
}

impl Model {
    /// A dispatcher with `slots` idle slots, before any input.
    pub open spec fn initial(slots: nat, policy: TerminationType) -> Model {
        Model {
            policy,
            failed: false,
            closed: false,
            submitted: 0,
            pending: Seq::empty(),
            slots: Seq::new(slots, |s: int| SlotModel::Idle),
            finished: Seq::empty(),
        }
    }

    /// Whether `slot` is a slot of the pool and idle.
    pub open spec fn is_idle(self, slot: int) -> bool {
        0 <= slot < self.slots.len() && self.slots[slot] is Idle
    }

    /// Whether `slot` is a slot of the pool and bound to a line.
    pub open spec fn is_busy(self, slot: int) -> bool {
        0 <= slot < self.slots.len() && self.slots[slot] is Busy
    }

    /// The line that the busy slot `slot` is bound to.
    pub open spec fn line_of(self, slot: int) -> LineModel
        recommends
            self.is_busy(slot),
    {
        self.slots[slot]->line
    }

    /// The index of the sub-command that the busy slot `slot` runs: as many
    /// sub-commands of its line have ended before.
    pub open spec fn done_of(self, slot: int) -> nat
        recommends
            self.is_busy(slot),
    {
        self.slots[slot]->done
    }

    /// What the line of the busy slot `slot` has printed so far.
    pub open spec fn buffer_of(self, slot: int) -> Seq<Seq<char>>
        recommends
            self.is_busy(slot),
    {
        self.slots[slot]->buffer
    }

    /// Whether the dispatch-time gate is open.
    pub open spec fn gate_open(self) -> bool {
        self.policy.dispatch_open(self.failed)
    }

    /// Whether `slot` is given a line when it asks for one: it is idle, the
    /// gate is open and a line is waiting.
    pub open spec fn can_dispatch(self, slot: int) -> bool {
        self.is_idle(slot) && self.gate_open() && self.pending.len() > 0
    }

    /// Whether every slot of the pool is idle.
    pub open spec fn all_idle(self) -> bool {
        forall|s: int| 0 <= s < self.slots.len() ==> #[trigger] self.slots[s] is Idle
    }

    /// The same state with a failure observed.
    pub open spec fn with_failure(self) -> Model {
        Model { failed: true, ..self }
    }

    /// Whether the line numbered `id` has been bound to a slot at some
    /// time: it runs now or has finished.
    pub open spec fn was_dispatched(self, id: nat) -> bool {
        self.is_running(id) || self.has_finished(id)
    }

    /// An upper bound on the sub-commands that are still to end before
    /// every slot is idle and no line waits.
    pub open spec fn work_left(self) -> nat {
        queue_work(self.pending) + pool_work(self.slots)
    }

    /// The output stream so far.
    pub open spec fn output(self) -> Seq<Seq<char>> {
        stream(self.finished)
    }

    /// The state after a line with the sub-commands `commands` arrived.
    ///
    /// After the end of input nothing is taken. A line without sub-commands
    /// is counted and otherwise left out.
    pub open spec fn submit(self, commands: Seq<Seq<char>>) -> Model {
        if self.closed {
            self
        } else if commands.len() == 0 {
            Model { submitted: self.submitted + 1, ..self }
        } else {
            Model {
                submitted: self.submitted + 1,
                pending: self.pending.push(LineModel { id: self.submitted, commands }),
                ..self
            }
        }
    }

    /// The state after the input ended.
    pub open spec fn close(self) -> Model {
        Model { closed: true, ..self }
    }

    /// The state after `slot` asked for a line.
    pub open spec fn acquire(self, slot: int) -> Model {
        if self.can_dispatch(slot) {
            Model {
                pending: self.pending.drop_first(),
                slots: self.slots.update(
                    slot,
                    SlotModel::Busy { line: self.pending[0], done: 0, buffer: Seq::empty() },
                ),
                ..self
            }
        } else {
            self
        }
    }

    /// How the line of a busy slot goes on after its sub-command number
    /// `done` ended: `None` where the next sub-command is to be started.
    pub open spec fn verdict(self, line: LineModel, done: nat, ok: bool) -> Option<LineEnd> {
        if !ok {
            Some(LineEnd::Aborted)
        } else if done + 1 >= line.commands.len() {
            Some(LineEnd::Completed)
        } else if !self.policy.continue_open(self.failed) {
            Some(LineEnd::Halted)
        } else {
            None
        }
    }

    /// The state after the sub-command that `slot` runs ended with the
    /// output `lines`, and with success where `ok` is set.
    pub open spec fn complete(self, slot: int, lines: Seq<Seq<char>>, ok: bool) -> Model {
        if self.is_busy(slot) {
            let line = self.line_of(slot);
            let done = self.done_of(slot);
            let buffer = self.buffer_of(slot) + lines;
            match self.verdict(line, done, ok) {
                Some(end) => Model {
                    failed: self.failed || !ok,
                    slots: self.slots.update(slot, SlotModel::Idle),
                    finished: self.finished.push(Finish { id: line.id, end, block: buffer }),
                    ..self
                },
                None => Model {
                    slots: self.slots.update(
                        slot,
                        SlotModel::Busy { line, done: done + 1, buffer },
                    ),
                    ..self
                },
            }
        } else {
            self
        }
    }

    /// The state after the event `e`.
    pub open spec fn step(self, e: Event) -> Model {
        match e {
            Event::Submit(commands) => self.submit(commands),
            Event::Close => self.close(),
            Event::Acquire(slot) => self.acquire(slot),
            Event::Complete(slot, lines, ok) => self.complete(slot, lines, ok),
        }
    }

    /// The sub-command that the event `e` makes a slot start, if any.
    pub open spec fn started(self, e: Event) -> Option<Seq<char>> {
        match e {
            Event::Acquire(slot) => if self.can_dispatch(slot) {
                Some(self.pending[0].commands[0])
            } else {
                None
            },
            Event::Complete(slot, lines, ok) => if self.is_busy(slot) && self.verdict(
                self.line_of(slot),
                self.done_of(slot),
                ok,
            ) is None {
                Some(self.line_of(slot).commands[self.done_of(slot) as int + 1])
            } else {
                None
            },
            _ => None,
        }
    }

    /// The state after the events `es`, in order.
    pub open spec fn run(self, es: Seq<Event>) -> Model
        decreases es.len(),
    {
        if es.len() == 0 {
            self
        } else {
            self.run(es.drop_last()).step(es.last())
        }
    }

    /// Whether the line numbered `id` has left the running state.
    pub open spec fn has_finished(self, id: nat) -> bool {
        exists|k: int| 0 <= k < self.finished.len() && (#[trigger] self.finished[k]).id == id
    }

    /// Whether the line numbered `id` is bound to a slot.
    pub open spec fn is_running(self, id: nat) -> bool {
        exists|s: int| self.is_busy(s) && (#[trigger] self.slots[s])->line.id == id
    }

    /// Whether the line numbered `id` waits for a slot.
    pub open spec fn is_pending(self, id: nat) -> bool {
        exists|i: int| 0 <= i < self.pending.len() && (#[trigger] self.pending[i]).id == id
    }

    /// What holds of every state that a dispatcher can reach.
    ///
    /// Waiting lines stand in the order of their numbers and have at least
    /// one sub-command; whatever was bound to a slot was submitted before
    /// whatever still waits; a line is bound to at most one slot, and to none
    /// once it has finished; no line finishes twice.
    pub open spec fn wf(self) -> bool {
        &&& forall|i: int|
            0 <= i < self.pending.len() ==> (#[trigger] self.pending[i]).commands.len() > 0
                && self.pending[i].id < self.submitted
        &&& forall|i: int, j: int|
            0 <= i < j < self.pending.len() ==> (#[trigger] self.pending[i]).id < (
            #[trigger] self.pending[j]).id
        &&& forall|s: int|
            self.is_busy(s) ==> (#[trigger] self.slots[s])->done
                < self.slots[s]->line.commands.len() && self.slots[s]->line.id < self.submitted
        &&& forall|s: int, i: int|
            self.is_busy(s) && 0 <= i < self.pending.len() ==> (#[trigger] self.slots[s])->line.id
                < (#[trigger] self.pending[i]).id
        &&& forall|s: int, t: int|
            self.is_busy(s) && self.is_busy(t) && s != t ==> (#[trigger] self.slots[s])->line.id
                != (#[trigger] self.slots[t])->line.id
        &&& forall|k: int|
            0 <= k < self.finished.len() ==> (#[trigger] self.finished[k]).id < self.submitted
        &&& forall|k: int, i: int|
            0 <= k < self.finished.len() && 0 <= i < self.pending.len() ==> (
            #[trigger] self.finished[k]).id < (#[trigger] self.pending[i]).id
        &&& forall|k: int, s: int|
            0 <= k < self.finished.len() && self.is_busy(s) ==> (#[trigger] self.finished[k]).id
                != (#[trigger] self.slots[s])->line.id
        &&& forall|j: int, k: int|
            0 <= j < k < self.finished.len() ==> (#[trigger] self.finished[j]).id != (
            #[trigger] self.finished[k]).id
    }

    /// Whether the lines have finished in the order of their numbers, and
    /// whatever is running now was submitted after all of them.
    pub open spec fn in_order(self) -> bool {
        &&& forall|j: int, k: int|
            0 <= j < k < self.finished.len() ==> (#[trigger] self.finished[j]).id < (
            #[trigger] self.finished[k]).id
        &&& forall|k: int, s: int|
            0 <= k < self.finished.len() && self.is_busy(s) ==> (#[trigger] self.finished[k]).id < (
            #[trigger] self.slots[s])->line.id
    }
}

impl Model {
    /// A dispatcher is in a reachable state before any input.
    pub proof fn lemma_initial_wf(slots: nat, policy: TerminationType)
        ensures
            Model::initial(slots, policy).wf(),
            Model::initial(slots, policy).in_order(),
    {
    }

    /// Submitting a line keeps the state reachable.
    pub proof fn lemma_submit_wf(self, commands: Seq<Seq<char>>)
        requires
            self.wf(),
        ensures
            self.submit(commands).wf(),
            self.in_order() ==> self.submit(commands).in_order(),
    {
    }

    /// A slot that asks for a line keeps the state reachable.
    pub proof fn lemma_acquire_wf(self, slot: int)
        requires
            self.wf(),
        ensures
            self.acquire(slot).wf(),
    {
        let after = self.acquire(slot);
        if self.can_dispatch(slot) {
            assert forall|i: int| 0 <= i < after.pending.len() implies (
            #[trigger] after.pending[i]).commands.len() > 0 && after.pending[i].id
                < after.submitted by {
                assert(after.pending[i] == self.pending[i + 1]);
            }
            assert forall|i: int, j: int| 0 <= i < j < after.pending.len() implies (
            #[trigger] after.pending[i]).id < (#[trigger] after.pending[j]).id by {
                assert(after.pending[i] == self.pending[i + 1]);
                assert(after.pending[j] == self.pending[j + 1]);
            }
            assert forall|s: int| after.is_busy(s) implies (#[trigger] after.slots[s])->done
                < after.slots[s]->line.commands.len() && after.slots[s]->line.id
                < after.submitted by {
                if s != slot {
                    assert(after.slots[s] == self.slots[s]);
                    assert(self.is_busy(s));
                }
            }
            assert forall|s: int, i: int|
                after.is_busy(s) && 0 <= i < after.pending.len() implies (
            #[trigger] after.slots[s])->line.id < (#[trigger] after.pending[i]).id by {
                assert(after.pending[i] == self.pending[i + 1]);
                if s != slot {
                    assert(after.slots[s] == self.slots[s]);
                    assert(self.is_busy(s));
                }
            }
            assert forall|s: int, t: int|
                after.is_busy(s) && after.is_busy(t) && s != t implies (
            #[trigger] after.slots[s])->line.id != (#[trigger] after.slots[t])->line.id by {
                if s != slot {
                    assert(after.slots[s] == self.slots[s]);
                    assert(self.is_busy(s));
                }
                if t != slot {
                    assert(after.slots[t] == self.slots[t]);
                    assert(self.is_busy(t));
                }
            }
            assert forall|k: int, i: int|
                0 <= k < after.finished.len() && 0 <= i < after.pending.len() implies (
            #[trigger] after.finished[k]).id < (#[trigger] after.pending[i]).id by {
                assert(after.pending[i] == self.pending[i + 1]);
            }
            assert forall|k: int, s: int|
                0 <= k < after.finished.len() && after.is_busy(s) implies (
            #[trigger] after.finished[k]).id != (#[trigger] after.slots[s])->line.id by {
                if s != slot {
                    assert(after.slots[s] == self.slots[s]);
                    assert(self.is_busy(s));
                }
            }
        }
    }

    /// The end of a sub-command keeps the state reachable.
    pub proof fn lemma_complete_wf(self, slot: int, lines: Seq<Seq<char>>, ok: bool)
        requires
            self.wf(),
        ensures
            self.complete(slot, lines, ok).wf(),
    {
        let after = self.complete(slot, lines, ok);
        if self.is_busy(slot) {
            let line = self.slots[slot]->line;
            assert forall|s: int| after.is_busy(s) implies (#[trigger] after.slots[s])->done
                < after.slots[s]->line.commands.len() && after.slots[s]->line.id
                < after.submitted by {
                if s != slot {
                    assert(after.slots[s] == self.slots[s]);
                    assert(self.is_busy(s));
                }
            }
            assert forall|s: int, i: int|
                after.is_busy(s) && 0 <= i < after.pending.len() implies (
            #[trigger] after.slots[s])->line.id < (#[trigger] after.pending[i]).id by {
                if s != slot {
                    assert(after.slots[s] == self.slots[s]);
                }
                assert(self.is_busy(s));
            }
            assert forall|s: int, t: int|
                after.is_busy(s) && after.is_busy(t) && s != t implies (
            #[trigger] after.slots[s])->line.id != (#[trigger] after.slots[t])->line.id by {
                if s != slot {
                    assert(after.slots[s] == self.slots[s]);
                }
                if t != slot {
                    assert(after.slots[t] == self.slots[t]);
                }
                assert(self.is_busy(s) && self.is_busy(t));
            }
            assert forall|k: int| 0 <= k < after.finished.len() implies (
            #[trigger] after.finished[k]).id < after.submitted by {
                if k < self.finished.len() {
                    assert(after.finished[k] == self.finished[k]);
                }
            }
            assert forall|k: int, i: int|
                0 <= k < after.finished.len() && 0 <= i < after.pending.len() implies (
            #[trigger] after.finished[k]).id < (#[trigger] after.pending[i]).id by {
                if k < self.finished.len() {
                    assert(after.finished[k] == self.finished[k]);
                }
            }
            assert forall|k: int, s: int|
                0 <= k < after.finished.len() && after.is_busy(s) implies (
            #[trigger] after.finished[k]).id != (#[trigger] after.slots[s])->line.id by {
                if s != slot {
                    assert(after.slots[s] == self.slots[s]);
                }
                assert(self.is_busy(s));
                if k < self.finished.len() {
                    assert(after.finished[k] == self.finished[k]);
                }
            }
            assert forall|j: int, k: int| 0 <= j < k < after.finished.len() implies (
            #[trigger] after.finished[j]).id != (#[trigger] after.finished[k]).id by {
                assert(after.finished[j] == self.finished[j]);
                if k < self.finished.len() {
                    assert(after.finished[k] == self.finished[k]);
                }
            }
        }
    }

    /// Every event keeps the state reachable.
    pub proof fn lemma_step_wf(self, e: Event)
        requires
            self.wf(),
        ensures
            self.step(e).wf(),
    {
        match e {
            Event::Submit(commands) => self.lemma_submit_wf(commands),
            Event::Close => {},
            Event::Acquire(slot) => self.lemma_acquire_wf(slot),
            Event::Complete(slot, lines, ok) => self.lemma_complete_wf(slot, lines, ok),
        }
    }

    /// Every run of events keeps the state reachable.
    pub proof fn lemma_run_wf(self, es: Seq<Event>)
        requires
            self.wf(),
        ensures
            self.run(es).wf(),
        decreases es.len(),
    {
        if es.len() > 0 {
            self.lemma_run_wf(es.drop_last());
            self.run(es.drop_last()).lemma_step_wf(es.last());
        }
    }
}


/// Putting another slot in the place of one changes the work of the pool by
/// the difference of the two.
pub proof fn lemma_pool_work_update(slots: Seq<SlotModel>, i: int, slot: SlotModel)
    requires
        0 <= i < slots.len(),
    ensures
        pool_work(slots.update(i, slot)) + slot_work(slots[i]) == pool_work(slots) + slot_work(
            slot,
        ),
    decreases slots.len(),
{
    let after = slots.update(i, slot);
    if i == slots.len() - 1 {
        assert(after.drop_last() == slots.drop_last());
    } else {
        assert(after.drop_last() == slots.drop_last().update(i, slot));
        lemma_pool_work_update(slots.drop_last(), i, slot);
    }
}

/// The work of a queue is that of its first line and that of the rest.
pub proof fn lemma_queue_work_drop_first(pending: Seq<LineModel>)
    requires
        pending.len() > 0,
    ensures
        queue_work(pending) == line_work(pending[0], 0) + queue_work(pending.drop_first()),
    decreases pending.len(),
{
    if pending.len() == 1 {
        assert(pending.drop_last() == Seq::<LineModel>::empty());
        assert(pending.drop_first() == Seq::<LineModel>::empty());
    } else {
        assert(pending.drop_first().drop_last() == pending.drop_last().drop_first());
        lemma_queue_work_drop_first(pending.drop_last());
    }
}

impl Model {
    /// Binding a line to a slot leaves the work as it is.
    pub proof fn lemma_acquire_keeps_work(self, slot: int)
        ensures
            self.acquire(slot).work_left() == self.work_left(),
    {
        if self.can_dispatch(slot) {
            lemma_queue_work_drop_first(self.pending);
            lemma_pool_work_update(
                self.slots,
                slot,
                SlotModel::Busy { line: self.pending[0], done: 0, buffer: Seq::empty() },
            );
        }
    }

    /// The end of a sub-command on a busy slot is progress: less work is
    /// left after it.
    pub proof fn lemma_complete_reduces_work(self, slot: int, lines: Seq<Seq<char>>, ok: bool)
        requires
            self.is_busy(slot),
        ensures
            self.complete(slot, lines, ok).work_left() < self.work_left(),
    {
        lemma_pool_work_update(self.slots, slot, self.complete(slot, lines, ok).slots[slot]);
        assert(self.complete(slot, lines, ok).slots == self.slots.update(
            slot,
            self.complete(slot, lines, ok).slots[slot],
        ));
    }
}

} // verus!
