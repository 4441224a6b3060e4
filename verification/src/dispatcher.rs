//! The dispatcher: the queue of waiting lines, the pool of slots, the
//! failure flag and the decisions taken on them.
//!
//! A dispatcher does no work itself. Whoever drives it submits lines, lets
//! each idle slot ask for one, runs the sub-command it is handed and reports
//! how it ended; the dispatcher answers with the next sub-command or with the
//! finished line's block of output.

use std::collections::VecDeque;
use vstd::prelude::*;
use crate::distribution::Distribution;
use crate::line::{split_line, sub_commands};
use crate::laws::lemma_single_slot_step;
use crate::model::{Event, Finish, LineEnd, LineModel, Model, SlotModel};
use crate::policy::TerminationType;
use crate::text::{lemma_texts_add, texts};

verus! {

/// How one sub-command ended: the lines it printed, and whether it
/// succeeded.
#[derive(Debug, PartialEq, Eq)]
pub struct Outcome {
    pub lines: Vec<String>,
    pub ok: bool,
}

/// A line that waits or runs.
struct Line {
    id: usize,
    commands: Vec<String>,
}

/// A slot of the pool.
enum Slot {
    Idle,
    Busy { line: Line, done: usize, buffer: Vec<String> },
}

/// The answer to a slot that asks for a line.
#[derive(Debug, PartialEq, Eq)]
pub enum Dispatch {
    /// The slot is bound to the line numbered `line` and is to run its
    /// first sub-command, `command`.
    Run { line: usize, command: String },
    /// No line is waiting; more may arrive.
    Wait,
    /// The slot will never be given a line again.
    Retire,
    /// The slot is unknown, or is bound to a line already.
    Refused,
}

/// The answer to a slot that reports the end of a sub-command.
#[derive(Debug, PartialEq, Eq)]
pub enum Progress {
    /// The slot is to run this sub-command of the same line next.
    Run(String),
    /// The line numbered `line` has left the running state; `block` is to
    /// be written to the output as a whole.
    Finished { line: usize, end: LineEnd, block: Vec<String> },
    /// The slot is unknown, or is bound to no line.
    Refused,
}

/// The scheduling state of a dispatcher.
pub struct Dispatcher {
    policy: TerminationType,
    failed: bool,
    closed: bool,
    submitted: usize,
    pending: VecDeque<Line>,
    slots: Vec<Slot>,
    finished: Ghost<Seq<Finish>>,
}

impl Line {
    spec fn model(self) -> LineModel {
        LineModel { id: self.id as nat, commands: texts(self.commands@) }
    }
}

impl Slot {
    spec fn model(self) -> SlotModel {
        match self {
            Slot::Idle => SlotModel::Idle,
            Slot::Busy { line, done, buffer } => SlotModel::Busy {
                line: line.model(),
                done: done as nat,
                buffer: texts(buffer@),
            },
        }
    }
}

impl View for Dispatcher {
    type V = Model;

    closed spec fn view(&self) -> Model {
        Model {
            policy: self.policy,
            failed: self.failed,
            closed: self.closed,
            submitted: self.submitted as nat,
            pending: Seq::new(self.pending@.len(), |i: int| self.pending@[i].model()),
            slots: Seq::new(self.slots@.len(), |s: int| self.slots@[s].model()),
            finished: self.finished@,
        }
    }
}

impl Dispatcher {
    /// Whether the dispatcher is in a state that it can reach. With a
    /// single slot that includes that the lines have finished in the order
    /// of their submission.
    pub open spec fn wf(&self) -> bool {
        self@.wf() && (self@.slots.len() == 1 ==> self@.in_order())
    }

    /// A dispatcher with `slots` idle slots and the halt policy `policy`,
    /// before any input.
    pub fn new(slots: usize, policy: TerminationType) -> (out: Dispatcher)
        ensures
            out@ == Model::initial(slots as nat, policy),
            out.wf(),
    {
        let mut pool: Vec<Slot> = Vec::new();
        let mut i: usize = 0;
        while i < slots
            invariant
                i <= slots,
                pool.len() == i,
                forall|s: int| 0 <= s < i ==> pool@[s] is Idle,
            decreases slots - i,
        {
            pool.push(Slot::Idle);
            i += 1;
        }
        let out = Dispatcher {
            policy,
            failed: false,
            closed: false,
            submitted: 0,
            pending: VecDeque::new(),
            slots: pool,
            finished: Ghost(Seq::empty()),
        };
        assert(out@.pending =~= Seq::<LineModel>::empty());
        assert(out@.slots =~= Seq::new(slots as nat, |s: int| SlotModel::Idle));
        out
    }

    /// A dispatcher for the pool that `distribution` describes: one idle
    /// slot for every thread that it declares, whether local or remote.
    pub fn for_pool(distribution: &Distribution, policy: TerminationType) -> (out: Dispatcher)
        requires
            distribution.pool_size() <= u32::MAX,
        ensures
            out@ == Model::initial(distribution.pool_size(), policy),
            out.wf(),
    {
        Dispatcher::new(distribution.num_threads() as usize, policy)
    }

    /// The number of slots in the pool.
    pub fn slot_count(&self) -> (out: usize)
        ensures
            out == self@.slots.len(),
    {
        self.slots.len()
    }

    /// The halt policy.
    pub fn policy(&self) -> (out: TerminationType)
        ensures
            out == self@.policy,
    {
        self.policy
    }

    /// Whether any sub-command has failed so far.
    pub fn has_failed(&self) -> (out: bool)
        ensures
            out == self@.failed,
    {
        self.failed
    }

    /// Whether the input has ended.
    pub fn is_closed(&self) -> (out: bool)
        ensures
            out == self@.closed,
    {
        self.closed
    }

    /// The number of lines submitted so far.
    pub fn submitted(&self) -> (out: usize)
        ensures
            out == self@.submitted,
    {
        self.submitted
    }

    /// The number of lines that wait for a slot.
    pub fn pending_count(&self) -> (out: usize)
        ensures
            out == self@.pending.len(),
    {
        self.pending.len()
    }

    /// The line that `slot` runs and the index of the sub-command it is at,
    /// or `None` where the slot is idle or unknown.
    pub fn running(&self, slot: usize) -> (out: Option<(usize, usize)>)
        ensures
            match out {
                Some((line, index)) => {
                    &&& self@.is_busy(slot as int)
                    &&& line == self@.line_of(slot as int).id
                    &&& index == self@.done_of(slot as int)
                },
                None => !self@.is_busy(slot as int),
            },
    {
        if slot >= self.slots.len() {
            return None;
        }
        match &self.slots[slot] {
            Slot::Idle => None,
            Slot::Busy { line, done, buffer } => Some((line.id, *done)),
        }
    }

    /// Takes a line with the sub-commands `commands`, and says whether it
    /// was queued. A line without sub-commands is counted and not queued;
    /// after the end of input no line is taken, nor is one taken once the
    /// count of lines has reached the greatest number that it can hold.
    pub fn submit(&mut self, commands: Vec<String>) -> (queued: bool)
        requires
            old(self).wf(),
        ensures
            final(self).wf(),
            final(self)@ == if old(self)@.submitted < usize::MAX {
                old(self)@.submit(texts(commands@))
            } else {
                old(self)@
            },
            queued == (!old(self)@.closed && old(self)@.submitted < usize::MAX && commands.len()
                > 0),
    {
        if self.closed || self.submitted == usize::MAX {
            return false;
        }
        proof {
            old(self)@.lemma_submit_wf(texts(commands@));
        }
        let id: usize = self.submitted;
        self.submitted = id + 1;
        if commands.len() == 0 {
            assert(self@.pending =~= old(self)@.pending);
            assert(self@.slots =~= old(self)@.slots);
            return false;
        }
        let line = Line { id, commands };
        self.pending.push_back(line);
        assert(self@.pending =~= old(self)@.pending.push(line.model()));
        assert(self@.slots =~= old(self)@.slots);
        true
    }

    /// Takes the input line `text`: splits it into its sub-commands and
    /// submits them.
    pub fn submit_line(&mut self, text: &str) -> (queued: bool)
        requires
            old(self).wf(),
        ensures
            final(self).wf(),
            final(self)@ == if old(self)@.submitted < usize::MAX {
                old(self)@.submit(sub_commands(text@))
            } else {
                old(self)@
            },
            queued == (!old(self)@.closed && old(self)@.submitted < usize::MAX && sub_commands(
                text@,
            ).len() > 0),
    {
        self.submit(split_line(text))
    }

    /// Records the end of input.
    pub fn close(&mut self)
        requires
            old(self).wf(),
        ensures
            final(self).wf(),
            final(self)@ == old(self)@.close(),
    {
        self.closed = true;
        assert(self@.pending =~= old(self)@.pending);
        assert(self@.slots =~= old(self)@.slots);
    }

    /// Lets `slot` ask for a line.
    ///
    /// An idle slot is bound to the oldest waiting line where dispatch is
    /// open and a line waits. Otherwise nothing changes: the slot is told to
    /// wait while more input may come and dispatch is open, and to retire
    /// where it can never be served again.
    pub fn acquire(&mut self, slot: usize) -> (out: Dispatch)
        requires
            old(self).wf(),
        ensures
            final(self).wf(),
            final(self)@ == old(self)@.acquire(slot as int),
            match out {
                Dispatch::Run { line, command } => {
                    &&& old(self)@.can_dispatch(slot as int)
                    &&& line == old(self)@.pending[0].id
                    &&& command@ == old(self)@.pending[0].commands[0]
                },
                Dispatch::Wait => {
                    &&& old(self)@.is_idle(slot as int)
                    &&& old(self)@.gate_open()
                    &&& old(self)@.pending.len() == 0
                    &&& !old(self)@.closed
                },
                Dispatch::Retire => {
                    &&& old(self)@.is_idle(slot as int)
                    &&& !old(self)@.gate_open() || (old(self)@.pending.len() == 0
                        && old(self)@.closed)
                },
                Dispatch::Refused => !old(self)@.is_idle(slot as int),
            },
    {
        if slot >= self.slots.len() {
            return Dispatch::Refused;
        }
        match &self.slots[slot] {
            Slot::Busy { line, done, buffer } => {
                return Dispatch::Refused;
            },
            Slot::Idle => {},
        }
        if !self.policy.may_dispatch(self.failed) {
            return Dispatch::Retire;
        }
        match self.pending.pop_front() {
            None => {
                assert(self@.pending =~= old(self)@.pending);
                if self.closed {
                    Dispatch::Retire
                } else {
                    Dispatch::Wait
                }
            },
            Some(line) => {
                assert(line.model() == old(self)@.pending[0]);
                let id: usize = line.id;
                let command = line.commands[0].clone();
                self.slots.push(Slot::Busy { line, done: 0, buffer: Vec::new() });
                let _ = self.slots.swap_remove(slot);
                assert(self@.pending =~= old(self)@.pending.drop_first());
                assert(texts(Seq::<String>::empty()) =~= Seq::<Seq<char>>::empty());
                assert(self@.slots =~= old(self)@.slots.update(
                    slot as int,
                    SlotModel::Busy { line: line.model(), done: 0, buffer: Seq::empty() },
                ));
                proof {
                    old(self)@.lemma_acquire_wf(slot as int);
                    if old(self)@.slots.len() == 1 {
                        lemma_single_slot_step(old(self)@, Event::Acquire(slot as int));
                    }
                }
                Dispatch::Run { line: id, command }
            },
        }
    }

    /// Takes the report that the sub-command which `slot` runs has ended.
    ///
    /// What it printed joins the line's buffer. A failure is recorded and
    /// ends the line; so does the end of its last sub-command, and, under
    /// `Eager`, a failure observed anywhere. A line that ends frees its slot
    /// and hands out its buffer; one that goes on hands out its next
    /// sub-command.
    pub fn complete(&mut self, slot: usize, outcome: Outcome) -> (out: Progress)
        requires
            old(self).wf(),
        ensures
            final(self).wf(),
            final(self)@ == old(self)@.complete(slot as int, texts(outcome.lines@), outcome.ok),
            match out {
                Progress::Run(command) => {
                    &&& old(self)@.is_busy(slot as int)
                    &&& old(self)@.verdict(
                        old(self)@.line_of(slot as int),
                        old(self)@.done_of(slot as int),
                        outcome.ok,
                    ) is None
                    &&& command@ == old(self)@.line_of(slot as int).commands[old(self)@.done_of(
                        slot as int,
                    ) as int + 1]
                },
                Progress::Finished { line, end, block } => {
                    &&& old(self)@.is_busy(slot as int)
                    &&& old(self)@.verdict(
                        old(self)@.line_of(slot as int),
                        old(self)@.done_of(slot as int),
                        outcome.ok,
                    ) == Some(end)
                    &&& line == old(self)@.line_of(slot as int).id
                    &&& texts(block@) == old(self)@.buffer_of(slot as int) + texts(
                        outcome.lines@,
                    )
                },
                Progress::Refused => !old(self)@.is_busy(slot as int),
            },
    {
        if slot >= self.slots.len() {
            return Progress::Refused;
        }
        match &self.slots[slot] {
            Slot::Idle => {
                return Progress::Refused;
            },
            Slot::Busy { line, done, buffer } => {},
        }
        proof {
            old(self)@.lemma_complete_wf(slot as int, texts(outcome.lines@), outcome.ok);
            if old(self)@.slots.len() == 1 {
                lemma_single_slot_step(
                    old(self)@,
                    Event::Complete(slot as int, texts(outcome.lines@), outcome.ok),
                );
            }
        }
        self.slots.push(Slot::Idle);
        let taken = self.slots.swap_remove(slot);
        assert(self.slots@ =~= old(self).slots@.update(slot as int, Slot::Idle));
        assert(old(self)@.is_busy(slot as int));
        assert(old(self)@.slots[slot as int] == taken.model());
        match taken {
            Slot::Idle => Progress::Refused,
            Slot::Busy { line, done, buffer } => {
                let mut buffer = buffer;
                let mut lines = outcome.lines;
                let ghost before = buffer@;
                buffer.append(&mut lines);
                proof {
                    lemma_texts_add(before, outcome.lines@);
                }
                let ok = outcome.ok;
                assert(old(self)@.done_of(slot as int) < old(self)@.line_of(
                    slot as int,
                ).commands.len());
                assert(texts(line.commands@).len() == line.commands.len());
                let next: usize = done + 1;
                if !ok || next >= line.commands.len() || !self.policy.may_continue(self.failed) {
                    let end = if !ok {
                        LineEnd::Aborted
                    } else if next >= line.commands.len() {
                        LineEnd::Completed
                    } else {
                        LineEnd::Halted
                    };
                    if !ok {
                        self.failed = true;
                    }
                    self.finished = Ghost(
                        self.finished@.push(
                            Finish { id: line.id as nat, end, block: texts(buffer@) },
                        ),
                    );
                    assert(self@.pending =~= old(self)@.pending);
                    assert(self@.slots =~= old(self)@.slots.update(
                        slot as int,
                        SlotModel::Idle,
                    ));
                    Progress::Finished { line: line.id, end, block: buffer }
                } else {
                    let command = line.commands[next].clone();
                    self.slots.push(Slot::Busy { line, done: next, buffer });
                    let _ = self.slots.swap_remove(slot);
                    assert(self@.pending =~= old(self)@.pending);
                    assert(self@.slots =~= old(self)@.slots.update(
                        slot as int,
                        SlotModel::Busy {
                            line: line.model(),
                            done: next as nat,
                            buffer: texts(buffer@),
                        },
                    ));
                    Progress::Run(command)
                }
            },
        }
    }
}

} // verus!
