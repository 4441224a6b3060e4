//! What holds of every run of a dispatcher, whatever the order and the
//! timing of the events.

use vstd::prelude::*;
use crate::distribution::Distribution;
use crate::model::{Event, Finish, LineEnd, Model, stream};
use crate::policy::TerminationType;

verus! {

/// A failure, once observed, stays observed.
pub proof fn lemma_failure_is_permanent(m: Model, es: Seq<Event>)
    requires
        m.failed,
    ensures
        m.run(es).failed,
        m.run(es).policy == m.policy,
    decreases es.len(),
{
    if es.len() > 0 {
        lemma_failure_is_permanent(m, es.drop_last());
    }
}

/// The policy and the size of the pool are fixed for the whole run.
pub proof fn lemma_configuration_is_fixed(m: Model, es: Seq<Event>)
    ensures
        m.run(es).policy == m.policy,
        m.run(es).slots.len() == m.slots.len(),
    decreases es.len(),
{
    if es.len() > 0 {
        lemma_configuration_is_fixed(m, es.drop_last());
    }
}

/// With exactly one slot, an event keeps the lines finishing in the order
/// of their submission.
pub proof fn lemma_single_slot_step(m: Model, e: Event)
    requires
        m.wf(),
        m.slots.len() == 1,
        m.in_order(),
    ensures
        m.step(e).in_order(),
{
    let after = m.step(e);
    match e {
        Event::Acquire(slot) => {
            if m.can_dispatch(slot) {
                assert(slot == 0);
                assert forall|k: int, s: int|
                    0 <= k < after.finished.len() && after.is_busy(s) implies (
                #[trigger] after.finished[k]).id < (#[trigger] after.slots[s])->line.id by {
                    assert(after.slots[s]->line == m.pending[0]);
                    assert(after.finished[k] == m.finished[k]);
                }
            }
        },
        Event::Complete(slot, lines, ok) => {
            if m.is_busy(slot) {
                assert(slot == 0);
                assert forall|j: int, k: int| 0 <= j < k < after.finished.len() implies (
                #[trigger] after.finished[j]).id < (#[trigger] after.finished[k]).id by {
                    assert(after.finished[j] == m.finished[j]);
                    if k < m.finished.len() {
                        assert(after.finished[k] == m.finished[k]);
                    } else {
                        assert(after.finished[k].id == m.slots[0]->line.id);
                    }
                }
                assert forall|k: int, s: int|
                    0 <= k < after.finished.len() && after.is_busy(s) implies (
                #[trigger] after.finished[k]).id < (#[trigger] after.slots[s])->line.id by {
                    assert(s == 0);
                    assert(m.is_busy(s));
                    assert(after.finished == m.finished);
                }
            }
        },
        _ => {},
    }
}

/// With exactly one slot, the lines finish in the order in which they were
/// submitted, whatever the events and their order: the output is that of a
/// run of the lines one after the other.
pub proof fn lemma_single_slot_is_serial(policy: TerminationType, es: Seq<Event>)
    ensures
        Model::initial(1, policy).run(es).wf(),
        Model::initial(1, policy).run(es).in_order(),
        forall|j: int, k: int|
            0 <= j < k < Model::initial(1, policy).run(es).finished.len() ==> (
            #[trigger] Model::initial(1, policy).run(es).finished[j]).id < (
            #[trigger] Model::initial(1, policy).run(es).finished[k]).id,
    decreases es.len(),
{
    let start = Model::initial(1, policy);
    Model::lemma_initial_wf(1, policy);
    if es.len() > 0 {
        lemma_single_slot_is_serial(policy, es.drop_last());
        lemma_configuration_is_fixed(start, es.drop_last());
        lemma_single_slot_step(start.run(es.drop_last()), es.last());
        start.run(es.drop_last()).lemma_step_wf(es.last());
    }
}

/// A sub-command that fails ends its line at once, under every policy: the
/// slot is freed, the line is flushed with what it had printed up to and
/// with the failing sub-command, no later sub-command of it is started, the
/// failure is recorded, and no other line is touched.
pub proof fn lemma_failure_aborts_the_line(m: Model, slot: int, lines: Seq<Seq<char>>)
    requires
        m.is_busy(slot),
    ensures
        m.complete(slot, lines, false).is_idle(slot),
        m.complete(slot, lines, false).failed,
        m.complete(slot, lines, false).finished == m.finished.push(
            Finish {
                id: m.line_of(slot).id,
                end: LineEnd::Aborted,
                block: m.buffer_of(slot) + lines,
            },
        ),
        m.started(Event::Complete(slot, lines, false)) is None,
        m.complete(slot, lines, false).pending == m.pending,
        forall|t: int|
            0 <= t < m.slots.len() && t != slot ==> #[trigger] m.complete(
                slot,
                lines,
                false,
            ).slots[t] == m.slots[t],
{
}

/// A line that goes on shows nothing: while its sub-commands succeed and
/// more are to come, what it prints is kept in its buffer and the output
/// stream stays as it is.
pub proof fn lemma_running_line_is_invisible(m: Model, slot: int, lines: Seq<Seq<char>>, ok: bool)
    requires
        m.is_busy(slot),
        m.verdict(m.line_of(slot), m.done_of(slot), ok) is None,
    ensures
        m.complete(slot, lines, ok).output() == m.output(),
        m.complete(slot, lines, ok).is_busy(slot),
        m.complete(slot, lines, ok).buffer_of(slot) == m.buffer_of(slot) + lines,
{
}

/// A line that ends is written as one block, after everything written
/// before it.
pub proof fn lemma_finished_line_is_flushed_whole(
    m: Model,
    slot: int,
    lines: Seq<Seq<char>>,
    ok: bool,
)
    requires
        m.is_busy(slot),
        m.verdict(m.line_of(slot), m.done_of(slot), ok) is Some,
    ensures
        m.complete(slot, lines, ok).output() == m.output() + (m.buffer_of(slot) + lines),
{
    let after = m.complete(slot, lines, ok);
    assert(after.finished.drop_last() == m.finished);
}

/// What has been written stays written: the output after more events
/// begins with the output before them.
pub proof fn lemma_output_only_grows(m: Model, es: Seq<Event>)
    ensures
        m.finished.len() <= m.run(es).finished.len(),
        m.run(es).finished.take(m.finished.len() as int) == m.finished,
        m.output().len() <= m.run(es).output().len(),
        m.run(es).output().take(m.output().len() as int) == m.output(),
    decreases es.len(),
{
    if es.len() == 0 {
        assert(m.finished.take(m.finished.len() as int) == m.finished);
        assert(m.output().take(m.output().len() as int) == m.output());
    } else {
        let before = m.run(es.drop_last());
        let after = m.run(es);
        lemma_output_only_grows(m, es.drop_last());
        assert(after == before.step(es.last()));
        if after.finished != before.finished {
            assert(after.finished.drop_last() == before.finished);
            assert(after.finished.take(m.finished.len() as int) == before.finished.take(
                m.finished.len() as int,
            ));
            assert(after.output().take(m.output().len() as int) == before.output().take(
                m.output().len() as int,
            ));
        }
    }
}

/// A line that has finished is bound to no slot and waits for none.
pub proof fn lemma_finished_line_is_gone(m: Model, id: nat)
    requires
        m.wf(),
        m.has_finished(id),
    ensures
        !m.is_running(id),
        !m.is_pending(id),
{
    let k = choose|k: int| 0 <= k < m.finished.len() && (#[trigger] m.finished[k]).id == id;
    if m.is_running(id) {
        let s = choose|s: int| m.is_busy(s) && (#[trigger] m.slots[s])->line.id == id;
        assert(m.finished[k].id != m.slots[s]->line.id);
    }
    if m.is_pending(id) {
        let i = choose|i: int| 0 <= i < m.pending.len() && (#[trigger] m.pending[i]).id == id;
        assert(m.finished[k].id < m.pending[i].id);
    }
}

/// A line that has finished never runs again: after it has left the running
/// state no slot is bound to it, whatever follows.
pub proof fn lemma_finished_line_never_runs(m: Model, es: Seq<Event>, id: nat)
    requires
        m.wf(),
        m.has_finished(id),
    ensures
        m.run(es).has_finished(id),
        !m.run(es).is_running(id),
        !m.run(es).is_pending(id),
{
    let k = choose|k: int| 0 <= k < m.finished.len() && (#[trigger] m.finished[k]).id == id;
    lemma_output_only_grows(m, es);
    assert(m.run(es).finished.take(m.finished.len() as int)[k] == m.finished[k]);
    assert(m.run(es).finished[k].id == id);
    m.lemma_run_wf(es);
    lemma_finished_line_is_gone(m.run(es), id);
}

/// Only `Eager` halts a line: under `Never` and `Lazy` a line whose
/// sub-commands succeed runs to its last sub-command, whatever has failed
/// elsewhere.
pub proof fn lemma_only_eager_halts(m: Model, slot: int, ok: bool)
    requires
        m.policy != TerminationType::Eager,
    ensures
        m.verdict(m.line_of(slot), m.done_of(slot), ok) != Some(LineEnd::Halted),
        ok && m.done_of(slot) + 1 < m.line_of(slot).commands.len() ==> m.verdict(
            m.line_of(slot),
            m.done_of(slot),
            ok,
        ) is None,
{
}

/// Under `Never` an observed failure changes no decision: the same event
/// moves the state in the same way and starts the same sub-command, whether
/// or not a failure has been observed.
pub proof fn lemma_never_step(m: Model, e: Event)
    requires
        m.policy == TerminationType::Never,
    ensures
        m.with_failure().step(e) == m.step(e).with_failure(),
        m.with_failure().started(e) == m.started(e),
{
}

/// Under `Never` a failure in one line blocks no other line, now or later:
/// a whole run goes the same way with and without an observed failure, but
/// for the flag itself.
pub proof fn lemma_never_is_blind_to_failure(m: Model, es: Seq<Event>)
    requires
        m.policy == TerminationType::Never,
    ensures
        m.with_failure().run(es) == m.run(es).with_failure(),
        forall|k: int|
            0 <= k < es.len() ==> #[trigger] m.with_failure().run(es.take(k)).started(es[k])
                == m.run(es.take(k)).started(es[k]),
    decreases es.len(),
{
    if es.len() > 0 {
        let head = es.drop_last();
        lemma_never_is_blind_to_failure(m, head);
        lemma_configuration_is_fixed(m, head);
        lemma_never_step(m.run(head), es.last());
        assert forall|k: int| 0 <= k < es.len() implies #[trigger] m.with_failure().run(
            es.take(k),
        ).started(es[k]) == m.run(es.take(k)).started(es[k]) by {
            if k < head.len() {
                assert(es.take(k) == head.take(k));
                assert(es[k] == head[k]);
            } else {
                assert(es.take(k) == head);
            }
        }
    }
}

/// Under `Lazy` and `Eager`, once a failure is observed, an event binds no
/// new line to a slot.
pub proof fn lemma_halt_step(m: Model, e: Event, id: nat)
    requires
        m.policy != TerminationType::Never,
        m.failed,
        m.step(e).was_dispatched(id),
    ensures
        m.was_dispatched(id),
{
    let after = m.step(e);
    match e {
        Event::Complete(slot, lines, ok) => {
            if m.is_busy(slot) {
                if after.is_running(id) {
                    let s = choose|s: int|
                        after.is_busy(s) && (#[trigger] after.slots[s])->line.id == id;
                    assert(m.is_busy(s) && m.slots[s]->line.id == id);
                } else {
                    let k = choose|k: int|
                        0 <= k < after.finished.len() && (#[trigger] after.finished[k]).id == id;
                    if k < m.finished.len() {
                        assert(m.finished[k].id == id);
                    } else {
                        assert(m.slots[slot]->line.id == id);
                    }
                }
            }
        },
        _ => {},
    }
}

/// Under `Lazy` and `Eager`, once a failure is observed, no line that has
/// not been dispatched yet is ever dispatched.
pub proof fn lemma_no_dispatch_after_failure(m: Model, es: Seq<Event>, id: nat)
    requires
        m.policy != TerminationType::Never,
        m.failed,
        !m.was_dispatched(id),
    ensures
        !m.run(es).was_dispatched(id),
    decreases es.len(),
{
    if es.len() > 0 {
        lemma_no_dispatch_after_failure(m, es.drop_last(), id);
        lemma_failure_is_permanent(m, es.drop_last());
        if m.run(es).was_dispatched(id) {
            lemma_halt_step(m.run(es.drop_last()), es.last(), id);
        }
    }
}

/// Under `Eager`, once a failure is observed, the end of a sub-command
/// frees its slot and flushes the line, whether or not the line had more to
/// run.
pub proof fn lemma_eager_frees_the_slot(m: Model, slot: int, lines: Seq<Seq<char>>, ok: bool)
    requires
        m.policy == TerminationType::Eager,
        m.failed,
        m.is_busy(slot),
    ensures
        m.complete(slot, lines, ok).is_idle(slot),
        m.complete(slot, lines, ok).output() == m.output() + (m.buffer_of(slot) + lines),
{
    lemma_finished_line_is_flushed_whole(m, slot, lines, ok);
}

/// Under `Eager`, once a failure is observed, no event of the run makes any
/// slot start a sub-command: neither the first of a new line nor the next
/// of a running one.
pub proof fn lemma_eager_starts_nothing_after_failure(m: Model, es: Seq<Event>, k: int)
    requires
        m.policy == TerminationType::Eager,
        m.failed,
        0 <= k < es.len(),
    ensures
        m.run(es.take(k)).started(es[k]) is None,
{
    lemma_failure_is_permanent(m, es.take(k));
}

/// Under `Lazy` and `Eager`, once a failure is observed and every slot is
/// idle, the dispatcher has come to rest: whatever follows, every slot
/// stays idle and nothing more is written.
pub proof fn lemma_quiescent_after_failure(m: Model, es: Seq<Event>)
    requires
        m.policy != TerminationType::Never,
        m.failed,
        m.all_idle(),
    ensures
        m.run(es).all_idle(),
        m.run(es).finished == m.finished,
        m.run(es).output() == m.output(),
    decreases es.len(),
{
    if es.len() > 0 {
        lemma_quiescent_after_failure(m, es.drop_last());
        lemma_failure_is_permanent(m, es.drop_last());
        let before = m.run(es.drop_last());
        match es.last() {
            Event::Acquire(slot) => {},
            Event::Complete(slot, lines, ok) => {
                if 0 <= slot < before.slots.len() {
                    assert(before.slots[slot] is Idle);
                }
            },
            _ => {},
        }
    }
}

/// The pool is one set of like slots: two configurations with the same
/// total of threads, however they are spread over local threads and remote
/// targets, give dispatchers that go through the same states on the same
/// events.
pub proof fn lemma_pool_shape_is_irrelevant(
    a: Distribution,
    b: Distribution,
    policy: TerminationType,
    es: Seq<Event>,
)
    requires
        a.pool_size() == b.pool_size(),
    ensures
        Model::initial(a.pool_size(), policy).run(es) == Model::initial(b.pool_size(), policy).run(
            es,
        ),
        Model::initial(a.pool_size(), policy).run(es).output() == Model::initial(
            b.pool_size(),
            policy,
        ).run(es).output(),
{
}

/// The output stream of no finished line is empty, and that of the lines
/// finished so far and one more is the stream so far and then its block.
pub proof fn lemma_stream_push(finished: Seq<Finish>, last: Finish)
    ensures
        stream(Seq::<Finish>::empty()) == Seq::<Seq<char>>::empty(),
        stream(finished.push(last)) == stream(finished) + last.block,
{
    assert(finished.push(last).drop_last() == finished);
}

} // verus!
