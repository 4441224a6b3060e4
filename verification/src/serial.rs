//! The pool of one slot: a replay on a single slot writes what the lines
//! write when they run one after the other, in the order of submission.

use vstd::prelude::*;
use crate::laws::lemma_stream_push;
use crate::model::{LineModel, Model};
use crate::policy::TerminationType;
use crate::replay::{commands_of, loaded, replay_output, Replay, Timed};
use crate::text::texts;

verus! {

/// What the sub-commands of `line` from number `from` on write when they
/// run one after the other: what they print, up to and with the first that
/// fails.
pub open spec fn line_block(line: Vec<Timed>, from: int) -> Seq<Seq<char>>
    decreases line@.len() - from,
{
    if from < 0 || from >= line@.len() {
        Seq::empty()
    } else if !line@[from].ok {
        texts(line@[from].lines@)
    } else {
        texts(line@[from].lines@) + line_block(line, from + 1)
    }
}

/// Whether one of the sub-commands of `line` from number `from` on fails.
pub open spec fn line_fails(line: Vec<Timed>, from: int) -> bool
    decreases line@.len() - from,
{
    if from < 0 || from >= line@.len() {
        false
    } else if !line@[from].ok {
        true
    } else {
        line_fails(line, from + 1)
    }
}

/// What the lines of `script` from number `from` on write when they run
/// one after the other. Under `Never` every line runs; under `Lazy` and
/// `Eager` the first line that fails is the last that runs.
pub open spec fn serial_output(script: Seq<Vec<Timed>>, from: int, policy: TerminationType) -> Seq<
    Seq<char>,
>
    decreases script.len() - from,
{
    if from < 0 || from >= script.len() {
        Seq::empty()
    } else if line_fails(script[from], 0) && policy != TerminationType::Never {
        line_block(script[from], 0)
    } else {
        line_block(script[from], 0) + serial_output(script, from + 1, policy)
    }
}

/// The lines of `script` numbered from `from` up to `to` that are queued:
/// those with at least one sub-command, in order.
pub open spec fn queued(script: Seq<Vec<Timed>>, from: int, to: int) -> Seq<LineModel>
    decreases to - from,
{
    if to <= from {
        Seq::empty()
    } else if script[to - 1]@.len() == 0 {
        queued(script, from, to - 1)
    } else {
        queued(script, from, to - 1).push(
            LineModel { id: (to - 1) as nat, commands: commands_of(script[to - 1]) },
        )
    }
}

/// Whether the single slot of `replay` runs sub-command number `index` of
/// line number `line` of the script, with the later lines waiting.
pub open spec fn running_at(
    replay: Replay,
    script: Seq<Vec<Timed>>,
    line: int,
    index: int,
) -> bool {
    &&& replay.model.slots.len() == 1
    &&& replay.model.is_busy(0)
    &&& 0 <= line < script.len()
    &&& 0 <= index < script[line]@.len()
    &&& replay.model.line_of(0) == (LineModel {
        id: line as nat,
        commands: commands_of(script[line]),
    })
    &&& replay.model.done_of(0) == index
    &&& replay.model.pending == queued(script, line + 1, script.len() as int)
    &&& replay.model.policy != TerminationType::Never ==> !replay.model.failed
}

/// Whether the single slot of `replay` is idle with the lines of the script
/// from number `from` on waiting, and may be given one.
pub open spec fn idle_before(replay: Replay, script: Seq<Vec<Timed>>, from: int) -> bool {
    &&& replay.model.slots.len() == 1
    &&& replay.model.is_idle(0)
    &&& 0 <= from <= script.len()
    &&& replay.model.pending == queued(script, from, script.len() as int)
    &&& replay.model.gate_open()
}

/// After the first `n` lines were submitted, the queued ones among them
/// wait and nothing else has happened.
pub proof fn lemma_loaded(script: Seq<Vec<Timed>>, n: nat, slots: nat, policy: TerminationType)
    requires
        n <= script.len(),
    ensures
        loaded(script, n, slots, policy) == (Model {
            submitted: n,
            pending: queued(script, 0, n as int),
            ..Model::initial(slots, policy)
        }),
    decreases n,
{
    if n > 0 {
        lemma_loaded(script, (n - 1) as nat, slots, policy);
        assert(commands_of(script[n - 1]).len() == script[n - 1]@.len());
    }
}

/// The queued lines from `from` on are line number `from`, where it has a
/// sub-command, and the queued lines after it.
pub proof fn lemma_queued_first(script: Seq<Vec<Timed>>, from: int, to: int)
    requires
        0 <= from < to <= script.len(),
    ensures
        queued(script, from, to) == if script[from]@.len() == 0 {
            queued(script, from + 1, to)
        } else {
            seq![LineModel { id: from as nat, commands: commands_of(script[from]) }] + queued(
                script,
                from + 1,
                to,
            )
        },
    decreases to - from,
{
    if to - 1 > from {
        lemma_queued_first(script, from, to - 1);
    } else {
        assert(queued(script, from, to - 1) == Seq::<LineModel>::empty());
        assert(queued(script, from + 1, to) == Seq::<LineModel>::empty());
    }
    let first = LineModel { id: from as nat, commands: commands_of(script[from]) };
    let last = LineModel { id: (to - 1) as nat, commands: commands_of(script[to - 1]) };
    if to - 1 > from && script[to - 1]@.len() > 0 && script[from]@.len() > 0 {
        assert((seq![first] + queued(script, from + 1, to - 1)).push(last) == seq![first] + queued(
            script,
            from + 1,
            to - 1,
        ).push(last));
    }
    if to - 1 == from && script[from]@.len() > 0 {
        assert(Seq::<LineModel>::empty().push(first) == seq![first] + Seq::<LineModel>::empty());
    }
}

/// With one slot that runs a line, the replay writes the rest of that line
/// and then the lines after it, one after the other.
pub proof fn lemma_settle_running(
    replay: Replay,
    script: Seq<Vec<Timed>>,
    line: int,
    index: int,
)
    requires
        running_at(replay, script, line, index),
    ensures
        replay.settle(script).model.output() == replay.model.output() + replay.model.buffer_of(0)
            + line_block(script[line], index) + if line_fails(script[line], index)
            && replay.model.policy != TerminationType::Never {
            Seq::<Seq<char>>::empty()
        } else {
            serial_output(script, line + 1, replay.model.policy)
        },
    decreases script.len() - line, script[line]@.len() - index + 1,
{
    let policy = replay.model.policy;
    let ended = script[line]@[index];
    let printed = texts(ended.lines@);
    let model = replay.model.complete(0, printed, ended.ok);
    let rest = if line_fails(script[line], index) && policy != TerminationType::Never {
        Seq::<Seq<char>>::empty()
    } else {
        serial_output(script, line + 1, policy)
    };
    assert(replay.earliest(0) is None);
    assert(replay.earliest(1) == Some(0int));
    assert(replay.next() == Some(0int));
    assert(replay.settle(script) == replay.advance(script, 0).settle(script));
    assert(commands_of(script[line]).len() == script[line]@.len());
    if model.is_busy(0) {
        let after = replay.advance(script, 0);
        assert(running_at(after, script, line, index + 1));
        lemma_settle_running(after, script, line, index + 1);
        assert(after.model.buffer_of(0) == replay.model.buffer_of(0) + printed);
        assert(replay.model.output() + (replay.model.buffer_of(0) + printed) + line_block(
            script[line],
            index + 1,
        ) + rest == replay.model.output() + replay.model.buffer_of(0) + (printed + line_block(
            script[line],
            index + 1,
        )) + rest);
    } else {
        let freed = Replay { model, due: replay.due };
        let block = replay.model.buffer_of(0) + printed;
        lemma_stream_push(replay.model.finished, model.finished.last());
        assert(model.finished.drop_last() == replay.model.finished);
        assert(model.output() == replay.model.output() + block);
        assert(replay.model.output() + block == replay.model.output() + replay.model.buffer_of(0)
            + printed);
        if ended.ok {
            assert(index + 1 == script[line]@.len());
            assert(line_block(script[line], index + 1) == Seq::<Seq<char>>::empty());
            assert(line_block(script[line], index) == printed + Seq::<Seq<char>>::empty());
            assert(!line_fails(script[line], index + 1));
        }
        assert(line_block(script[line], index) == printed);
        if model.gate_open() {
            assert(idle_before(freed, script, line + 1));
            lemma_settle_idle(freed, script, line + 1, replay.due[0]);
            assert(model.policy == policy);
        } else {
            assert(freed.ask(script, 0, replay.due[0]) == freed);
            assert(freed.earliest(0) is None);
            assert(freed.earliest(1) is None);
            assert(freed.settle(script) == freed);
            assert(model.output() + Seq::<Seq<char>>::empty() == model.output());
        }
    }
}

/// With one slot that is idle, the replay writes the waiting lines one
/// after the other.
pub proof fn lemma_settle_idle(replay: Replay, script: Seq<Vec<Timed>>, from: int, now: u64)
    requires
        idle_before(replay, script, from),
    ensures
        replay.ask(script, 0, now).settle(script).model.output() == replay.model.output()
            + serial_output(script, from, replay.model.policy),
    decreases script.len() - from,
        if from < script.len() {
            script[from]@.len() + 2
        } else {
            0
        },
{
    let policy = replay.model.policy;
    let asked = replay.ask(script, 0, now);
    if from == script.len() {
        assert(replay.model.pending.len() == 0);
        assert(asked == replay);
        assert(replay.earliest(0) is None);
        assert(replay.earliest(1) is None);
        assert(replay.settle(script) == replay);
        assert(replay.model.output() + Seq::<Seq<char>>::empty() == replay.model.output());
    } else {
        lemma_queued_first(script, from, script.len() as int);
        if script[from]@.len() == 0 {
            lemma_settle_idle(replay, script, from + 1, now);
            assert(line_block(script[from], 0) == Seq::<Seq<char>>::empty());
            assert(!line_fails(script[from], 0));
            assert(Seq::<Seq<char>>::empty() + serial_output(script, from + 1, policy)
                == serial_output(script, from + 1, policy));
        } else {
            let first = LineModel { id: from as nat, commands: commands_of(script[from]) };
            assert(replay.model.pending[0] == first);
            assert(replay.model.pending.drop_first() == queued(
                script,
                from + 1,
                script.len() as int,
            ));
            assert(running_at(asked, script, from, 0));
            lemma_settle_running(asked, script, from, 0);
            assert(asked.model.buffer_of(0) == Seq::<Seq<char>>::empty());
            assert(asked.model.output() == replay.model.output());
            assert(replay.model.output() + Seq::<Seq<char>>::empty() == replay.model.output());
        }
    }
}

/// With exactly one slot, a replay writes what the lines write when they
/// run one after the other in the order of their submission.
pub proof fn lemma_single_slot_replay(script: Seq<Vec<Timed>>, policy: TerminationType)
    ensures
        replay_output(script, 1, policy) == serial_output(script, 0, policy),
{
    let model = loaded(script, script.len(), 1, policy).close();
    let start = Replay { model, due: Seq::new(1, |s: int| 0u64) };
    lemma_loaded(script, script.len(), 1, policy);
    assert(idle_before(start, script, 0));
    assert(start.start(script, 0) == start);
    assert(start.start(script, 1) == start.start(script, 0).ask(script, 0, 0));
    lemma_settle_idle(start, script, 0, 0);
    assert(model.output() == Seq::<Seq<char>>::empty());
    assert(Seq::<Seq<char>>::empty() + serial_output(script, 0, policy) == serial_output(
        script,
        0,
        policy,
    ));
}

} // verus!
