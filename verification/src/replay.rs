//! Replaying a run on a virtual clock.
//!
//! Given for every sub-command what it prints, whether it succeeds and how
//! long it takes, a replay says what a dispatcher writes: every line is
//! there at time zero, the slots ask for lines in the order of their
//! numbers, and whenever sub-commands end, the one that ends first is
//! reported first (the slot with the lowest number among those that end at
//! the same time).

use vstd::prelude::*;
use crate::dispatcher::{Dispatch, Dispatcher, Outcome, Progress};
use crate::laws::lemma_stream_push;
use crate::model::Model;
use crate::policy::TerminationType;
use crate::serial::{lemma_single_slot_replay, serial_output};
use crate::sink::OutputSink;
use crate::text::texts;

verus! {

/// One sub-command of a recorded run.
#[derive(Debug, PartialEq, Eq)]
pub struct Timed {
    /// The text of the sub-command.
    pub command: String,
    /// The lines that it prints.
    pub lines: Vec<String>,
    /// Whether it succeeds.
    pub ok: bool,
    /// How long it takes, in milliseconds.
    pub millis: u64,
}

/// The state of a replay: the dispatcher, and for every slot the time at
/// which the sub-command that it runs ends.
pub struct Replay {
    pub model: Model,
    pub due: Seq<u64>,
}

/// The texts of the sub-commands of a recorded line.
pub open spec fn commands_of(line: Vec<Timed>) -> Seq<Seq<char>> {
    Seq::new(line@.len(), |j: int| line@[j].command@)
}

/// The time `millis` after `now`. The clock stops at its greatest value.
pub open spec fn later(now: u64, millis: u64) -> u64 {
    if now + millis > u64::MAX {
        u64::MAX
    } else {
        (now + millis) as u64
    }
}

/// The dispatcher after the first `n` lines of the script were submitted.
pub open spec fn loaded(
    script: Seq<Vec<Timed>>,
    n: nat,
    slots: nat,
    policy: TerminationType,
) -> Model
    decreases n,
{
    if n == 0 {
        Model::initial(slots, policy)
    } else {
        loaded(script, (n - 1) as nat, slots, policy).submit(commands_of(script[n - 1]))
    }
}

/// Whether every line that waits or runs in `model` is a line of the
/// script, with the script's sub-commands.
pub open spec fn follows(model: Model, script: Seq<Vec<Timed>>) -> bool {
    &&& forall|i: int|
        0 <= i < model.pending.len() ==> (#[trigger] model.pending[i]).id < script.len()
            && model.pending[i].commands == commands_of(script[model.pending[i].id as int])
    &&& forall|s: int|
        model.is_busy(s) ==> (#[trigger] model.slots[s])->line.id < script.len()
            && model.slots[s]->line.commands == commands_of(
            script[model.slots[s]->line.id as int],
        )
}

impl Replay {
    /// The state after `slot` asked for a line at the time `now`: where it
    /// is given one, its first sub-command ends after its own duration.
    pub open spec fn ask(self, script: Seq<Vec<Timed>>, slot: int, now: u64) -> Replay {
        if self.model.can_dispatch(slot) {
            Replay {
                model: self.model.acquire(slot),
                due: self.due.update(
                    slot,
                    later(now, script[self.model.pending[0].id as int]@[0].millis),
                ),
            }
        } else {
            self
        }
    }

    /// The state after the first `n` slots asked for a line at time zero.
    pub open spec fn start(self, script: Seq<Vec<Timed>>, n: nat) -> Replay
        decreases n,
    {
        if n == 0 {
            self
        } else {
            self.start(script, (n - 1) as nat).ask(script, n - 1, 0)
        }
    }

    /// Among the first `n` slots, the busy one whose sub-command ends
    /// first, and of several that end together the one with the lowest
    /// number.
    pub open spec fn earliest(self, n: nat) -> Option<int>
        decreases n,
    {
        if n == 0 {
            None
        } else {
            let before = self.earliest((n - 1) as nat);
            if self.model.is_busy(n - 1) && (before is None || self.due[n - 1]
                < self.due[before->0]) {
                Some(n - 1)
            } else {
                before
            }
        }
    }

    /// The slot whose sub-command ends next, if any slot is busy.
    pub open spec fn next(self) -> Option<int> {
        self.earliest(self.model.slots.len())
    }

    /// The state after the sub-command of `slot` ended as the script says:
    /// a line that goes on starts its next sub-command at once, and a slot
    /// that is freed asks for a line at once.
    pub open spec fn advance(self, script: Seq<Vec<Timed>>, slot: int) -> Replay {
        let line = self.model.line_of(slot).id as int;
        let index = self.model.done_of(slot) as int;
        let ended = script[line]@[index];
        let model = self.model.complete(slot, texts(ended.lines@), ended.ok);
        if model.is_busy(slot) {
            Replay {
                model,
                due: self.due.update(slot, later(self.due[slot], script[line]@[index + 1].millis)),
            }
        } else {
            Replay { model, due: self.due }.ask(script, slot, self.due[slot])
        }
    }

    /// The state in which the replay comes to rest: no slot is busy.
    pub open spec fn settle(self, script: Seq<Vec<Timed>>) -> Replay
        decreases self.model.work_left(),
    {
        match self.next() {
            None => self,
            Some(slot) => {
                proof {
                    self.lemma_advance_is_progress(script, slot);
                }
                self.advance(script, slot).settle(script)
            },
        }
    }

    /// The slot that `earliest` names is busy and among the first `n`.
    pub proof fn lemma_earliest_is_busy(self, n: nat)
        requires
            n <= self.model.slots.len(),
        ensures
            self.earliest(n) matches Some(slot) ==> 0 <= slot < n && self.model.is_busy(slot),
            self.earliest(n) is None ==> forall|s: int| 0 <= s < n ==> !self.model.is_busy(s),
        decreases n,
    {
        if n > 0 {
            self.lemma_earliest_is_busy((n - 1) as nat);
        }
    }

    /// Every step of a replay is progress: less work is left after it.
    pub proof fn lemma_advance_is_progress(self, script: Seq<Vec<Timed>>, slot: int)
        requires
            self.next() == Some(slot),
        ensures
            self.advance(script, slot).model.work_left() < self.model.work_left(),
    {
        self.lemma_earliest_is_busy(self.model.slots.len());
        let line = self.model.line_of(slot).id as int;
        let index = self.model.done_of(slot) as int;
        let ended = script[line]@[index];
        let model = self.model.complete(slot, texts(ended.lines@), ended.ok);
        self.model.lemma_complete_reduces_work(slot, texts(ended.lines@), ended.ok);
        model.lemma_acquire_keeps_work(slot);
    }
}

/// What a dispatcher with `slots` slots and the policy `policy` writes when
/// the recorded run `script` is replayed.
pub open spec fn replay_output(script: Seq<Vec<Timed>>, slots: nat, policy: TerminationType) -> Seq<
    Seq<char>,
> {
    Replay {
        model: loaded(script, script.len(), slots, policy).close(),
        due: Seq::new(slots, |s: int| 0u64),
    }.start(script, slots).settle(script).model.output()
}

/// A copy of the lines `lines`.
fn copy_lines(lines: &Vec<String>) -> (out: Vec<String>)
    ensures
        out@ == lines@,
{
    let mut out: Vec<String> = Vec::new();
    let mut i: usize = 0;
    while i < lines.len()
        invariant
            i <= lines.len(),
            out@ == lines@.take(i as int),
        decreases lines.len() - i,
    {
        out.push(lines[i].clone());
        assert(lines@.take(i + 1) == lines@.take(i as int).push(lines@[i as int]));
        i += 1;
    }
    assert(lines@.take(lines.len() as int) == lines@);
    out
}

/// The texts of the sub-commands of the recorded line `line`.
fn commands_in(line: &Vec<Timed>) -> (out: Vec<String>)
    ensures
        texts(out@) == commands_of(*line),
{
    let mut out: Vec<String> = Vec::new();
    let mut j: usize = 0;
    while j < line.len()
        invariant
            j <= line.len(),
            out.len() == j,
            forall|k: int| 0 <= k < j ==> (#[trigger] out@[k])@ == line@[k].command@,
        decreases line.len() - j,
    {
        out.push(line[j].command.clone());
        j += 1;
    }
    assert(texts(out@) =~= commands_of(*line));
    out
}

/// The slot whose sub-command ends next.
fn next_due(dispatcher: &Dispatcher, due: &Vec<u64>) -> (out: Option<usize>)
    requires
        due.len() == dispatcher@.slots.len(),
    ensures
        match out {
            Some(slot) => Replay { model: dispatcher@, due: due@ }.next() == Some(slot as int),
            None => Replay { model: dispatcher@, due: due@ }.next() is None,
        },
{
    let ghost replay = Replay { model: dispatcher@, due: due@ };
    let mut best: Option<usize> = None;
    let mut s: usize = 0;
    while s < due.len()
        invariant
            s <= due.len(),
            due.len() == dispatcher@.slots.len(),
            replay == (Replay { model: dispatcher@, due: due@ }),
            match best {
                Some(slot) => slot < s && replay.earliest(s as nat) == Some(slot as int),
                None => replay.earliest(s as nat) is None,
            },
        decreases due.len() - s,
    {
        if dispatcher.running(s).is_some() {
            match best {
                None => {
                    best = Some(s);
                },
                Some(slot) => {
                    if due[s] < due[slot] {
                        best = Some(s);
                    }
                },
            }
        }
        s += 1;
    }
    best
}

/// Replays the recorded run `script` on a dispatcher with `slots` slots and
/// the halt policy `policy`, and gives the lines that it writes, in order.
///
/// With one slot the lines are written as if they ran one after the other
/// in the order of their submission.
pub fn replay(script: &Vec<Vec<Timed>>, slots: usize, policy: TerminationType) -> (out: Vec<String>)
    ensures
        texts(out@) == replay_output(script@, slots as nat, policy),
        slots == 1 ==> texts(out@) == serial_output(script@, 0, policy),
{
    proof {
        lemma_single_slot_replay(script@, policy);
    }
    let mut dispatcher = Dispatcher::new(slots, policy);
    let mut i: usize = 0;
    while i < script.len()
        invariant
            i <= script.len(),
            dispatcher.wf(),
            dispatcher@ == loaded(script@, i as nat, slots as nat, policy),
            dispatcher@.submitted == i,
            !dispatcher@.closed,
            dispatcher@.slots.len() == slots,
            dispatcher@.all_idle(),
            dispatcher@.finished.len() == 0,
            follows(dispatcher@, script@),
        decreases script.len() - i,
    {
        let ghost before = dispatcher@;
        let commands = commands_in(&script[i]);
        dispatcher.submit(commands);
        assert(follows(dispatcher@, script@)) by {
            assert forall|k: int| 0 <= k < dispatcher@.pending.len() implies (
            #[trigger] dispatcher@.pending[k]).id < script@.len() && dispatcher@.pending[k].commands
                == commands_of(script@[dispatcher@.pending[k].id as int]) by {
                if k < before.pending.len() {
                    assert(dispatcher@.pending[k] == before.pending[k]);
                }
            }
        }
        i += 1;
    }
    dispatcher.close();
    let mut due: Vec<u64> = Vec::new();
    let mut s: usize = 0;
    while s < slots
        invariant
            s <= slots,
            due.len() == s,
            forall|k: int| 0 <= k < s ==> due@[k] == 0,
        decreases slots - s,
    {
        due.push(0);
        s += 1;
    }
    let ghost rest = Replay {
        model: loaded(script@, script@.len(), slots as nat, policy).close(),
        due: Seq::new(slots as nat, |s: int| 0u64),
    };
    assert(due@ =~= rest.due);
    assert(follows(dispatcher@, script@));
    s = 0;
    while s < slots
        invariant
            s <= slots,
            dispatcher.wf(),
            dispatcher@.slots.len() == slots,
            due.len() == slots,
            dispatcher@.finished.len() == 0,
            follows(dispatcher@, script@),
            forall|k: int| s <= k < slots ==> #[trigger] dispatcher@.slots[k] is Idle,
            (Replay { model: dispatcher@, due: due@ }) == rest.start(script@, s as nat),
        decreases slots - s,
    {
        let ghost before = dispatcher@;
        match dispatcher.acquire(s) {
            Dispatch::Run { line, command } => {
                assert(before.pending[0].commands == commands_of(script@[line as int]));
                assert(before.pending[0].commands.len() > 0);
                let millis: u64 = script[line][0].millis;
                let at: u64 = 0u64.saturating_add(millis);
                due.set(s, at);
                proof {
                    lemma_follows_acquire(before, script@, s as int);
                }
            },
            _ => {},
        }
        s += 1;
    }
    let mut sink = OutputSink::new();
    loop
        invariant
            dispatcher.wf(),
            dispatcher@.slots.len() == slots,
            due.len() == slots,
            follows(dispatcher@, script@),
            sink@ == dispatcher@.output(),
            (Replay { model: dispatcher@, due: due@ }).settle(script@) == rest.start(
                script@,
                slots as nat,
            ).settle(script@),
            replay_output(script@, slots as nat, policy) == rest.start(
                script@,
                slots as nat,
            ).settle(script@).model.output(),
        ensures
            sink@ == replay_output(script@, slots as nat, policy),
        decreases dispatcher@.work_left(),
    {
        let ghost here = Replay { model: dispatcher@, due: due@ };
        match next_due(&dispatcher, &due) {
            None => {
                assert(here.settle(script@) == here);
                break;
            },
            Some(slot) => {
                proof {
                    here.lemma_earliest_is_busy(here.model.slots.len());
                    here.lemma_advance_is_progress(script@, slot as int);
                    assert(here.settle(script@) == here.advance(script@, slot as int).settle(
                        script@,
                    ));
                }
                assert(dispatcher@.is_busy(slot as int));
                assert(dispatcher@.slots[slot as int]->line.id < script@.len());
                assert(dispatcher@.done_of(slot as int) < dispatcher@.line_of(
                    slot as int,
                ).commands.len());
                let now: u64 = due[slot];
                let at = dispatcher.running(slot);
                let line: usize = match at {
                    Some(place) => place.0,
                    None => 0,
                };
                let index: usize = match at {
                    Some(place) => place.1,
                    None => 0,
                };
                assert(line == dispatcher@.line_of(slot as int).id);
                assert(index == dispatcher@.done_of(slot as int));
                assert(dispatcher@.line_of(slot as int).commands == commands_of(
                    script@[line as int],
                ));
                assert(index < script@[line as int]@.len());
                let ended = &script[line][index];
                let outcome = Outcome { lines: copy_lines(&ended.lines), ok: ended.ok };
                let ghost before = dispatcher@;
                match dispatcher.complete(slot, outcome) {
                    Progress::Run(command) => {
                        let count: usize = script[line].len();
                        assert(index + 1 < count);
                        let millis: u64 = script[line][index + 1].millis;
                        due.set(slot, now.saturating_add(millis));
                        proof {
                            lemma_follows_complete(
                                before,
                                script@,
                                slot as int,
                                texts(ended.lines@),
                                ended.ok,
                            );
                        }
                    },
                    Progress::Finished { line: finished, end, block } => {
                        sink.flush(block);
                        proof {
                            lemma_stream_push(before.finished, dispatcher@.finished.last());
                            assert(dispatcher@.finished.drop_last() == before.finished);
                            lemma_follows_complete(
                                before,
                                script@,
                                slot as int,
                                texts(ended.lines@),
                                ended.ok,
                            );
                        }
                        let ghost freed = dispatcher@;
                        match dispatcher.acquire(slot) {
                            Dispatch::Run { line: bound, command } => {
                                assert(freed.pending[0].commands == commands_of(
                                    script@[bound as int],
                                ));
                                assert(freed.pending[0].commands.len() > 0);
                                let millis: u64 = script[bound][0].millis;
                                due.set(slot, now.saturating_add(millis));
                                proof {
                                    lemma_follows_acquire(freed, script@, slot as int);
                                }
                            },
                            _ => {},
                        }
                    },
                    Progress::Refused => {},
                }
                assert((Replay { model: dispatcher@, due: due@ }) == here.advance(
                    script@,
                    slot as int,
                ));
            },
        }
    }
    sink.into_lines()
}

/// A slot that is given a line is given a line of the script.
proof fn lemma_follows_acquire(model: Model, script: Seq<Vec<Timed>>, slot: int)
    requires
        follows(model, script),
    ensures
        follows(model.acquire(slot), script),
{
    let after = model.acquire(slot);
    if model.can_dispatch(slot) {
        assert forall|i: int| 0 <= i < after.pending.len() implies (#[trigger] after.pending[i]).id
            < script.len() && after.pending[i].commands == commands_of(
            script[after.pending[i].id as int],
        ) by {
            assert(after.pending[i] == model.pending[i + 1]);
        }
        assert forall|s: int| after.is_busy(s) implies (#[trigger] after.slots[s])->line.id
            < script.len() && after.slots[s]->line.commands == commands_of(
            script[after.slots[s]->line.id as int],
        ) by {
            if s != slot {
                assert(after.slots[s] == model.slots[s]);
                assert(model.is_busy(s));
            } else {
                assert(after.slots[s]->line == model.pending[0]);
            }
        }
    }
}

/// The end of a sub-command leaves the lines those of the script.
proof fn lemma_follows_complete(
    model: Model,
    script: Seq<Vec<Timed>>,
    slot: int,
    lines: Seq<Seq<char>>,
    ok: bool,
)
    requires
        follows(model, script),
    ensures
        follows(model.complete(slot, lines, ok), script),
{
    let after = model.complete(slot, lines, ok);
    if model.is_busy(slot) {
        assert forall|s: int| after.is_busy(s) implies (#[trigger] after.slots[s])->line.id
            < script.len() && after.slots[s]->line.commands == commands_of(
            script[after.slots[s]->line.id as int],
        ) by {
            if s != slot {
                assert(after.slots[s] == model.slots[s]);
            }
            assert(model.is_busy(s));
        }
    }
}

/// Whether two recorded sub-commands say the same: the same text, the same
/// lines printed, the same end and the same duration.
pub open spec fn same_step(a: Timed, b: Timed) -> bool {
    &&& a.command@ == b.command@
    &&& texts(a.lines@) == texts(b.lines@)
    &&& a.ok == b.ok
    &&& a.millis == b.millis
}

/// Whether two recorded runs say the same, line by line and sub-command by
/// sub-command.
pub open spec fn same_script(a: Seq<Vec<Timed>>, b: Seq<Vec<Timed>>) -> bool {
    &&& a.len() == b.len()
    &&& forall|i: int| 0 <= i < a.len() ==> (#[trigger] a[i])@.len() == b[i]@.len()
    &&& forall|i: int, j: int|
        0 <= i < a.len() && 0 <= j < a[i]@.len() ==> same_step(#[trigger] a[i]@[j], b[i]@[j])
}

/// Lines with the same sub-commands have the same texts.
proof fn lemma_same_commands(a: Seq<Vec<Timed>>, b: Seq<Vec<Timed>>, i: int)
    requires
        same_script(a, b),
        0 <= i < a.len(),
    ensures
        commands_of(a[i]) == commands_of(b[i]),
{
    assert(a[i]@.len() == b[i]@.len());
    assert forall|j: int| 0 <= j < a[i]@.len() implies commands_of(a[i])[j] == commands_of(
        b[i],
    )[j] by {
        assert(same_step(a[i]@[j], b[i]@[j]));
    }
    assert(commands_of(a[i]) =~= commands_of(b[i]));
}

/// What follows one recorded run follows every run that says the same.
proof fn lemma_follows_same(model: Model, a: Seq<Vec<Timed>>, b: Seq<Vec<Timed>>)
    requires
        follows(model, a),
        same_script(a, b),
    ensures
        follows(model, b),
{
    assert forall|i: int| 0 <= i < model.pending.len() implies (#[trigger] model.pending[i]).id
        < b.len() && model.pending[i].commands == commands_of(b[model.pending[i].id as int]) by {
        lemma_same_commands(a, b, model.pending[i].id as int);
    }
    assert forall|s: int| model.is_busy(s) implies (#[trigger] model.slots[s])->line.id < b.len()
        && model.slots[s]->line.commands == commands_of(b[model.slots[s]->line.id as int]) by {
        lemma_same_commands(a, b, model.slots[s]->line.id as int);
    }
}

/// A slot that asks for a line is answered in the same way under two
/// recorded runs that say the same.
proof fn lemma_ask_same(replay: Replay, a: Seq<Vec<Timed>>, b: Seq<Vec<Timed>>, slot: int, now: u64)
    requires
        replay.model.wf(),
        follows(replay.model, a),
        same_script(a, b),
    ensures
        replay.ask(a, slot, now) == replay.ask(b, slot, now),
        replay.ask(a, slot, now).model.wf(),
        follows(replay.ask(a, slot, now).model, a),
{
    replay.model.lemma_acquire_wf(slot);
    lemma_follows_acquire(replay.model, a, slot);
    if replay.model.can_dispatch(slot) {
        let first = replay.model.pending[0];
        assert(first.commands.len() > 0);
        assert(first.commands == commands_of(a[first.id as int]));
        assert(same_step(a[first.id as int]@[0], b[first.id as int]@[0]));
    }
}

/// The end of a sub-command moves a replay in the same way under two
/// recorded runs that say the same.
proof fn lemma_advance_same(replay: Replay, a: Seq<Vec<Timed>>, b: Seq<Vec<Timed>>, slot: int)
    requires
        replay.model.wf(),
        follows(replay.model, a),
        same_script(a, b),
        replay.model.is_busy(slot),
    ensures
        replay.advance(a, slot) == replay.advance(b, slot),
        replay.advance(a, slot).model.wf(),
        follows(replay.advance(a, slot).model, a),
{
    let line = replay.model.line_of(slot).id as int;
    let index = replay.model.done_of(slot) as int;
    assert(replay.model.slots[slot]->line.commands == commands_of(a[line]));
    assert(index < a[line]@.len());
    assert(same_step(a[line]@[index], b[line]@[index]));
    let ended = a[line]@[index];
    let model = replay.model.complete(slot, texts(ended.lines@), ended.ok);
    replay.model.lemma_complete_wf(slot, texts(ended.lines@), ended.ok);
    lemma_follows_complete(replay.model, a, slot, texts(ended.lines@), ended.ok);
    if model.is_busy(slot) {
        assert(index + 1 < a[line]@.len());
        assert(same_step(a[line]@[index + 1], b[line]@[index + 1]));
    } else {
        lemma_ask_same(Replay { model, due: replay.due }, a, b, slot, replay.due[slot]);
    }
}

/// A replay comes to rest in the same state under two recorded runs that
/// say the same.
proof fn lemma_settle_same(replay: Replay, a: Seq<Vec<Timed>>, b: Seq<Vec<Timed>>)
    requires
        replay.model.wf(),
        follows(replay.model, a),
        same_script(a, b),
    ensures
        replay.settle(a) == replay.settle(b),
    decreases replay.model.work_left(),
{
    match replay.next() {
        None => {},
        Some(slot) => {
            replay.lemma_earliest_is_busy(replay.model.slots.len());
            replay.lemma_advance_is_progress(a, slot);
            lemma_advance_same(replay, a, b, slot);
            lemma_settle_same(replay.advance(a, slot), a, b);
        },
    }
}

/// The first `n` slots are given the same lines under two recorded runs
/// that say the same.
proof fn lemma_start_same(replay: Replay, a: Seq<Vec<Timed>>, b: Seq<Vec<Timed>>, n: nat)
    requires
        replay.model.wf(),
        follows(replay.model, a),
        same_script(a, b),
    ensures
        replay.start(a, n) == replay.start(b, n),
        replay.start(a, n).model.wf(),
        follows(replay.start(a, n).model, a),
    decreases n,
{
    if n > 0 {
        lemma_start_same(replay, a, b, (n - 1) as nat);
        lemma_ask_same(replay.start(a, (n - 1) as nat), a, b, n - 1, 0);
    }
}

/// Two recorded runs that say the same load a dispatcher in the same way.
proof fn lemma_loaded_same(
    a: Seq<Vec<Timed>>,
    b: Seq<Vec<Timed>>,
    n: nat,
    slots: nat,
    policy: TerminationType,
)
    requires
        same_script(a, b),
        n <= a.len(),
    ensures
        loaded(a, n, slots, policy) == loaded(b, n, slots, policy),
        loaded(a, n, slots, policy).wf(),
        follows(loaded(a, n, slots, policy), a),
        loaded(a, n, slots, policy).submitted == n,
        !loaded(a, n, slots, policy).closed,
    decreases n,
{
    if n > 0 {
        let before = loaded(a, (n - 1) as nat, slots, policy);
        let after = loaded(a, n, slots, policy);
        lemma_loaded_same(a, b, (n - 1) as nat, slots, policy);
        lemma_same_commands(a, b, n - 1);
        before.lemma_submit_wf(commands_of(a[n - 1]));
        assert forall|i: int| 0 <= i < after.pending.len() implies (#[trigger] after.pending[i]).id
            < a.len() && after.pending[i].commands == commands_of(
            a[after.pending[i].id as int],
        ) by {
            if i < before.pending.len() {
                assert(after.pending[i] == before.pending[i]);
            }
        }
        assert forall|s: int| after.is_busy(s) implies (#[trigger] after.slots[s])->line.id
            < a.len() && after.slots[s]->line.commands == commands_of(
            a[after.slots[s]->line.id as int],
        ) by {
            assert(before.is_busy(s));
        }
    } else {
        Model::lemma_initial_wf(slots, policy);
    }
}

/// A replay is reproducible: recorded runs that say the same, replayed on
/// pools of the same size under the same policy, write the same.
pub proof fn lemma_replay_is_reproducible(
    a: Seq<Vec<Timed>>,
    b: Seq<Vec<Timed>>,
    slots: nat,
    policy: TerminationType,
)
    requires
        same_script(a, b),
    ensures
        replay_output(a, slots, policy) == replay_output(b, slots, policy),
{
    lemma_loaded_same(a, b, a.len(), slots, policy);
    let start = Replay {
        model: loaded(a, a.len(), slots, policy).close(),
        due: Seq::new(slots, |s: int| 0u64),
    };
    lemma_start_same(start, a, b, slots);
    lemma_settle_same(start.start(a, slots), a, b);
}

} // verus!
