//! Replays of recorded runs: what is written, and in which order.

use pars_core::{replay, Distribution, RemoteHost, TerminationType, Timed};

fn step(prints: &str, ok: bool, millis: u64) -> Timed {
    let lines = if prints.is_empty() { Vec::new() } else { vec![prints.to_string()] };
    Timed { command: format!("step {prints}"), lines, ok, millis }
}

fn script() -> Vec<Vec<Timed>> {
    vec![
        vec![step("a1", true, 30), step("a2", true, 30)],
        vec![step("b1", true, 10), step("", false, 10), step("b3", true, 10)],
        vec![],
        vec![step("c1", true, 5), step("c2", true, 50)],
        vec![step("d1", true, 1)],
    ]
}

#[test]
fn one_slot_writes_in_the_order_of_submission() {
    let output = replay(&script(), 1, TerminationType::Never);
    assert_eq!(output, vec!["a1", "a2", "b1", "c1", "c2", "d1"]);
}

#[test]
fn one_slot_stops_after_the_failing_line_under_lazy_and_eager() {
    assert_eq!(replay(&script(), 1, TerminationType::Lazy), vec!["a1", "a2", "b1"]);
    assert_eq!(replay(&script(), 1, TerminationType::Eager), vec!["a1", "a2", "b1"]);
}

#[test]
fn two_slots_write_in_the_order_of_completion() {
    let output = replay(&script(), 2, TerminationType::Never);
    assert_eq!(output, vec!["b1", "a1", "a2", "d1", "c1", "c2"]);
}

#[test]
fn lazy_lets_the_running_line_finish() {
    let output = replay(&script(), 2, TerminationType::Lazy);
    assert_eq!(output, vec!["b1", "a1", "a2"]);
}

#[test]
fn eager_halts_the_running_line() {
    let output = replay(&script(), 2, TerminationType::Eager);
    assert_eq!(output, vec!["b1", "a1"]);
}

#[test]
fn no_slot_writes_nothing() {
    assert_eq!(replay(&script(), 0, TerminationType::Never), Vec::<String>::new());
}

#[test]
fn empty_script_writes_nothing() {
    assert_eq!(replay(&Vec::new(), 4, TerminationType::Never), Vec::<String>::new());
}

#[test]
fn more_slots_than_lines_run_every_line_at_once() {
    let output = replay(&script(), 8, TerminationType::Never);
    assert_eq!(output, vec!["d1", "b1", "c1", "c2", "a1", "a2"]);
}

#[test]
fn lowest_slot_is_reported_first_among_equal_times() {
    let script = vec![vec![step("x", true, 10)], vec![step("y", true, 10)]];
    assert_eq!(replay(&script, 2, TerminationType::Never), vec!["x", "y"]);
}

#[test]
fn clock_stops_at_its_greatest_value() {
    let script = vec![
        vec![step("x", true, u64::MAX), step("y", true, 5)],
        vec![step("z", true, u64::MAX - 1), step("w", true, 7)],
    ];
    assert_eq!(replay(&script, 2, TerminationType::Never), vec!["x", "y", "z", "w"]);
}

#[test]
fn replay_is_reproducible() {
    for policy in [TerminationType::Never, TerminationType::Lazy, TerminationType::Eager] {
        for slots in 0..4 {
            assert_eq!(replay(&script(), slots, policy), replay(&script(), slots, policy));
        }
    }
}

#[test]
fn pool_of_the_same_size_writes_the_same() {
    let local = Distribution::Local(5);
    let mixed = Distribution::Remote(vec![
        RemoteHost::new(String::from("near"), 1234, 1),
        RemoteHost::new(String::from("far"), 1234, 4),
    ]);
    assert_eq!(local.num_threads(), mixed.num_threads());
    for policy in [TerminationType::Never, TerminationType::Lazy, TerminationType::Eager] {
        assert_eq!(
            replay(&script(), local.num_threads() as usize, policy),
            replay(&script(), mixed.num_threads() as usize, policy)
        );
    }
}
