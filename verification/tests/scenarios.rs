//! Runs of a dispatcher on a virtual clock: each scenario gives the input
//! lines, the pool and the halt policy, and the lines that must be written.

use pars_core::{replay, split_line, Distribution, RemoteHost, TerminationType, Timed};

const REMOTE_PORT: u16 = 1234;

/// What a shell does with one sub-command, as far as these scenarios need
/// it: the lines it prints, whether it succeeds and how long it takes.
fn shell(command: &str) -> Timed {
    let words = match pars_libs::parse_line(command) {
        Some(mut commands) if !commands.is_empty() => commands.remove(0),
        _ => Vec::new(),
    };
    let name = words.first().map(|word| word.as_str()).unwrap_or("");
    let (lines, ok, millis) = match name {
        "echo" => (vec![words[1..].join(" ")], true, 1),
        "sleep" => {
            let seconds: f64 = words[1].parse().unwrap();
            (Vec::new(), true, (seconds * 1000.0) as u64)
        }
        "true" | "cat" => (Vec::new(), true, 1),
        _ => (Vec::new(), false, 1),
    };
    Timed { command: command.to_string(), lines, ok, millis }
}

/// The output of a dispatcher that is given `commands` on its input.
fn run(
    distribution: Distribution,
    term_type: Option<TerminationType>,
    commands: Vec<&str>,
) -> Vec<String> {
    let script: Vec<Vec<Timed>> = commands
        .iter()
        .map(|line| split_line(line).iter().map(|command| shell(command)).collect())
        .collect();
    let slots = distribution.checked_num_threads().unwrap() as usize;
    replay(&script, slots, term_type.unwrap_or_default())
}

#[test]
fn test_simple_output() {
    let output = run(
        Distribution::Local(1),
        None,
        vec!["echo \"hello world\"", "echo foo", "echo bar", "\r"],
    );
    let expected = vec!["hello world", "foo", "bar"];
    assert_eq!(output, expected);
}

#[test]
fn test_simple_no_output() {
    let output = run(
        Distribution::Local(1),
        None,
        vec!["true"],
    );
    let expected: Vec<&str> = vec![];
    assert_eq!(output, expected);
}

#[test]
fn test_some_output() {
    let output = run(
        Distribution::Local(1),
        None,
        vec![
            "true",
            "echo 1",
            "true",
            "echo 2",
            "true",
            "echo 3",
            "true",
            "echo 4",
            "true",
            "echo 5",
            "true",
            "\r",
        ],
    );
    let expected = vec!["1", "2", "3", "4", "5"];
    assert_eq!(output, expected);
}

#[test]
fn test_with_error_line() {
    let output = run(
        Distribution::Local(1),
        None,
        vec![
            "echo \"hello\"; echo \"world\"",
            "echo \"you can see this\"; /bin/false; echo \"can't see this\"",
            "echo \"cheeky; echo semicolon\"",
            "\r",
        ],
    );
    let expected = vec!["hello", "world", "you can see this", "cheeky; echo semicolon"];
    assert_eq!(output, expected);
}

#[test]
fn test_multiple_commands() {
    let output = run(
        Distribution::Local(1),
        None,
        vec!["echo 1; echo 2", "echo 3; true; echo 4;", "echo 5; true", "\r"],
    );
    let expected = vec!["1", "2", "3", "4", "5"];
    assert_eq!(output, expected);
}

#[test]
fn test_empty_file() {
    let output = run(
        Distribution::Local(1),
        None,
        vec!["cat << EOF"],
    );
    let expected: Vec<&str> = vec![];
    assert_eq!(output, expected);
}

/// commands should only run one a time and in serial
#[test]
fn test_commands_ordering() {
    let output = run(
        Distribution::Local(1),
        None,
        vec!["sleep 1; echo 1", "echo 2", "echo 3", "echo 4", "echo 5", "\r"],
    );
    let expected = vec!["1", "2", "3", "4", "5"];
    assert_eq!(output, expected);
}

/// test never termination control (default)
#[test]
fn test_never_termination() {
    let output = run(
        Distribution::Local(1),
        None,
        vec!["echo 1; false; echo 1", "echo 2; echo 3; echo 4; echo 5", "\r"],
    );
    let expected = vec!["1", "2", "3", "4", "5"];
    assert_eq!(output, expected);
}

#[test]
fn test_simple_2_threads() {
    let output = run(
        Distribution::Local(2),
        None,
        vec!["echo hello", "sleep 1", "echo world", "\r"],
    );
    let expected = vec!["hello", "world"];
    assert_eq!(output, expected);
}

#[test]
fn test_completion_order_2_threads() {
    let output = run(
        Distribution::Local(2),
        None,
        vec!["sleep 1; echo hello", "echo world", "\r"],
    );
    let expected = vec!["world", "hello"];
    assert_eq!(output, expected);
}

#[test]
fn test_multiple_commands_at_once() {
    let output = run(
        Distribution::Local(2),
        None,
        vec!["echo 1;", "sleep 1; echo 5", "echo 2;", "echo 3;", "echo 4;", "\r"],
    );
    let expected = vec!["1", "2", "3", "4", "5"];
    assert_eq!(output, expected);
}

/// output of a line should be buffered
#[test]
fn test_output_line_buffering() {
    let output = run(
        Distribution::Local(2),
        None,
        vec!["echo 3; sleep 2; echo 4; echo 5", "echo 1; echo 2", "\r"],
    );
    let expected = vec!["1", "2", "3", "4", "5"];
    assert_eq!(output, expected);
}

/// never mode: existing lines should finish, new lines should run
#[test]
fn test_test_never_termination() {
    let output = run(
        Distribution::Local(2),
        None,
        vec!["sleep 1; echo 4; echo 5", "echo 1; false; echo 1", "echo 2; echo 3", "\r"],
    );
    let expected = vec!["1", "2", "3", "4", "5"];
    assert_eq!(output, expected);
}

/// job limit / thread number should be respected
#[test]
fn test_number_of_threads() {
    let output = run(
        Distribution::Local(4),
        None,
        vec![
            "sleep 1; echo 1",
            "sleep 1.5; echo 3",
            "sleep 2; echo 4",
            "sleep 2.5; echo 5",
            "echo 2;",
            "\r",
        ],
    );
    let expected = vec!["1", "2", "3", "4", "5"];
    assert_eq!(output, expected);
}

/// lazy mode: existing lines should finish, new lines should not start
#[test]
fn test_lazy_mode_1() {
    let output = run(
        Distribution::Local(2),
        Some(TerminationType::Lazy),
        vec!["sleep 1; echo 4; echo 5", "echo 1; echo 2; echo 3", "false", "echo 1", "\r"],
    );
    let expected = vec!["1", "2", "3", "4", "5"];
    assert_eq!(output, expected);
}

/// lazy mode: the current line should finish
#[test]
fn test_lazy_mode_2() {
    let output = run(
        Distribution::Local(2),
        Some(TerminationType::Lazy),
        vec![
            "sleep 1; echo 4; echo 5",
            "echo 1; echo 2; echo 3; false; echo 6; echo 7",
            "echo 1",
            "\r",
        ],
    );
    let expected = vec!["1", "2", "3", "4", "5"];
    assert_eq!(output, expected);
}

/// eager mode: existing commands can finish, no new commands on any line
/// all lines will halt as soon as the current command finishes
#[test]
fn test_eager_mode() {
    let output = run(
        Distribution::Local(2),
        Some(TerminationType::Eager),
        vec![
            "echo 5; sleep 1; echo 2",
            "echo 1; echo 2; echo 3; echo 4; false; echo 5",
            "echo 5",
            "\r",
        ],
    );
    let expected = vec!["1", "2", "3", "4", "5"];
    assert_eq!(output, expected);
}

/// never mode: existing lines should finish, new lines should run
/// given with explicit command line argument
#[test]
fn never_mode() {
    let output = run(
        Distribution::Local(2),
        Some(TerminationType::Never),
        vec!["sleep 1; echo 4; echo 5", "echo 1; false; echo 1", "echo 2; echo 3", "\r"],
    );
    let expected = vec!["1", "2", "3", "4", "5"];
    assert_eq!(output, expected);
}

#[test]
fn test_simple_connection_one_command() {
    let output = run(
        Distribution::Remote(vec![RemoteHost::new(String::from("localhost"), REMOTE_PORT, 1)]),
        None,
        vec!["echo 1; echo 2; echo 3", "\r"],
    );
    let expected = vec!["1", "2", "3"];
    assert_eq!(output, expected);
}

#[test]
fn test_simple_connection_serveral_lines() {
    let output = run(
        Distribution::Remote(vec![RemoteHost::new(String::from("localhost"), REMOTE_PORT, 1)]),
        None,
        vec!["echo 1; echo 2; echo 3", "echo 4; echo 5", "\r"],
    );
    let expected = vec!["1", "2", "3", "4", "5"];
    assert_eq!(output, expected);
}

#[test]
fn test_halt_never_implicit() {
    let output = run(
        Distribution::Remote(vec![RemoteHost::new(String::from("localhost"), REMOTE_PORT, 1)]),
        None,
        vec![
            "echo 1; echo 2; echo 3; false; echo foo",
            "false; echo bar",
            "echo 4; echo 5",
            "\r",
        ],
    );
    let expected = vec!["1", "2", "3", "4", "5"];
    assert_eq!(output, expected);
}

#[test]
fn test_halt_never_explicit() {
    let output = run(
        Distribution::Remote(vec![RemoteHost::new(String::from("localhost"), REMOTE_PORT, 1)]),
        None,
        vec![
            "echo 1; echo 2; echo 3; false; echo foo",
            "false; echo bar",
            "echo 4; echo 5",
            "\r",
        ],
    );
    let expected = vec!["1", "2", "3", "4", "5"];
    assert_eq!(output, expected);
}

#[test]
fn test_halt_lazy() {
    let output = run(
        Distribution::Remote(vec![RemoteHost::new(String::from("localhost"), REMOTE_PORT, 1)]),
        Some(TerminationType::Lazy),
        vec![
            "echo 1; echo 2; echo 3; false; echo foo",
            "false; echo bar",
            "echo 4; echo 5",
            "\r",
        ],
    );
    let expected = vec!["1", "2", "3"];
    assert_eq!(output, expected);
}

/// As this is singled threaded, this should behave the same as halt lazy
#[test]
fn test_halt_eager() {
    let output = run(
        Distribution::Remote(vec![RemoteHost::new(String::from("localhost"), REMOTE_PORT, 1)]),
        Some(TerminationType::Eager),
        vec!["echo 1; echo 2; echo 3; false; echo foo", "false; echo bar", "\r"],
    );
    let expected = vec!["1", "2", "3"];
    assert_eq!(output, expected);
}

#[test]
fn test_test_simple_2_threads() {
    let output = run(
        Distribution::Remote(vec![RemoteHost::new(String::from("localhost"), REMOTE_PORT, 2)]),
        None,
        vec!["echo 4; echo 5; sleep 1", "echo 1; echo 2; echo 3", "\r"],
    );
    let expected = vec!["1", "2", "3", "4", "5"];
    assert_eq!(output, expected);
}

#[test]
fn test_simple_3_threads() {
    let output = run(
        Distribution::Remote(vec![RemoteHost::new(String::from("localhost"), REMOTE_PORT, 3)]),
        None,
        vec!["echo 5; sleep 2", "echo 4; sleep 1", "echo 1; echo 2; echo 3", "\r"],
    );
    let expected = vec!["1", "2", "3", "4", "5"];
    assert_eq!(output, expected);
}

#[test]
fn test_multiple_threads_never() {
    let output = run(
        Distribution::Remote(vec![RemoteHost::new(String::from("localhost"), REMOTE_PORT, 3)]),
        Some(TerminationType::Never),
        vec![
            "echo 4; sleep 1; false; echo foo",
            "false",
            "echo 1; echo 2; echo 3;",
            "echo 5; sleep 1",
            "\r",
        ],
    );
    let expected = vec!["1", "2", "3", "4", "5"];
    assert_eq!(output, expected);
}

#[test]
fn test_multiple_threads_lazy() {
    let output = run(
        Distribution::Remote(vec![RemoteHost::new(String::from("localhost"), REMOTE_PORT, 2)]),
        Some(TerminationType::Lazy),
        vec!["echo 4; echo 5; sleep 1", "echo 1; echo 2; echo 3; false", "echo foobar", "\r"],
    );
    let expected = vec!["1", "2", "3", "4", "5"];
    assert_eq!(output, expected);
}

#[test]
fn test_multiple_threads_eager() {
    let output = run(
        Distribution::Remote(vec![RemoteHost::new(String::from("localhost"), REMOTE_PORT, 2)]),
        Some(TerminationType::Eager),
        vec!["echo 4; echo 5; sleep 1; echo hidden", "echo 1; echo 2; echo 3; false", "\r"],
    );
    let expected = vec!["1", "2", "3", "4", "5"];
    assert_eq!(output, expected);
}

#[test]
fn test_simple_2_remotes() {
    let output = run(
        Distribution::Remote(
            vec![
                RemoteHost::new(String::from("localhost"), REMOTE_PORT, 1),
                RemoteHost::new(String::from("localhost"), REMOTE_PORT, 1),
            ],
        ),
        None,
        vec!["echo 4; echo 5; sleep 2", "echo 1; echo 2; echo 3", "\r"],
    );
    let expected = vec!["1", "2", "3", "4", "5"];
    assert_eq!(output, expected);
}

#[test]
fn test_remotes_with_errors() {
    let output = run(
        Distribution::Remote(
            vec![
                RemoteHost::new(String::from("localhost"), REMOTE_PORT, 1),
                RemoteHost::new(String::from("localhost"), REMOTE_PORT, 1),
            ],
        ),
        None,
        vec![
            "echo 4; sleep 1.5",
            "echo 1; echo 2; echo 3; false; echo foo",
            "echo 5; sleep 3",
            "\r",
        ],
    );
    let expected = vec!["1", "2", "3", "4", "5"];
    assert_eq!(output, expected);
}

#[test]
fn test_test_multiple_threads_never() {
    let output = run(
        Distribution::Remote(
            vec![
                RemoteHost::new(String::from("localhost"), REMOTE_PORT, 1),
                RemoteHost::new(String::from("localhost"), REMOTE_PORT, 1),
            ],
        ),
        Some(TerminationType::Never),
        vec![
            "echo 4; sleep 1; false; echo foo",
            "false",
            "sleep 0.5; echo 1; echo 2; echo 3;",
            "echo 5; sleep 3",
            "\r",
        ],
    );
    let expected = vec!["1", "2", "3", "4", "5"];
    assert_eq!(output, expected);
}

#[test]
fn test_test_multiple_threads_lazy() {
    let output = run(
        Distribution::Remote(
            vec![
                RemoteHost::new(String::from("localhost"), REMOTE_PORT, 1),
                RemoteHost::new(String::from("localhost"), REMOTE_PORT, 1),
            ],
        ),
        Some(TerminationType::Lazy),
        vec![
            "echo 4; echo 5; sleep 2",
            "sleep 1; echo 1; echo 2; echo 3; false",
            "echo foobar",
            "\r",
        ],
    );
    let expected = vec!["1", "2", "3", "4", "5"];
    assert_eq!(output, expected);
}

#[test]
fn test_test_multiple_threads_eager() {
    let output = run(
        Distribution::Remote(
            vec![
                RemoteHost::new(String::from("localhost"), REMOTE_PORT, 1),
                RemoteHost::new(String::from("localhost"), REMOTE_PORT, 1),
            ],
        ),
        Some(TerminationType::Eager),
        vec![
            "echo 4; echo 5; sleep 2; echo hidden",
            "sleep 1; echo 1; echo 2; echo 3; false",
            "\r",
        ],
    );
    let expected = vec!["1", "2", "3", "4", "5"];
    assert_eq!(output, expected);
}

#[test]
fn test_load_balance_1() {
    let output = run(
        Distribution::Remote(
            vec![
                RemoteHost::new(String::from("localhost"), REMOTE_PORT, 1),
                RemoteHost::new(String::from("localhost"), REMOTE_PORT, 4),
            ],
        ),
        Some(TerminationType::Eager),
        vec![
            "echo 2; sleep 1",
            "echo 3; sleep 2",
            "echo 4; sleep 3",
            "echo 5; sleep 4",
            "echo 1",
            "\r",
        ],
    );
    let expected = vec!["1", "2", "3", "4", "5"];
    assert_eq!(output, expected);
}

/// Two targets of two and three threads make a pool of five: five lines
/// run side by side and are written as they end.
#[test]
fn test_load_balance_2() {
    let output = run(
        Distribution::Remote(
            vec![
                RemoteHost::new(String::from("localhost"), REMOTE_PORT, 2),
                RemoteHost::new(String::from("localhost"), REMOTE_PORT, 3),
            ],
        ),
        None,
        vec![
            "sleep 4; echo 5",
            "sleep 3; echo 4",
            "sleep 2; echo 3",
            "sleep 1; echo 2",
            "echo 1",
            "\r",
        ],
    );
    let expected = vec!["1", "2", "3", "4", "5"];
    assert_eq!(output, expected);
}

/// With more lines than slots, the line that waits goes to the slot that
/// is free first, whichever target that slot belongs to.
#[test]
fn test_load_balance_3() {
    let output = run(
        Distribution::Remote(
            vec![
                RemoteHost::new(String::from("localhost"), REMOTE_PORT, 1),
                RemoteHost::new(String::from("localhost"), REMOTE_PORT, 2),
            ],
        ),
        None,
        vec!["sleep 3; echo 4", "sleep 1; echo 1", "sleep 2; echo 3", "echo 2", "\r"],
    );
    let expected = vec!["1", "2", "3", "4"];
    assert_eq!(output, expected);
}
