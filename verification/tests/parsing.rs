//! Reading and writing of policies, remote targets, arguments and lines.

use pars_core::text::{decimal_string, parse_numeral, same_text};
use pars_core::{
    dispatcher_args, input_record, split_line, Distribution, ParseHostError, ParsePolicyError,
    Place, RemoteHost, TerminationType,
};

#[test]
fn policy_names_are_read() {
    assert_eq!(TerminationType::from_str("never"), Ok(TerminationType::Never));
    assert_eq!(TerminationType::from_str("lazy"), Ok(TerminationType::Lazy));
    assert_eq!(TerminationType::from_str("eager"), Ok(TerminationType::Eager));
}

#[test]
fn other_text_is_no_policy() {
    assert_eq!(TerminationType::from_str("Eager"), Err(ParsePolicyError));
    assert_eq!(TerminationType::from_str("never "), Err(ParsePolicyError));
    assert_eq!(TerminationType::from_str(""), Err(ParsePolicyError));
}

#[test]
fn policy_is_read_back_from_its_name() {
    for policy in [TerminationType::Never, TerminationType::Lazy, TerminationType::Eager] {
        assert_eq!(TerminationType::from_str(policy.as_str()), Ok(policy));
    }
    assert_eq!(TerminationType::Eager.as_str(), "eager");
}

#[test]
fn default_policy_is_never() {
    assert_eq!(TerminationType::default(), TerminationType::Never);
}

#[test]
fn gates_follow_the_policy() {
    assert!(TerminationType::Never.may_dispatch(true));
    assert!(TerminationType::Never.may_continue(true));
    assert!(!TerminationType::Lazy.may_dispatch(true));
    assert!(TerminationType::Lazy.may_continue(true));
    assert!(!TerminationType::Eager.may_dispatch(true));
    assert!(!TerminationType::Eager.may_continue(true));
    assert!(TerminationType::Lazy.may_dispatch(false));
    assert!(TerminationType::Eager.may_dispatch(false));
    assert!(TerminationType::Eager.may_continue(false));
}

#[test]
fn host_is_read_from_its_text() {
    let host = RemoteHost::from_str("localhost:1234/4");
    assert_eq!(host, Ok(RemoteHost::new(String::from("localhost"), 1234, 4)));
    let host = RemoteHost::from_str("10.0.0.7:+22/016").unwrap();
    assert_eq!(host.addr, "10.0.0.7");
    assert_eq!(host.port, 22);
    assert_eq!(host.threads, 16);
}

#[test]
fn host_fields_end_at_either_break() {
    assert_eq!(
        RemoteHost::from_str("box/80:2:rest"),
        Ok(RemoteHost::new(String::from("box"), 80, 2))
    );
    assert_eq!(RemoteHost::from_str(":1/2"), Ok(RemoteHost::new(String::new(), 1, 2)));
}

#[test]
fn host_errors_name_the_field() {
    assert_eq!(RemoteHost::from_str("localhost"), Err(ParseHostError::MissingPort));
    assert_eq!(RemoteHost::from_str(""), Err(ParseHostError::MissingPort));
    assert_eq!(RemoteHost::from_str("localhost:"), Err(ParseHostError::InvalidPort));
    assert_eq!(RemoteHost::from_str("localhost:65536/1"), Err(ParseHostError::InvalidPort));
    assert_eq!(RemoteHost::from_str("localhost:-1/1"), Err(ParseHostError::InvalidPort));
    assert_eq!(RemoteHost::from_str("localhost:x"), Err(ParseHostError::InvalidPort));
    assert_eq!(RemoteHost::from_str("localhost:22"), Err(ParseHostError::MissingThreads));
    assert_eq!(RemoteHost::from_str("localhost:22/"), Err(ParseHostError::InvalidThreads));
    assert_eq!(RemoteHost::from_str("localhost:22/x"), Err(ParseHostError::InvalidThreads));
    assert_eq!(
        RemoteHost::from_str("localhost:22/4294967296"),
        Err(ParseHostError::InvalidThreads)
    );
}

#[test]
fn host_limits_are_accepted() {
    assert_eq!(
        RemoteHost::from_str("h:65535/4294967295"),
        Ok(RemoteHost::new(String::from("h"), 65535, 4294967295))
    );
    assert_eq!(RemoteHost::from_str("h:0/0"), Ok(RemoteHost::new(String::from("h"), 0, 0)));
}

#[test]
fn host_is_written_and_read_back() {
    let host = RemoteHost::new(String::from("localhost"), 1234, 4);
    assert_eq!(host.to_string(), "localhost:1234/4");
    assert_eq!(RemoteHost::from_str(&host.to_string()), Ok(host));
    assert_eq!(RemoteHost::new(String::from("a"), 0, 0).to_string(), "a:0/0");
}

#[test]
fn numerals_are_written_and_read() {
    assert_eq!(decimal_string(0), "0");
    assert_eq!(decimal_string(7), "7");
    assert_eq!(decimal_string(1234), "1234");
    assert_eq!(decimal_string(4294967295), "4294967295");
    let digits: Vec<char> = "x+042y".chars().collect();
    assert_eq!(parse_numeral(&digits, 1, 5, 100), Some(42));
    assert_eq!(parse_numeral(&digits, 2, 5, 41), None);
    assert_eq!(parse_numeral(&digits, 1, 2, 100), None);
    assert_eq!(parse_numeral(&digits, 0, 5, 100), None);
    assert_eq!(parse_numeral(&digits, 3, 3, 100), None);
}

#[test]
fn texts_are_compared_by_their_characters() {
    assert!(same_text("lazy", "lazy"));
    assert!(!same_text("lazy", "lazier"));
    assert!(!same_text("lazy", "laz"));
    assert!(!same_text("lazy", "hazy"));
    assert!(same_text("", ""));
}

#[test]
fn threads_are_counted_over_all_targets() {
    assert_eq!(Distribution::Local(3).num_threads(), 3);
    assert_eq!(Distribution::Local(0).num_threads(), 0);
    assert_eq!(Distribution::Remote(Vec::new()).num_threads(), 0);
    let remotes = Distribution::Remote(vec![
        RemoteHost::new(String::from("a"), 1, 1),
        RemoteHost::new(String::from("b"), 2, 4),
    ]);
    assert_eq!(remotes.num_threads(), 5);
    assert_eq!(remotes.checked_num_threads(), Some(5));
}

#[test]
fn too_many_threads_are_not_counted() {
    let remotes = Distribution::Remote(vec![
        RemoteHost::new(String::from("a"), 1, 4294967295),
        RemoteHost::new(String::from("b"), 2, 1),
    ]);
    assert_eq!(remotes.checked_num_threads(), None);
    let remotes = Distribution::Remote(vec![
        RemoteHost::new(String::from("a"), 1, 4294967294),
        RemoteHost::new(String::from("b"), 2, 1),
    ]);
    assert_eq!(remotes.checked_num_threads(), Some(4294967295));
}

#[test]
fn arguments_describe_pool_and_policy() {
    assert_eq!(dispatcher_args(&Distribution::Local(2), None), vec!["-J", "2"]);
    assert_eq!(
        dispatcher_args(&Distribution::Local(12), Some(TerminationType::Lazy)),
        vec!["-J", "12", "--halt", "lazy"]
    );
    let remotes = Distribution::Remote(vec![
        RemoteHost::new(String::from("localhost"), 1234, 1),
        RemoteHost::new(String::from("far"), 22, 4),
    ]);
    assert_eq!(
        dispatcher_args(&remotes, Some(TerminationType::Eager)),
        vec!["--remote", "localhost:1234/1", "--remote", "far:22/4", "--halt", "eager"]
    );
    assert_eq!(
        dispatcher_args(&Distribution::Remote(Vec::new()), Some(TerminationType::Never)),
        vec!["--halt", "never"]
    );
}

#[test]
fn input_record_ends_with_a_line_feed() {
    assert_eq!(input_record("echo 1; echo 2"), "echo 1; echo 2\n");
    assert_eq!(input_record(""), "\n");
}

#[test]
fn line_is_split_at_semicolons() {
    assert_eq!(split_line("echo 1; echo 2"), vec!["echo 1", " echo 2"]);
    assert_eq!(split_line("echo A; false; echo B"), vec!["echo A", " false", " echo B"]);
    assert_eq!(split_line("echo 3; true; echo 4;"), vec!["echo 3", " true", " echo 4"]);
    assert_eq!(split_line("true"), vec!["true"]);
}

#[test]
fn blank_pieces_are_no_sub_commands() {
    assert_eq!(split_line(""), Vec::<String>::new());
    assert_eq!(split_line("\r"), Vec::<String>::new());
    assert_eq!(split_line(" ; ;\t;"), Vec::<String>::new());
    assert_eq!(split_line(";;echo 1;;"), vec!["echo 1"]);
}

#[test]
fn quoted_semicolons_do_not_split() {
    assert_eq!(
        split_line("echo \"cheeky; echo semicolon\""),
        vec!["echo \"cheeky; echo semicolon\""]
    );
    assert_eq!(split_line("echo 'a;b'; echo c"), vec!["echo 'a;b'", " echo c"]);
    assert_eq!(split_line("echo \"can't; stop\"; true"), vec!["echo \"can't; stop\"", " true"]);
    assert_eq!(split_line("echo a\\; b; c"), vec!["echo a\\; b", " c"]);
    assert_eq!(split_line("echo \"a\\\";b\"; c"), vec!["echo \"a\\\";b\"", " c"]);
    assert_eq!(split_line("echo 'a\\'; b"), vec!["echo 'a\\'", " b"]);
}

#[test]
fn slots_are_placed_on_the_targets_in_order() {
    let local = Distribution::Local(2);
    assert_eq!(local.place_of(0), Some(Place::Local { thread: 0 }));
    assert_eq!(local.place_of(1), Some(Place::Local { thread: 1 }));
    assert_eq!(local.place_of(2), None);
    let remote = Distribution::Remote(vec![
        RemoteHost::new(String::from("a"), 1, 1),
        RemoteHost::new(String::from("b"), 2, 0),
        RemoteHost::new(String::from("c"), 3, 2),
    ]);
    assert_eq!(remote.place_of(0), Some(Place::Remote { host: 0, thread: 0 }));
    assert_eq!(remote.place_of(1), Some(Place::Remote { host: 2, thread: 0 }));
    assert_eq!(remote.place_of(2), Some(Place::Remote { host: 2, thread: 1 }));
    assert_eq!(remote.place_of(3), None);
    assert_eq!(Distribution::Remote(Vec::new()).place_of(0), None);
}
