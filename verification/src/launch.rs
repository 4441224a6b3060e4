//! What is handed to a dispatcher process: its arguments, and the records
//! written to its standard input.

use vstd::prelude::*;
use crate::distribution::Distribution;
use crate::host::{host_text, RemoteHost};
use crate::policy::TerminationType;
use crate::text::{decimal, decimal_string, texts};

verus! {

/// The arguments that name the remote targets `hosts`: for each of them, in
/// order, `--remote` and the target's text.
pub open spec fn remote_args(hosts: Seq<RemoteHost>) -> Seq<Seq<char>>
    decreases hosts.len(),
{
    if hosts.len() == 0 {
        Seq::empty()
    } else {
        remote_args(hosts.drop_last()).push("--remote"@).push(host_text(hosts.last()@))
    }
}

/// The arguments that describe the pool: `-J` and the thread count, or the
/// remote targets.
pub open spec fn pool_args(distribution: Distribution) -> Seq<Seq<char>> {
    match distribution {
        Distribution::Local(n) => seq!["-J"@, decimal(n as nat)],
        Distribution::Remote(hosts) => remote_args(hosts@),
    }
}

/// The arguments that choose the halt policy: `--halt` and the policy's
/// name, or nothing where the default is left in force.
pub open spec fn halt_args(term_type: Option<TerminationType>) -> Seq<Seq<char>> {
    match term_type {
        Some(policy) => seq!["--halt"@, policy.name()],
        None => Seq::empty(),
    }
}

/// The arguments of a dispatcher that is to run with the given pool and
/// halt policy: first the pool, then the policy.
pub fn dispatcher_args(distribution: &Distribution, term_type: Option<TerminationType>) -> (out:
    Vec<String>)
    ensures
        texts(out@) == pool_args(*distribution) + halt_args(term_type),
{
    let mut out: Vec<String> = Vec::new();
    match distribution {
        Distribution::Local(n) => {
            out.push("-J".to_owned());
            out.push(decimal_string(*n));
            assert(texts(out@) == pool_args(*distribution));
        },
        Distribution::Remote(hosts) => {
            let mut i: usize = 0;
            assert(texts(out@) == remote_args(hosts@.take(0)));
            while i < hosts.len()
                invariant
                    i <= hosts.len(),
                    texts(out@) == remote_args(hosts@.take(i as int)),
                decreases hosts.len() - i,
            {
                let ghost before = out@;
                out.push("--remote".to_owned());
                out.push(hosts[i].to_string());
                assert(texts(out@) == texts(before).push("--remote"@).push(
                    host_text(hosts@[i as int]@),
                ));
                assert(hosts@.take(i + 1).drop_last() == hosts@.take(i as int));
                i += 1;
            }
            assert(hosts@.take(hosts.len() as int) == hosts@);
        },
    }
    let ghost pool = out@;
    match term_type {
        Some(policy) => {
            out.push("--halt".to_owned());
            out.push(policy.as_str().to_owned());
            assert(texts(out@) == texts(pool) + halt_args(term_type));
        },
        None => {
            assert(texts(out@) == texts(pool) + halt_args(term_type));
        },
    }
    out
}

/// The record that submits `command` to a dispatcher: the command and a
/// line feed.
pub fn input_record(command: &str) -> (out: String)
    ensures
        out@ == command@.push('\n'),
{
    let mut out = command.to_owned();
    out.push('\n');
    out
}

} // verus!
