//! The halt policy: what a failed sub-command means for the rest of the run.

use vstd::prelude::*;
use crate::text::same_text;

verus! {

/// What the dispatcher does once any sub-command has failed.
#[derive(Clone, Copy, Debug, PartialEq, Eq, Structural)]
pub enum TerminationType {
    /// A failure changes nothing outside its own line.
    Never,
    /// After a failure no further line is dispatched; lines that are already
    /// running run on to their own end.
    Lazy,
    /// After a failure no further line is dispatched and no running line
    /// starts another sub-command.
    Eager,
}

/// The text given was not the name of a halt policy.
#[derive(Clone, Copy, Debug, PartialEq, Eq, Structural)]
pub struct ParsePolicyError;

/// The policy that the text `s` names, if it names one.
pub open spec fn policy_named(s: Seq<char>) -> Option<TerminationType> {
    if s == "never"@ {
        Some(TerminationType::Never)
    } else if s == "lazy"@ {
        Some(TerminationType::Lazy)
    } else if s == "eager"@ {
        Some(TerminationType::Eager)
    } else {
        None
    }
}

impl TerminationType {
    /// The name of the policy, as it is written on a command line.
    pub open spec fn name(self) -> Seq<char> {
        match self {
            TerminationType::Never => "never"@,
            TerminationType::Lazy => "lazy"@,
            TerminationType::Eager => "eager"@,
        }
    }

    /// Whether a pending line may be bound to an idle slot, given whether a
    /// failure has been observed.
    pub open spec fn dispatch_open(self, failed: bool) -> bool {
        self == TerminationType::Never || !failed
    }

    /// Whether a running line may start its next sub-command, given whether
    /// a failure has been observed.
    pub open spec fn continue_open(self, failed: bool) -> bool {
        self != TerminationType::Eager || !failed
    }

    /// Reads a policy from its name: `never`, `lazy` or `eager`.
    pub fn from_str(s: &str) -> (out: Result<TerminationType, ParsePolicyError>)
        ensures
            out == match policy_named(s@) {
                Some(p) => Ok::<TerminationType, ParsePolicyError>(p),
                None => Err(ParsePolicyError),
            },
    {
        if same_text(s, "never") {
            Ok(TerminationType::Never)
        } else if same_text(s, "lazy") {
            Ok(TerminationType::Lazy)
        } else if same_text(s, "eager") {
            Ok(TerminationType::Eager)
        } else {
            Err(ParsePolicyError)
        }
    }

    /// The name of the policy.
    pub fn as_str(&self) -> (out: &'static str)
        ensures
            out@ == self.name(),
    {
        match self {
            TerminationType::Never => "never",
            TerminationType::Lazy => "lazy",
            TerminationType::Eager => "eager",
        }
    }

    /// The dispatch-time gate: whether the next pending line may be handed
    /// to an idle slot.
    pub fn may_dispatch(&self, failed: bool) -> (open: bool)
        ensures
            open == self.dispatch_open(failed),
    {
        match self {
            TerminationType::Never => true,
            _ => !failed,
        }
    }

    /// The continuation-time gate: whether a running line may start its
    /// next sub-command.
    pub fn may_continue(&self, failed: bool) -> (open: bool)
        ensures
            open == self.continue_open(failed),
    {
        match self {
            TerminationType::Eager => !failed,
            _ => true,
        }
    }
}

impl Default for TerminationType {
    /// The policy in force where none is chosen.
    fn default() -> (out: TerminationType)
        ensures
            out == TerminationType::Never,
    {
        TerminationType::Never
    }
}

/// Every policy is read back from its own name.
pub proof fn lemma_policy_name_round_trip(p: TerminationType)
    ensures
        policy_named(p.name()) == Some(p),
{
    reveal_strlit("never");
    reveal_strlit("lazy");
    reveal_strlit("eager");
    assert("lazy"@.len() != "never"@.len());
    assert("eager"@[0] != "never"@[0]);
}

/// Under `Never` both gates stay open whatever has failed, and under `Lazy`
/// the continuation gate does.
pub proof fn lemma_gates(failed: bool)
    ensures
        TerminationType::Never.dispatch_open(failed),
        TerminationType::Never.continue_open(failed),
        TerminationType::Lazy.continue_open(failed),
        TerminationType::Lazy.dispatch_open(failed) == !failed,
        TerminationType::Eager.dispatch_open(failed) == !failed,
        TerminationType::Eager.continue_open(failed) == !failed,
{
}

} // verus!
