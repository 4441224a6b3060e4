//! How the work is spread: over local threads, or over remote targets.

use vstd::prelude::*;
use crate::host::RemoteHost;

verus! {

/// Where the slots of the pool come from.
#[derive(Debug, PartialEq)]
pub enum Distribution {
    /// That many threads on this machine.
    Local(u32),
    /// The remote targets, each with its own number of threads.
    Remote(Vec<RemoteHost>),
}

/// Where a slot of the pool runs its sub-commands.
#[derive(Clone, Copy, Debug, PartialEq, Eq, Structural)]
pub enum Place {
    /// On this machine, as its thread number `thread`.
    Local { thread: u32 },
    /// On the remote target number `host`, as its thread number `thread`.
    Remote { host: usize, thread: u32 },
}

/// The place of the slot numbered `slot` among the slots of the targets
/// from number `from` on: the targets take the slots in their order, each
/// as many as it declares threads.
pub open spec fn remote_place(hosts: Seq<RemoteHost>, from: int, slot: nat) -> Option<Place>
    decreases hosts.len() - from,
{
    if from < 0 || from >= hosts.len() {
        None
    } else if slot < hosts[from].threads {
        Some(Place::Remote { host: from as usize, thread: slot as u32 })
    } else {
        remote_place(hosts, from + 1, (slot - hosts[from].threads) as nat)
    }
}

/// The threads that the remote targets `hosts` declare, all together.
pub open spec fn total_threads(hosts: Seq<RemoteHost>) -> nat
    decreases hosts.len(),
{
    if hosts.len() == 0 {
        0
    } else {
        total_threads(hosts.drop_last()) + hosts.last().threads as nat
    }
}

/// The first `k` targets declare no more threads than all of them.
pub proof fn lemma_total_threads_prefix(hosts: Seq<RemoteHost>, k: int)
    requires
        0 <= k <= hosts.len(),
    ensures
        total_threads(hosts.take(k)) <= total_threads(hosts),
    decreases hosts.len(),
{
    if k == hosts.len() {
        assert(hosts.take(k) == hosts);
    } else {
        assert(hosts.drop_last().take(k) == hosts.take(k));
        lemma_total_threads_prefix(hosts.drop_last(), k);
    }
}

impl Distribution {
    /// The size of the pool: the number of slots, each of which runs one
    /// line at a time.
    pub open spec fn pool_size(self) -> nat {
        match self {
            Distribution::Local(n) => n as nat,
            Distribution::Remote(hosts) => total_threads(hosts@),
        }
    }

    /// The place of the slot numbered `slot`, or `None` where the pool has no
    /// such slot.
    pub open spec fn place(self, slot: nat) -> Option<Place> {
        match self {
            Distribution::Local(n) => if slot < n {
                Some(Place::Local { thread: slot as u32 })
            } else {
                None
            },
            Distribution::Remote(hosts) => remote_place(hosts@, 0, slot),
        }
    }

    /// Where the slot numbered `slot` runs its sub-commands, or `None`
    /// where the pool has no such slot.
    pub fn place_of(&self, slot: usize) -> (out: Option<Place>)
        ensures
            out == self.place(slot as nat),
    {
        match self {
            Distribution::Local(n) => {
                if slot < *n as usize {
                    Some(Place::Local { thread: slot as u32 })
                } else {
                    None
                }
            },
            Distribution::Remote(hosts) => {
                let mut rest: usize = slot;
                let mut host: usize = 0;
                while host < hosts.len()
                    invariant
                        host <= hosts.len(),
                        self.place(slot as nat) == remote_place(hosts@, host as int, rest as nat),
                    decreases hosts.len() - host,
                {
                    let threads: u32 = hosts[host].threads;
                    if rest < threads as usize {
                        return Some(Place::Remote { host, thread: rest as u32 });
                    }
                    rest = rest - threads as usize;
                    host += 1;
                }
                None
            },
        }
    }

    /// The total number of threads that the work is distributed across, or
    /// `None` where that number does not fit in 32 bits.
    pub fn checked_num_threads(&self) -> (out: Option<u32>)
        ensures
            out == if self.pool_size() <= u32::MAX {
                Some(self.pool_size() as u32)
            } else {
                None
            },
    {
        match self {
            Distribution::Local(n) => Some(*n),
            Distribution::Remote(hosts) => {
                let mut sum: u32 = 0;
                let mut i: usize = 0;
                while i < hosts.len()
                    invariant
                        i <= hosts.len(),
                        self.pool_size() == total_threads(hosts@),
                        sum == total_threads(hosts@.take(i as int)),
                    decreases hosts.len() - i,
                {
                    assert(hosts@.take(i + 1).drop_last() == hosts@.take(i as int));
                    match sum.checked_add(hosts[i].threads) {
                        Some(more) => {
                            sum = more;
                        },
                        None => {
                            proof {
                                lemma_total_threads_prefix(hosts@, i + 1);
                            }
                            return None;
                        },
                    }
                    i += 1;
                }
                assert(hosts@.take(hosts.len() as int) == hosts@);
                Some(sum)
            },
        }
    }

    /// The total number of threads that the work is distributed across.
    pub fn num_threads(&self) -> (out: u32)
        requires
            self.pool_size() <= u32::MAX,
        ensures
            out == self.pool_size(),
    {
        match self.checked_num_threads() {
            Some(n) => n,
            None => 0,
        }
    }
}

/// The threads of some targets are those of the first and those of the
/// rest.
pub proof fn lemma_total_threads_first(hosts: Seq<RemoteHost>)
    requires
        hosts.len() > 0,
    ensures
        total_threads(hosts) == hosts[0].threads + total_threads(hosts.drop_first()),
    decreases hosts.len(),
{
    if hosts.len() == 1 {
        assert(hosts.drop_last() == Seq::<RemoteHost>::empty());
        assert(hosts.drop_first() == Seq::<RemoteHost>::empty());
    } else {
        assert(hosts.drop_first().drop_last() == hosts.drop_last().drop_first());
        lemma_total_threads_first(hosts.drop_last());
    }
}

/// Among the targets from number `from` on, exactly the slots below the
/// total of their threads have a place.
pub proof fn lemma_remote_place(hosts: Seq<RemoteHost>, from: int, slot: nat)
    requires
        0 <= from <= hosts.len() <= usize::MAX,
    ensures
        remote_place(hosts, from, slot) is Some <==> slot < total_threads(hosts.skip(from)),
        remote_place(hosts, from, slot) matches Some(place) ==> {
            &&& place is Remote
            &&& from <= place->host < hosts.len()
            &&& place->Remote_thread < hosts[place->host as int].threads
        },
    decreases hosts.len() - from,
{
    if from < hosts.len() {
        lemma_total_threads_first(hosts.skip(from));
        assert(hosts.skip(from).drop_first() == hosts.skip(from + 1));
        if slot >= hosts[from].threads {
            lemma_remote_place(hosts, from + 1, (slot - hosts[from].threads) as nat);
        }
    } else {
        assert(hosts.skip(from) == Seq::<RemoteHost>::empty());
    }
}

/// The pool has exactly the slots numbered below its size.
pub proof fn lemma_place_within_pool(distribution: Distribution, slot: nat)
    ensures
        distribution.place(slot) is Some <==> slot < distribution.pool_size(),
{
    match distribution {
        Distribution::Local(n) => {},
        Distribution::Remote(hosts) => {
            assert(hosts@.len() == hosts.len());
            lemma_remote_place(hosts@, 0, slot);
            assert(hosts@.skip(0) == hosts@);
        },
    }
}

} // verus!
