//! Live objects per client, under a cap.
//!
//! Every object that a client makes the compositor hold is claimed before its
//! creation is delegated and forgotten when the object is destroyed, which is
//! also how a disconnect drains the count.

use crate::tally::{lemma_sum_changed_at, lemma_sum_remove, sum_of};
use std::collections::HashMap;
use vstd::prelude::*;

verus! {

/// How many live objects `counts` records for `client`.
pub open spec fn live(counts: Map<u64, u32>, client: u64) -> nat {
    if counts.contains_key(client) {
        counts[client] as nat
    } else {
        0
    }
}

/// How many live objects `counts` records for every client.
pub open spec fn total(counts: Map<u64, u32>) -> nat {
    sum_of(counts.dom(), |client: u64| counts[client] as nat)
}

/// The counts with one more for `client`.
pub open spec fn claimed(counts: Map<u64, u32>, client: u64) -> Map<u64, u32> {
    counts.insert(client, (live(counts, client) + 1) as u32)
}

/// The counts with one fewer for `client`; a client with none has no entry,
/// and forgetting more than was claimed forgets nothing.
pub open spec fn forgotten(counts: Map<u64, u32>, client: u64) -> Map<u64, u32> {
    if live(counts, client) <= 1 {
        counts.remove(client)
    } else {
        counts.insert(client, (counts[client] - 1) as u32)
    }
}

/// Live objects per client. An entry exists only while a client holds one.
pub struct LiveCounts {
    per_client: HashMap<u64, u32>,
    cap: u32,
}

impl View for LiveCounts {
    type V = Map<u64, u32>;

    closed spec fn view(&self) -> Map<u64, u32> {
        self.per_client@
    }
}

impl LiveCounts {
    /// How many one client may hold at once.
    pub closed spec fn cap(&self) -> u32 {
        self.cap
    }

    /// Every client with an entry holds at least one and at most the cap.
    pub open spec fn wf(&self) -> bool {
        &&& self@.dom().finite()
        &&& forall|client: u64| #[trigger]
            self@.contains_key(client) ==> 0 < self@[client] <= self.cap()
    }

    pub fn new(cap: u32) -> (counts: LiveCounts)
        ensures
            counts.wf(),
            counts@ == Map::<u64, u32>::empty(),
            counts.cap() == cap,
    {
        LiveCounts { per_client: HashMap::new(), cap }
    }

    /// How many one client may hold at once.
    pub fn max(&self) -> (cap: u32)
        ensures
            cap == self.cap(),
    {
        self.cap
    }

    /// How many live objects `client` holds.
    pub fn live_for(&self, client: u64) -> (n: u32)
        ensures
            n == live(self@, client),
    {
        match self.per_client.get(&client) {
            Some(n) => *n,
            None => 0,
        }
    }

    /// Counts one more live object for `client`, answering whether it must be
    /// refused. A refused one is never counted.
    pub fn claim(&mut self, client: u64) -> (refused: bool)
        requires
            old(self).wf(),
        ensures
            final(self).wf(),
            final(self).cap() == old(self).cap(),
            refused == (live(old(self)@, client) >= old(self).cap()),
            final(self)@ == if refused {
                old(self)@
            } else {
                claimed(old(self)@, client)
            },
    {
        let n: u32 = self.live_for(client);
        if n >= self.cap {
            return true;
        }
        self.per_client.insert(client, n + 1);
        false
    }

    /// Forgets one live object of `client`.
    pub fn forget(&mut self, client: u64)
        requires
            old(self).wf(),
        ensures
            final(self).wf(),
            final(self).cap() == old(self).cap(),
            final(self)@ == forgotten(old(self)@, client),
    {
        match self.per_client.remove(&client) {
            None => {
                assert(self@ =~= forgotten(old(self)@, client));
            },
            Some(n) => {
                if n > 1 {
                    self.per_client.insert(client, n - 1);
                }
                assert(self@ =~= forgotten(old(self)@, client));
            },
        }
    }

    /// How many live objects every client holds between them.
    pub fn in_flight(&self) -> (n: u32)
        requires
            total(self@) <= u32::MAX,
        ensures
            n == total(self@),
    {
        sum_counts(&self.per_client)
    }
}

/// The sum of every client's count.
pub fn sum_counts(per_client: &HashMap<u64, u32>) -> (sum: u32)
    requires
        total(per_client@) <= u32::MAX,
    ensures
        sum == total(per_client@),
{
    let mut sum: u32 = 0;
    let ghost counts = per_client@;
    let ghost weight = |client: u64| counts[client] as nat;
    let ghost mut rest: Set<u64> = counts.dom();
    for client in iter: per_client.keys()
        invariant
            counts == per_client@,
            counts.dom().finite(),
            weight == (|client: u64| counts[client] as nat),
            iter.seq().unref().to_set() == counts.dom(),
            iter.seq().no_duplicates(),
            rest.finite(),
            rest.len() == iter.seq().len() - iter.index(),
            forall|j: int|
                iter.index() <= j < iter.seq().len() ==> rest.contains(
                    #[trigger] iter.seq().unref()[j],
                ),
            sum + sum_of(rest, weight) == total(counts),
            total(counts) <= u32::MAX,
    {
        proof {
            let at = iter.index();
            assert(iter.seq().unref()[at] == *client);
            lemma_sum_remove(rest, weight, *client);
            assert(iter.seq().unref().to_set().contains(*client));
            assert forall|j: int| at < j < iter.seq().len() implies iter.seq().unref()[j]
                != *client by {
                assert(iter.seq()[j] != iter.seq()[at]);
            }
        }
        if let Some(n) = per_client.get(client) {
            sum = sum + *n;
        }
        proof {
            rest = rest.remove(*client);
        }
    }
    sum
}

/// An object that is claimed and then destroyed leaves the counts as they
/// were.
pub proof fn a_claim_forgotten_leaves_no_trace(counts: Map<u64, u32>, client: u64)
    requires
        live(counts, client) < u32::MAX,
        counts.contains_key(client) ==> counts[client] > 0,
    ensures
        forgotten(claimed(counts, client), client) == counts,
{
    assert(forgotten(claimed(counts, client), client) =~= counts);
}

/// One client's objects never change what is counted for another.
pub proof fn clients_are_counted_apart(counts: Map<u64, u32>, client: u64, other: u64)
    requires
        client != other,
    ensures
        live(claimed(counts, client), other) == live(counts, other),
        live(forgotten(counts, client), other) == live(counts, other),
{
}

/// A claim adds one to its client's count and to the total; forgetting takes
/// one off both while the client has any, and nothing once it has none.
pub proof fn claims_and_forgets_move_the_total_by_one(counts: Map<u64, u32>, client: u64)
    requires
        counts.dom().finite(),
        live(counts, client) < u32::MAX,
        counts.contains_key(client) ==> counts[client] > 0,
    ensures
        live(claimed(counts, client), client) == live(counts, client) + 1,
        total(claimed(counts, client)) == total(counts) + 1,
        live(counts, client) > 0 ==> live(forgotten(counts, client), client) + 1 == live(
            counts,
            client,
        ) && total(forgotten(counts, client)) + 1 == total(counts),
        live(counts, client) == 0 ==> forgotten(counts, client) == counts,
{
    let more = claimed(counts, client);
    let fewer = forgotten(counts, client);
    lemma_sum_changed_at(
        counts.dom(),
        more.dom(),
        |c: u64| counts[c] as nat,
        |c: u64| more[c] as nat,
        client,
    );
    lemma_sum_changed_at(
        counts.dom(),
        fewer.dom(),
        |c: u64| counts[c] as nat,
        |c: u64| fewer[c] as nat,
        client,
    );
    if live(counts, client) == 0 {
        assert(fewer =~= counts);
    }
}

/// The counts with `n` of `client`'s objects forgotten.
pub open spec fn forgotten_times(counts: Map<u64, u32>, client: u64, n: nat) -> Map<u64, u32>
    decreases n,
{
    if n == 0 {
        counts
    } else {
        forgotten(forgotten_times(counts, client, (n - 1) as nat), client)
    }
}

/// A disconnect, which destroys every object the client held, drains its
/// count to nothing, and a forget too many does no harm.
pub proof fn destroying_everything_drains_the_count(counts: Map<u64, u32>, client: u64, n: nat)
    requires
        counts.contains_key(client) ==> counts[client] > 0,
    ensures
        ({
            let left = forgotten_times(counts, client, n);
            &&& live(left, client) == if n >= live(counts, client) {
                0
            } else {
                (live(counts, client) - n) as nat
            }
            &&& n >= live(counts, client) ==> left == counts.remove(client)
            &&& left.contains_key(client) ==> left[client] > 0
        }),
    decreases n,
{
    if n > 0 {
        destroying_everything_drains_the_count(counts, client, (n - 1) as nat);
        assert(n >= live(counts, client) ==> forgotten_times(counts, client, n) =~= counts.remove(
            client,
        )) by {
            lemma_only_client_changes(counts, client, (n - 1) as nat);
        }
    } else {
        assert(live(counts, client) == 0 ==> counts =~= counts.remove(client));
    }
}

proof fn lemma_only_client_changes(counts: Map<u64, u32>, client: u64, n: nat)
    ensures
        forgotten_times(counts, client, n).remove(client) == counts.remove(client),
    decreases n,
{
    if n > 0 {
        lemma_only_client_changes(counts, client, (n - 1) as nat);
        assert(forgotten_times(counts, client, n).remove(client) =~= forgotten_times(
            counts,
            client,
            (n - 1) as nat,
        ).remove(client));
    }
}

/// A claim is refused exactly at the cap. A refused one counts nothing; any other counts one more
/// for its client, and neither touches what another client holds.
pub proof fn a_claim_is_counted_below_the_cap(
    counts: &mut LiveCounts,
    client: u64,
    refused: bool,
    other: u64,
)
    requires
        old(counts).wf(),
        call_ensures(LiveCounts::claim, (counts, client), refused),
    ensures
        refused <==> live(old(counts)@, client) >= old(counts).cap(),
        refused ==> final(counts)@ == old(counts)@,
        !refused ==> live(final(counts)@, client) == live(old(counts)@, client) + 1,
        other != client ==> live(final(counts)@, other) == live(old(counts)@, other),
        final(counts).cap() == old(counts).cap(),
{
}

/// Forgetting takes one off what a client holds while it holds any, and touches nothing that
/// another client holds.
pub proof fn a_forgotten_object_is_taken_off(
    counts: &mut LiveCounts,
    client: u64,
    other: u64,
)
    requires
        old(counts).wf(),
        call_ensures(LiveCounts::forget, (counts, client), ()),
    ensures
        live(old(counts)@, client) > 0 ==> live(final(counts)@, client) + 1 == live(
            old(counts)@,
            client,
        ),
        live(old(counts)@, client) == 0 ==> live(final(counts)@, client) == 0,
        other != client ==> live(final(counts)@, other) == live(old(counts)@, other),
        final(counts).cap() == old(counts).cap(),
{
}

} // verus!
