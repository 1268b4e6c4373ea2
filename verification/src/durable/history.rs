//! What holds of a store over any history of calls.
use super::{
    abandoned, claimed, committed, empty_store, entry_of, expiry, extended, fresh_entry,
    holds_lease, leased, EntryModel, LeaseModel, StoreModel, WakeRequest,
};
use crate::marshaled::ValueModel;
use crate::sorted::{lemma_put, lookup, ordered, put};
use vstd::prelude::*;

verus! {

/// A call of a store.
pub enum StoreCall {
    Start { actor: Seq<char>, now: u64 },
    Heartbeat { lease: LeaseModel, now: u64 },
    Abandon { lease: LeaseModel, now: u64 },
    Commit { lease: LeaseModel, state: ValueModel, requests: Seq<WakeRequest>, now: u64 },
}

/// Whether a call changes the store: an actor is claimed, or the lease is still
/// valid and does what it asks for.
pub open spec fn succeeds(s: StoreModel, call: StoreCall) -> bool {
    match call {
        StoreCall::Start { actor, now } => !leased(entry_of(s, actor), now) && s.next_token
            < u64::MAX,
        StoreCall::Heartbeat { lease, now } => holds_lease(s, lease, now),
        StoreCall::Abandon { lease, now } => holds_lease(s, lease, now),
        StoreCall::Commit { lease, now, .. } => holds_lease(s, lease, now) && lease.generation
            < u64::MAX,
    }
}

/// The store after a call; one that does not succeed changes nothing.
pub open spec fn applied(s: StoreModel, call: StoreCall, ttl: u64) -> StoreModel {
    if !succeeds(s, call) {
        s
    } else {
        match call {
            StoreCall::Start { actor, now } => claimed(s, actor, now, ttl),
            StoreCall::Heartbeat { lease, now } => extended(s, lease, now, ttl),
            StoreCall::Abandon { lease, .. } => abandoned(s, lease),
            StoreCall::Commit { lease, state, requests, .. } => committed(
                s,
                lease,
                state,
                requests,
            ),
        }
    }
}

/// The store after some calls of an empty one.
pub open spec fn store_after(calls: Seq<StoreCall>, ttl: u64) -> StoreModel
    decreases calls.len(),
{
    if calls.len() == 0 {
        empty_store()
    } else {
        applied(store_after(calls.drop_last(), ttl), calls.last(), ttl)
    }
}

/// The states that were committed for an actor, in order.
pub open spec fn commits(calls: Seq<StoreCall>, ttl: u64, actor: Seq<char>) -> Seq<ValueModel>
    decreases calls.len(),
{
    if calls.len() == 0 {
        Seq::empty()
    } else {
        let before = commits(calls.drop_last(), ttl, actor);
        match calls.last() {
            StoreCall::Commit { lease, state, .. } => if lease.actor == actor && succeeds(
                store_after(calls.drop_last(), ttl),
                calls.last(),
            ) {
                before.push(state)
            } else {
                before
            },
            _ => before,
        }
    }
}

/// The tokens that were issued, for any actor, in order.
pub open spec fn issued(calls: Seq<StoreCall>, ttl: u64) -> Seq<u64>
    decreases calls.len(),
{
    if calls.len() == 0 {
        Seq::empty()
    } else {
        let before = issued(calls.drop_last(), ttl);
        let s = store_after(calls.drop_last(), ttl);
        if calls.last() is Start && succeeds(s, calls.last()) {
            before.push((s.next_token + 1) as u64)
        } else {
            before
        }
    }
}

/// After any history of calls, the generation of an actor is the number of its
/// commits, and its state is that of the last of them, or nil where there was
/// none.
pub proof fn law_generation_counts_commits(calls: Seq<StoreCall>, ttl: u64, actor: Seq<char>)
    ensures
        ordered(store_after(calls, ttl).actors),
        entry_of(store_after(calls, ttl), actor).generation == commits(calls, ttl, actor).len(),
        entry_of(store_after(calls, ttl), actor).state == (if commits(calls, ttl, actor).len()
            == 0 {
            ValueModel::Nil
        } else {
            commits(calls, ttl, actor).last()
        }),
    decreases calls.len(),
{
    if calls.len() > 0 {
        let s = store_after(calls.drop_last(), ttl);
        let call = calls.last();
        law_generation_counts_commits(calls.drop_last(), ttl, actor);
        if succeeds(s, call) {
            let at = match call {
                StoreCall::Start { actor, .. } => actor,
                StoreCall::Heartbeat { lease, .. } => lease.actor,
                StoreCall::Abandon { lease, .. } => lease.actor,
                StoreCall::Commit { lease, .. } => lease.actor,
            };
            law_generation_counts_commits(calls.drop_last(), ttl, at);
            let e = match call {
                StoreCall::Start { now, .. } => EntryModel {
                    active: Some((s.next_token + 1) as u64),
                    expires: expiry(now, ttl),
                    ..entry_of(s, at)
                },
                StoreCall::Heartbeat { now, .. } => EntryModel {
                    expires: expiry(now, ttl),
                    ..entry_of(s, at)
                },
                StoreCall::Abandon { .. } => EntryModel {
                    active: None,
                    expires: None,
                    ..entry_of(s, at)
                },
                StoreCall::Commit { lease, state, .. } => EntryModel {
                    generation: (lease.generation + 1) as u64,
                    state,
                    active: None,
                    expires: None,
                },
            };
            lemma_put(s.actors, at, e);
            if actor != at {
                assert(lookup(put(s.actors, at, e), actor) == lookup(s.actors, actor));
            }
            assert(applied(s, call, ttl).actors == put(s.actors, at, e));
        }
    } else {
        assert(entry_of(empty_store(), actor) == fresh_entry());
    }
}

/// After any history of calls, the tokens that were issued strictly ascend, and
/// none is newer than the newest that the store knows.
pub proof fn law_tokens_ascend(calls: Seq<StoreCall>, ttl: u64)
    ensures
        forall|i: int|
            0 <= i < issued(calls, ttl).len() ==> #[trigger] issued(calls, ttl)[i] <= store_after(
                calls,
                ttl,
            ).next_token,
        forall|i: int, j: int|
            #![trigger issued(calls, ttl)[i], issued(calls, ttl)[j]]
            0 <= i < j < issued(calls, ttl).len() ==> issued(calls, ttl)[i] < issued(calls, ttl)[j],
    decreases calls.len(),
{
    if calls.len() > 0 {
        law_tokens_ascend(calls.drop_last(), ttl);
        let before = issued(calls.drop_last(), ttl);
        let all = issued(calls, ttl);
        assert forall|i: int| 0 <= i < before.len() implies all[i] == before[i] by {}
    }
}

/// A claim after any history of calls hands out a token that is greater than
/// every one issued before, for any actor, with the number of the actor's
/// commits and the state of the last of them.
pub proof fn law_claim_continues_history(
    calls: Seq<StoreCall>,
    ttl: u64,
    actor: Seq<char>,
    now: u64,
)
    requires
        succeeds(store_after(calls, ttl), StoreCall::Start { actor, now }),
    ensures
        ({
            let s = store_after(calls, ttl);
            let done = commits(calls, ttl, actor);
            let all = issued(calls.push(StoreCall::Start { actor, now }), ttl);
            &&& all == issued(calls, ttl).push((s.next_token + 1) as u64)
            &&& forall|i: int| 0 <= i < all.len() - 1 ==> #[trigger] all[i] < all.last()
            &&& entry_of(s, actor).generation == done.len()
            &&& entry_of(s, actor).state == (if done.len() == 0 {
                ValueModel::Nil
            } else {
                done.last()
            })
        }),
{
    let longer = calls.push(StoreCall::Start { actor, now });
    assert(longer.drop_last() =~= calls);
    law_tokens_ascend(calls, ttl);
    law_tokens_ascend(longer, ttl);
    law_generation_counts_commits(calls, ttl, actor);
}

} // verus!
