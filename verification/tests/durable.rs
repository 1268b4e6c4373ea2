//! Leased actor state.
use ruau::durable::{
    ActorId, InMemoryStore, StartOutcome, StateGeneration, StateLease, StateStoreError,
    WakeRequest, DEFAULT_LEASE_TTL,
};
use ruau::marshaled::MarshaledValue;

fn start(store: &mut InMemoryStore, actor: &str, now: u64) -> (StateLease, MarshaledValue) {
    match store.try_start(ActorId::new(actor), now).expect("start succeeds") {
        StartOutcome::Started { lease, state } => (lease, state),
        StartOutcome::Busy { .. } => panic!("actor should be claimable"),
    }
}

fn one() -> MarshaledValue {
    MarshaledValue::Number(1.0f64.to_bits())
}

fn two() -> MarshaledValue {
    MarshaledValue::Number(2.0f64.to_bits())
}

#[test]
fn in_memory_store_claims_one_actor_serially_and_commits_state() {
    let mut store = InMemoryStore::new();
    let (lease, state) = start(&mut store, "agent/a", 0);
    assert!(matches!(state, MarshaledValue::Nil));
    assert!(matches!(
        store.try_start(ActorId::new("agent/a"), 1).expect("busy is not an error"),
        StartOutcome::Busy { generation, .. } if generation.value() == 0
    ));
    store.heartbeat(&lease, 2).expect("active lease heartbeats");
    let outcome = store
        .commit(
            &lease,
            MarshaledValue::Table(vec![]),
            vec![WakeRequest::new("agent/a", "continue")],
            3,
        )
        .expect("commit succeeds");
    assert_eq!(outcome.generation(), StateGeneration::new(1));
    assert_eq!(outcome.wakes().len(), 1);
    assert!(matches!(
        store.state(&ActorId::new("agent/a")),
        Some(MarshaledValue::Table(pairs)) if pairs.is_empty()
    ));
}

#[test]
fn in_memory_store_rejects_stale_leases_and_uses_monotonic_tokens() {
    let mut store = InMemoryStore::new();
    let (first, _) = start(&mut store, "agent/a", 0);
    store.commit(&first, one(), vec![], 1).expect("first commit succeeds");
    assert!(matches!(
        store.heartbeat(&first, 2),
        Err(StateStoreError::StaleLease { .. })
    ));

    let (second, state) = start(&mut store, "agent/a", 3);
    assert!(matches!(state, MarshaledValue::Number(bits) if bits == 1.0f64.to_bits()));
    assert!(second.token().value() > first.token().value());
    assert_eq!(second.generation(), StateGeneration::new(1));
    assert!(matches!(
        store.commit(&first, two(), vec![], 4),
        Err(StateStoreError::StaleLease { .. })
    ));
}

#[test]
fn in_memory_store_abandons_leases_without_advancing_state() {
    let mut store = InMemoryStore::new();
    let (first, _) = start(&mut store, "agent/a", 0);
    store.abandon(&first, 1).expect("active lease can be abandoned");
    assert!(matches!(store.state(&ActorId::new("agent/a")), Some(MarshaledValue::Nil)));

    let (second, state) = start(&mut store, "agent/a", 2);
    assert!(matches!(state, MarshaledValue::Nil));
    assert_eq!(second.generation(), StateGeneration::new(0));
    assert!(second.token().value() > first.token().value());
    assert!(matches!(
        store.abandon(&first, 3),
        Err(StateStoreError::StaleLease { .. })
    ));
}

#[test]
fn expired_leases_are_reclaimed_and_fenced() {
    // A zero TTL expires every lease immediately, making expiry
    // deterministic: the next try_start reclaims the actor with a fresh
    // fencing token, and the crashed holder's lease is stale everywhere.
    let mut store = InMemoryStore::with_lease_ttl(0);
    let (crashed, _state) = start(&mut store, "actor", 5);

    let reclaimed = match store.try_start(ActorId::new("actor"), 5).expect("reclaim succeeds") {
        StartOutcome::Started { lease, .. } => lease,
        StartOutcome::Busy { .. } => panic!("an expired lease must not wedge the actor"),
    };
    assert_ne!(reclaimed.token, crashed.token, "reclaim issues a fresh token");

    assert!(matches!(
        store.heartbeat(&crashed, 5),
        Err(StateStoreError::StaleLease { .. })
    ));
    assert!(matches!(
        store.commit(&crashed, MarshaledValue::Nil, Vec::new(), 5),
        Err(StateStoreError::StaleLease { .. })
    ));
}

#[test]
fn live_leases_stay_exclusive_and_heartbeats_extend() {
    let hour = 3_600_000_000_000;
    let mut store = InMemoryStore::with_lease_ttl(hour);
    let (lease, _state) = start(&mut store, "actor", 0);

    assert!(matches!(
        store.try_start(ActorId::new("actor"), 1).expect("second start resolves"),
        StartOutcome::Busy { .. }
    ));
    store.heartbeat(&lease, hour / 2).expect("a live lease heartbeats");
    // The first lease would have run out by now.
    assert!(matches!(
        store.try_start(ActorId::new("actor"), hour + 1).expect("third start resolves"),
        StartOutcome::Busy { .. }
    ));
    store
        .commit(&lease, MarshaledValue::Nil, Vec::new(), hour + 2)
        .expect("a live lease commits");
}

#[test]
fn leases_expire_after_their_time() {
    let mut store = InMemoryStore::new();
    let (first, _) = start(&mut store, "actor", 0);
    assert!(matches!(
        store.try_start(ActorId::new("actor"), DEFAULT_LEASE_TTL - 1),
        Ok(StartOutcome::Busy { .. })
    ));
    let (second, _) = start(&mut store, "actor", DEFAULT_LEASE_TTL);
    assert!(second.token().value() > first.token().value());
}

#[test]
fn wakes_of_commits_are_queued_in_order() {
    let mut store = InMemoryStore::new();
    let (lease, _) = start(&mut store, "a", 0);
    let wakes = vec![WakeRequest::new("b", "first"), WakeRequest::new("c", "second")];
    store.commit(&lease, MarshaledValue::Nil, wakes, 1).expect("commit");
    let queued = store.queued_wakes();
    assert_eq!(2, queued.len());
    assert_eq!("b", queued[0].actor().as_str());
    assert_eq!("first", queued[0].reason());
    assert_eq!("c", queued[1].actor().as_str());
    assert_eq!("second", queued[1].reason());
}

#[test]
fn unknown_actors_have_no_state() {
    let store = InMemoryStore::new();
    assert!(store.state(&ActorId::new("nobody")).is_none());
}

#[test]
fn histories_count_commits_and_tokens() {
    let mut store = InMemoryStore::with_lease_ttl(10);
    let mut newest = 0;
    for round in 0..3_u64 {
        for actor in ["a", "b"] {
            let (lease, state) = start(&mut store, actor, round);
            assert_eq!(actor, lease.actor().as_str());
            assert!(lease.token().value() > newest);
            newest = lease.token().value();
            if actor == "a" {
                assert_eq!(round, lease.generation().value());
                assert!((round == 0) == matches!(state, MarshaledValue::Nil));
                store.commit(&lease, one(), Vec::new(), round).expect("commit");
            } else {
                assert_eq!(0, lease.generation().value());
                assert!(matches!(state, MarshaledValue::Nil));
                store.abandon(&lease, round).expect("abandon");
            }
        }
    }
    assert_eq!(6, newest);
}
