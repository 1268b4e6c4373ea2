//! Durable actor state: leases, fenced commits and wakes.
//!
//! A lease has a time to live. An actor whose lease has expired can be claimed
//! again under a fresh token; from then on the old lease is stale, so a
//! crashed holder neither keeps an actor busy nor commits over a later one.
//! Times are ticks of a monotonic clock that the caller reads.
use crate::marshaled::{MarshaledValue, ValueModel};
use crate::sorted::{
    holds, lemma_mapped, lemma_put, lemma_put_without, lemma_rank, lemma_same_keys,
    lemma_without, lookup, mapped, ordered, put, rank, without, SortedMap,
};
use crate::text::{decimal, decimal_text, ends, same_text, starts};
use vstd::prelude::*;
use vstd::string::*;
use history::{applied, StoreCall};

pub mod history;

verus! {

/// A durable actor identifier.
#[derive(Debug)]
pub struct ActorId {
    pub name: String,
}

impl ActorId {
    pub open spec fn view(&self) -> Seq<char> {
        self.name@
    }

    /// Creates an actor id.
    pub fn new(value: &str) -> (r: Self)
        ensures
            r@ == value@,
    {
        ActorId { name: value.to_owned() }
    }

    /// The actor id as a string slice.
    pub fn as_str(&self) -> (r: &str)
        ensures
            r@ == self@,
    {
        self.name.as_str()
    }
}

impl Clone for ActorId {
    fn clone(&self) -> (r: Self)
        ensures
            r@ == self@,
    {
        ActorId { name: self.name.clone() }
    }
}

/// Monotonic state generation for one actor.
#[derive(Clone, Copy, Debug, PartialEq, Eq, Structural, PartialOrd, Ord, Hash)]
pub struct StateGeneration(pub u64);

impl StateGeneration {
    /// Wraps a raw generation value.
    pub fn new(value: u64) -> (r: Self)
        ensures
            r.0 == value,
    {
        StateGeneration(value)
    }

    /// The raw generation value.
    pub fn value(self) -> (r: u64)
        ensures
            r == self.0,
    {
        self.0
    }
}

impl Default for StateGeneration {
    fn default() -> (r: Self)
        ensures
            r.0 == 0,
    {
        StateGeneration(0)
    }
}

/// Backend-generated monotonic lease token.
#[derive(Clone, Copy, Debug, PartialEq, Eq, Structural, PartialOrd, Ord, Hash)]
pub struct LeaseToken(pub u64);

impl LeaseToken {
    /// Wraps a raw token value.
    pub fn new(value: u64) -> (r: Self)
        ensures
            r.0 == value,
    {
        LeaseToken(value)
    }

    /// The raw token value.
    pub fn value(self) -> (r: u64)
        ensures
            r == self.0,
    {
        self.0
    }
}

/// A fenced lease on one actor.
#[derive(Debug)]
pub struct StateLease {
    pub actor: ActorId,
    pub token: LeaseToken,
    pub generation: StateGeneration,
}

/// Model of a [`StateLease`].
#[verifier::ext_equal]
pub struct LeaseModel {
    pub actor: Seq<char>,
    pub token: u64,
    pub generation: u64,
}

impl StateLease {
    pub open spec fn view(&self) -> LeaseModel {
        LeaseModel { actor: self.actor@, token: self.token.0, generation: self.generation.0 }
    }

    /// Mints a lease with a token and the generation that was observed.
    pub fn new(actor: ActorId, token: LeaseToken, generation: StateGeneration) -> (r: Self)
        ensures
            r@ == (LeaseModel { actor: actor@, token: token.0, generation: generation.0 }),
    {
        StateLease { actor, token, generation }
    }

    /// The leased actor.
    pub fn actor(&self) -> (r: &ActorId)
        ensures
            r@ == self@.actor,
    {
        &self.actor
    }

    /// The backend-generated lease token.
    pub fn token(&self) -> (r: LeaseToken)
        ensures
            r.0 == self@.token,
    {
        self.token
    }

    /// The state generation observed when the lease started.
    pub fn generation(&self) -> (r: StateGeneration)
        ensures
            r.0 == self@.generation,
    {
        self.generation
    }
}

impl Clone for StateLease {
    fn clone(&self) -> (r: Self)
        ensures
            r@ == self@,
    {
        StateLease {
            actor: self.actor.clone(),
            token: self.token,
            generation: self.generation,
        }
    }
}

/// Outcome of trying to start one actor invocation.
#[derive(Debug)]
pub enum StartOutcome {
    /// The actor lease was acquired.
    Started {
        /// Fenced lease for heartbeat and commit.
        lease: StateLease,
        /// Current durable state snapshot.
        state: MarshaledValue,
    },
    /// Another invocation already owns this actor.
    Busy {
        /// Actor that could not be claimed.
        actor: ActorId,
        /// Current state generation.
        generation: StateGeneration,
    },
}

/// A wake requested by a committed invocation.
#[derive(Debug)]
pub struct WakeRequest {
    pub actor: ActorId,
    pub reason: String,
}

impl WakeRequest {
    /// Creates a wake request for an actor.
    pub fn new(actor: &str, reason: &str) -> (r: Self)
        ensures
            r.actor@ == actor@,
            r.reason@ == reason@,
    {
        WakeRequest { actor: ActorId::new(actor), reason: reason.to_owned() }
    }

    /// The actor to wake.
    pub fn actor(&self) -> (r: &ActorId)
        ensures
            r@ == self.actor@,
    {
        &self.actor
    }

    /// Human-readable wake reason.
    pub fn reason(&self) -> (r: &str)
        ensures
            r@ == self.reason@,
    {
        self.reason.as_str()
    }
}

/// A wake recorded by the store after a successful commit, stamped with the
/// generation that the target actor had at that moment.
#[derive(Debug)]
pub struct QueuedWake {
    pub actor: ActorId,
    pub generation: StateGeneration,
    pub reason: String,
}

/// Model of a [`QueuedWake`].
#[verifier::ext_equal]
pub struct WakeModel {
    pub actor: Seq<char>,
    pub generation: u64,
    pub reason: Seq<char>,
}

impl QueuedWake {
    pub open spec fn view(&self) -> WakeModel {
        WakeModel { actor: self.actor@, generation: self.generation.0, reason: self.reason@ }
    }

    /// Stamps a request.
    fn from_request(request: WakeRequest, generation: StateGeneration) -> (r: Self)
        ensures
            r@ == (WakeModel {
                actor: request.actor@,
                generation: generation.0,
                reason: request.reason@,
            }),
    {
        QueuedWake { actor: request.actor, generation, reason: request.reason }
    }

    /// The actor to wake.
    pub fn actor(&self) -> (r: &ActorId)
        ensures
            r@ == self@.actor,
    {
        &self.actor
    }

    /// Generation that scheduled this wake.
    pub fn generation(&self) -> (r: StateGeneration)
        ensures
            r.0 == self@.generation,
    {
        self.generation
    }

    /// Human-readable wake reason.
    pub fn reason(&self) -> (r: &str)
        ensures
            r@ == self@.reason,
    {
        self.reason.as_str()
    }
}

impl Clone for QueuedWake {
    fn clone(&self) -> (r: Self)
        ensures
            r@ == self@,
    {
        QueuedWake {
            actor: self.actor.clone(),
            generation: self.generation,
            reason: self.reason.clone(),
        }
    }
}

/// The models of a list of wakes.
pub open spec fn wake_models(v: Seq<QueuedWake>) -> Seq<WakeModel> {
    v.map_values(|w: QueuedWake| w@)
}

/// Outcome of a successful fenced commit.
#[derive(Debug)]
pub struct CommitOutcome {
    pub generation: StateGeneration,
    pub wakes: Vec<QueuedWake>,
}

impl CommitOutcome {
    /// Builds a commit outcome.
    pub fn new(generation: StateGeneration, wakes: Vec<QueuedWake>) -> (r: Self)
        ensures
            r.generation == generation,
            r.wakes == wakes,
    {
        CommitOutcome { generation, wakes }
    }

    /// The actor generation after the commit.
    pub fn generation(&self) -> (r: StateGeneration)
        ensures
            r == self.generation,
    {
        self.generation
    }

    /// Wakes recorded by this commit.
    pub fn wakes(&self) -> (r: &[QueuedWake])
        ensures
            r@ == self.wakes@,
    {
        self.wakes.as_slice()
    }
}

/// Error of durable state stores.
#[derive(Debug)]
pub enum StateStoreError {
    /// The backend failed internally.
    Internal {
        /// Backend-specific failure description.
        detail: String,
    },
    /// The store exhausted its monotonic lease token space.
    TokenExhausted,
    /// An actor exhausted its monotonic generation space.
    GenerationExhausted {
        /// Actor whose generation could not advance.
        actor: ActorId,
    },
    /// The lease no longer owns the actor.
    StaleLease {
        /// Leased actor.
        actor: ActorId,
        /// Rejected token.
        token: LeaseToken,
    },
    /// A policy rejected an oversized state snapshot.
    ValueSizeLimit {
        /// Size of the rejected snapshot in policy-defined bytes.
        bytes: usize,
        /// Maximum accepted snapshot size.
        cap: usize,
    },
    /// A policy rejected a new actor slot for a tenant.
    TenantActorLimit {
        /// Tenant whose actor slot cap was reached.
        tenant: String,
        /// Number of actor slots already reserved for the tenant.
        actors: usize,
        /// Maximum actor slots accepted for the tenant.
        cap: usize,
    },
}

/// Result of durable state-store operations.
pub type StateStoreResult<T> = Result<T, StateStoreError>;

/// Model of a [`StateStoreError`].
pub enum StoreFault {
    Internal { detail: Seq<char> },
    TokenExhausted,
    GenerationExhausted { actor: Seq<char> },
    StaleLease { actor: Seq<char>, token: u64 },
    ValueSizeLimit { bytes: nat, cap: nat },
    TenantActorLimit { tenant: Seq<char>, actors: nat, cap: nat },
}

/// The text of a store error.
pub open spec fn store_message(fault: StoreFault) -> Seq<char> {
    match fault {
        StoreFault::Internal { detail } => "state store backend failure: "@ + detail,
        StoreFault::TokenExhausted => "state store lease token space is exhausted"@,
        StoreFault::GenerationExhausted { actor } => "state generation for actor `"@ + actor
            + "` is exhausted"@,
        StoreFault::StaleLease { actor, token } => "lease token "@ + decimal(token as nat)
            + " no longer owns actor `"@ + actor + "`"@,
        StoreFault::ValueSizeLimit { bytes, cap } => "state snapshot is "@ + decimal(bytes)
            + " byte(s), exceeding cap "@ + decimal(cap),
        StoreFault::TenantActorLimit { tenant, actors, cap } => "tenant `"@ + tenant + "` has "@
            + decimal(actors) + " actor slot(s), exceeding cap "@ + decimal(cap),
    }
}

impl StateStoreError {
    pub open spec fn view(&self) -> StoreFault {
        match self {
            StateStoreError::Internal { detail } => StoreFault::Internal { detail: detail@ },
            StateStoreError::TokenExhausted => StoreFault::TokenExhausted,
            StateStoreError::GenerationExhausted { actor } => StoreFault::GenerationExhausted {
                actor: actor@,
            },
            StateStoreError::StaleLease { actor, token } => StoreFault::StaleLease {
                actor: actor@,
                token: token.0,
            },
            StateStoreError::ValueSizeLimit { bytes, cap } => StoreFault::ValueSizeLimit {
                bytes: *bytes as nat,
                cap: *cap as nat,
            },
            StateStoreError::TenantActorLimit { tenant, actors, cap } =>
                StoreFault::TenantActorLimit {
                tenant: tenant@,
                actors: *actors as nat,
                cap: *cap as nat,
            },
        }
    }

    /// The error as a sentence.
    pub fn message(&self) -> (r: String)
        ensures
            r@ == store_message(self@),
    {
        match self {
            StateStoreError::Internal { detail } => "state store backend failure: ".to_owned().concat(
                detail.as_str(),
            ),
            StateStoreError::TokenExhausted => "state store lease token space is exhausted".to_owned(),
            StateStoreError::GenerationExhausted { actor } => "state generation for actor `".to_owned().concat(
                actor.as_str(),
            ).concat("` is exhausted"),
            StateStoreError::StaleLease { actor, token } => "lease token ".to_owned().concat(
                decimal_text(token.0).as_str(),
            ).concat(" no longer owns actor `").concat(actor.as_str()).concat("`"),
            StateStoreError::ValueSizeLimit { bytes, cap } => "state snapshot is ".to_owned().concat(
                decimal_text(*bytes as u64).as_str(),
            ).concat(" byte(s), exceeding cap ").concat(decimal_text(*cap as u64).as_str()),
            StateStoreError::TenantActorLimit { tenant, actors, cap } => "tenant `".to_owned().concat(
                tenant.as_str(),
            ).concat("` has ").concat(decimal_text(*actors as u64).as_str()).concat(
                " actor slot(s), exceeding cap ",
            ).concat(decimal_text(*cap as u64).as_str()),
        }
    }
}

/// Default lease time to live, in nanoseconds.
pub const DEFAULT_LEASE_TTL: u64 = 30_000_000_000;

/// What the store keeps for one actor.
#[derive(Debug)]
pub struct ActorEntry {
    pub generation: StateGeneration,
    pub state: MarshaledValue,
    pub active: Option<LeaseToken>,
    /// The time at which the active lease stops being valid; never, where
    /// there is none.
    pub lease_expires_at: Option<u64>,
}

/// Model of an [`ActorEntry`].
pub struct EntryModel {
    pub generation: u64,
    pub state: ValueModel,
    pub active: Option<u64>,
    pub expires: Option<u64>,
}

/// What the store keeps for an actor that it has not seen.
pub open spec fn fresh_entry() -> EntryModel {
    EntryModel { generation: 0, state: ValueModel::Nil, active: None, expires: None }
}

/// Whether a time lies before an expiry.
pub open spec fn unexpired(expires: Option<u64>, now: u64) -> bool {
    expires matches Some(e) ==> now < e
}

/// Whether the entry has a lease that is still valid.
pub open spec fn leased(e: EntryModel, now: u64) -> bool {
    e.active is Some && unexpired(e.expires, now)
}

/// Whether a lease owns the actor of an entry: token and generation match and
/// the lease has not expired.
pub open spec fn owns(e: EntryModel, lease: LeaseModel, now: u64) -> bool {
    e.active == Some(lease.token) && e.generation == lease.generation && unexpired(e.expires, now)
}

/// The expiry of a lease that is granted or extended now.
pub open spec fn expiry(now: u64, ttl: u64) -> Option<u64> {
    if now + ttl > u64::MAX {
        None
    } else {
        Some((now + ttl) as u64)
    }
}

/// Model of an [`InMemoryStore`].
#[verifier::ext_equal]
pub struct StoreModel {
    pub next_token: u64,
    pub actors: Seq<(Seq<char>, EntryModel)>,
    pub wakes: Seq<WakeModel>,
}

/// What the store keeps for an actor.
pub open spec fn entry_of(s: StoreModel, actor: Seq<char>) -> EntryModel {
    match lookup(s.actors, actor) {
        Some(e) => e,
        None => fresh_entry(),
    }
}

/// Whether a lease owns its actor.
pub open spec fn holds_lease(s: StoreModel, lease: LeaseModel, now: u64) -> bool {
    lookup(s.actors, lease.actor) matches Some(e) && owns(e, lease, now)
}

/// The store with another entry for an actor.
pub open spec fn with_entry(s: StoreModel, actor: Seq<char>, e: EntryModel) -> StoreModel {
    StoreModel { actors: put(s.actors, actor, e), ..s }
}

/// The store after an actor was claimed: a fresh token, a running lease.
pub open spec fn claimed(s: StoreModel, actor: Seq<char>, now: u64, ttl: u64) -> StoreModel {
    let token = (s.next_token + 1) as u64;
    with_entry(
        StoreModel { next_token: token, ..s },
        actor,
        EntryModel { active: Some(token), expires: expiry(now, ttl), ..entry_of(s, actor) },
    )
}

/// The generation stamped on a wake: that of the committing actor after the
/// commit, or the current one of another actor.
pub open spec fn wake_generation(
    actors: Seq<(Seq<char>, EntryModel)>,
    target: Seq<char>,
    committer: Seq<char>,
    generation: u64,
) -> u64 {
    if target == committer {
        generation
    } else {
        match lookup(actors, target) {
            Some(e) => e.generation,
            None => 0,
        }
    }
}

/// The wakes that a commit queues.
pub open spec fn stamped(
    actors: Seq<(Seq<char>, EntryModel)>,
    requests: Seq<WakeRequest>,
    committer: Seq<char>,
    generation: u64,
) -> Seq<WakeModel> {
    requests.map_values(
        |w: WakeRequest|
            WakeModel {
                actor: w.actor@,
                generation: wake_generation(actors, w.actor@, committer, generation),
                reason: w.reason@,
            },
    )
}

/// The store after a lease committed a state and wakes.
pub open spec fn committed(
    s: StoreModel,
    lease: LeaseModel,
    state: ValueModel,
    requests: Seq<WakeRequest>,
) -> StoreModel {
    let generation = (lease.generation + 1) as u64;
    let after = with_entry(
        s,
        lease.actor,
        EntryModel { generation, state, active: None, expires: None },
    );
    StoreModel {
        wakes: s.wakes + stamped(after.actors, requests, lease.actor, generation),
        ..after
    }
}

/// The store after a lease was given back.
pub open spec fn abandoned(s: StoreModel, lease: LeaseModel) -> StoreModel {
    with_entry(
        s,
        lease.actor,
        EntryModel { active: None, expires: None, ..entry_of(s, lease.actor) },
    )
}

/// The store after a heartbeat.
pub open spec fn extended(s: StoreModel, lease: LeaseModel, now: u64, ttl: u64) -> StoreModel {
    with_entry(
        s,
        lease.actor,
        EntryModel { expires: expiry(now, ttl), ..entry_of(s, lease.actor) },
    )
}

/// The rejection of a lease.
pub open spec fn stale(lease: LeaseModel) -> StoreFault {
    StoreFault::StaleLease { actor: lease.actor, token: lease.token }
}

impl ActorEntry {
    pub open spec fn view(&self) -> EntryModel {
        EntryModel {
            generation: self.generation.0,
            state: self.state@,
            active: match self.active {
                Some(t) => Some(t.0),
                None => None,
            },
            expires: self.lease_expires_at,
        }
    }

    /// Whether a lease currently owns this actor.
    fn owned_by(&self, lease: &StateLease, now: u64) -> (r: bool)
        ensures
            r == owns(self@, lease@, now),
    {
        let token = match self.active {
            Some(t) => t.0 == lease.token.0,
            None => false,
        };
        let valid = match self.lease_expires_at {
            Some(e) => now < e,
            None => true,
        };
        token && self.generation.0 == lease.generation.0 && valid
    }

    /// Whether an unexpired lease runs on this actor.
    fn is_leased(&self, now: u64) -> (r: bool)
        ensures
            r == leased(self@, now),
    {
        self.active.is_some() && match self.lease_expires_at {
            Some(e) => now < e,
            None => true,
        }
    }
}

impl Default for ActorEntry {
    fn default() -> (r: Self)
        ensures
            r@ == fresh_entry(),
    {
        ActorEntry {
            generation: StateGeneration(0),
            state: MarshaledValue::Nil,
            active: None,
            lease_expires_at: None,
        }
    }
}

/// In-memory durable state store.
#[derive(Debug)]
pub struct InMemoryStore {
    pub next_token: u64,
    pub actors: SortedMap<ActorEntry>,
    pub wakes: Vec<QueuedWake>,
    /// How long a lease stays valid past its acquisition or last heartbeat.
    pub lease_ttl: u64,
}

impl InMemoryStore {
    pub open spec fn view(&self) -> StoreModel {
        StoreModel {
            next_token: self.next_token,
            actors: mapped(self.actors@, |e: ActorEntry| e@),
            wakes: wake_models(self.wakes@),
        }
    }

    /// Actors stand in order, and no active token is newer than the newest
    /// one that was issued.
    pub open spec fn wf(&self) -> bool {
        self.actors.wf() && tokens_issued(self@)
    }

    /// Creates an empty store with the default lease time to live.
    pub fn new() -> (r: Self)
        ensures
            r.wf(),
            r.lease_ttl == DEFAULT_LEASE_TTL,
            r@ == empty_store(),
    {
        Self::with_lease_ttl(DEFAULT_LEASE_TTL)
    }

    /// Creates an empty store with an explicit lease time to live.
    pub fn with_lease_ttl(lease_ttl: u64) -> (r: Self)
        ensures
            r.wf(),
            r.lease_ttl == lease_ttl,
            r@ == empty_store(),
    {
        let r = InMemoryStore {
            next_token: 0,
            actors: SortedMap::new(),
            wakes: Vec::new(),
            lease_ttl,
        };
        assert(r@ =~= empty_store());
        r
    }

    /// Returns the current state snapshot for an actor.
    pub fn state(&self, actor: &ActorId) -> (r: Option<MarshaledValue>)
        requires
            self.wf(),
        ensures
            match r {
                Some(v) => lookup(self@.actors, actor@) matches Some(e) && e.state == v@,
                None => lookup(self@.actors, actor@) is None,
            },
    {
        proof {
            lemma_same_keys(self.actors@, self@.actors, actor@);
        }
        match self.actors.get(actor.as_str()) {
            Some(entry) => Some(entry.state.duplicate()),
            None => None,
        }
    }

    /// Returns all wakes recorded so far.
    pub fn queued_wakes(&self) -> (r: Vec<QueuedWake>)
        ensures
            wake_models(r@) == self@.wakes,
    {
        copy_wakes(&self.wakes)
    }

    /// Rejects a lease.
    fn reject_stale(lease: &StateLease) -> (r: StateStoreError)
        ensures
            r@ == stale(lease@),
    {
        StateStoreError::StaleLease { actor: lease.actor.clone(), token: lease.token }
    }

    /// Stores an entry for an actor whose entry was taken out.
    fn put_back(&mut self, actor: &ActorId, entry: ActorEntry, Ghost(before): Ghost<Seq<(Seq<char>, ActorEntry)>>)
        requires
            ordered(before),
            old(self).actors.wf(),
            old(self).actors@ == without(before, actor@),
        ensures
            final(self).actors.wf(),
            final(self).actors@ == put(before, actor@, entry),
            final(self)@.actors == put(mapped(before, |e: ActorEntry| e@), actor@, entry@),
            final(self).next_token == old(self).next_token,
            final(self).wakes == old(self).wakes,
            final(self).lease_ttl == old(self).lease_ttl,
    {
        proof {
            lemma_put_without(before, actor@, entry);
            lemma_mapped(before, |e: ActorEntry| e@, actor@, entry);
        }
        self.actors.insert(actor.name.clone(), entry);
    }

    /// Attempts to claim an actor for one invocation: an actor whose lease is
    /// still valid is busy, and any other gets a fresh token.
    pub fn try_start(&mut self, actor: ActorId, now: u64) -> (r: StateStoreResult<StartOutcome>)
        requires
            old(self).wf(),
        ensures
            final(self).wf(),
            final(self).lease_ttl == old(self).lease_ttl,
            final(self)@ == applied(
                old(self)@,
                StoreCall::Start { actor: actor@, now },
                old(self).lease_ttl,
            ),
            match r {
                Ok(StartOutcome::Busy { actor: a, generation }) => {
                    &&& leased(entry_of(old(self)@, actor@), now)
                    &&& a@ == actor@
                    &&& generation.0 == entry_of(old(self)@, actor@).generation
                    &&& final(self)@ == old(self)@
                },
                Ok(StartOutcome::Started { lease, state }) => {
                    &&& !leased(entry_of(old(self)@, actor@), now)
                    &&& old(self)@.next_token < u64::MAX
                    &&& final(self)@ == claimed(old(self)@, actor@, now, old(self).lease_ttl)
                    &&& lease@ == (LeaseModel {
                        actor: actor@,
                        token: (old(self)@.next_token + 1) as u64,
                        generation: entry_of(old(self)@, actor@).generation,
                    })
                    &&& state@ == entry_of(old(self)@, actor@).state
                },
                Err(e) => {
                    &&& !leased(entry_of(old(self)@, actor@), now)
                    &&& old(self)@.next_token == u64::MAX
                    &&& e@ == StoreFault::TokenExhausted
                    &&& final(self)@ == old(self)@
                },
            },
    {
        let ghost s = self@;
        let ghost before = self.actors@;
        proof {
            lemma_same_keys(self.actors@, s.actors, actor@);
            lemma_without(self.actors@, actor@);
        }
        if let Some(entry) = self.actors.get(actor.as_str()) {
            if entry.is_leased(now) {
                return Ok(StartOutcome::Busy { actor, generation: entry.generation });
            }
        }
        if self.next_token == u64::MAX {
            return Err(StateStoreError::TokenExhausted);
        }
        self.next_token = self.next_token + 1;
        let token = LeaseToken::new(self.next_token);
        let mut entry = match self.actors.remove(actor.as_str()) {
            Some(entry) => entry,
            None => ActorEntry::default(),
        };
        assert(entry@ == entry_of(s, actor@));
        entry.active = Some(token);
        entry.lease_expires_at = now.checked_add(self.lease_ttl);
        let generation = entry.generation;
        let state = entry.state.duplicate();
        self.put_back(&actor, entry, Ghost(before));
        proof {
            assert(self@ =~= claimed(s, actor@, now, old(self).lease_ttl));
            law_claim_keeps_tokens(s, actor@, now, old(self).lease_ttl);
        }
        Ok(StartOutcome::Started { lease: StateLease::new(actor, token, generation), state })
    }

    /// Heartbeats an active lease: a valid one is extended.
    pub fn heartbeat(&mut self, lease: &StateLease, now: u64) -> (r: StateStoreResult<()>)
        requires
            old(self).wf(),
        ensures
            final(self).wf(),
            final(self).lease_ttl == old(self).lease_ttl,
            final(self)@ == applied(
                old(self)@,
                StoreCall::Heartbeat { lease: lease@, now },
                old(self).lease_ttl,
            ),
            match r {
                Ok(()) => holds_lease(old(self)@, lease@, now) && final(self)@ == extended(
                    old(self)@,
                    lease@,
                    now,
                    old(self).lease_ttl,
                ),
                Err(e) => !holds_lease(old(self)@, lease@, now) && e@ == stale(lease@)
                    && final(self)@ == old(self)@,
            },
    {
        let ghost s = self@;
        let ghost before = self.actors@;
        proof {
            lemma_same_keys(self.actors@, s.actors, lease@.actor);
            lemma_without(self.actors@, lease@.actor);
        }
        let owned = match self.actors.get(lease.actor.as_str()) {
            Some(entry) => entry.owned_by(lease, now),
            None => false,
        };
        if !owned {
            return Err(Self::reject_stale(lease));
        }
        if let Some(entry) = self.actors.remove(lease.actor.as_str()) {
            let mut entry = entry;
            assert(entry@ == entry_of(s, lease@.actor));
            entry.lease_expires_at = now.checked_add(self.lease_ttl);
            self.put_back(&lease.actor, entry, Ghost(before));
            proof {
                assert(self@ =~= extended(s, lease@, now, old(self).lease_ttl));
                lemma_entry_keeps_tokens(
                    s,
                    lease@.actor,
                    entry@,
                );
            }
        }
        Ok(())
    }

    /// Releases an active lease without committing state or wakes.
    pub fn abandon(&mut self, lease: &StateLease, now: u64) -> (r: StateStoreResult<()>)
        requires
            old(self).wf(),
        ensures
            final(self).wf(),
            final(self).lease_ttl == old(self).lease_ttl,
            final(self)@ == applied(
                old(self)@,
                StoreCall::Abandon { lease: lease@, now },
                old(self).lease_ttl,
            ),
            match r {
                Ok(()) => holds_lease(old(self)@, lease@, now) && final(self)@ == abandoned(
                    old(self)@,
                    lease@,
                ),
                Err(e) => !holds_lease(old(self)@, lease@, now) && e@ == stale(lease@)
                    && final(self)@ == old(self)@,
            },
    {
        let ghost s = self@;
        let ghost before = self.actors@;
        proof {
            lemma_same_keys(self.actors@, s.actors, lease@.actor);
            lemma_without(self.actors@, lease@.actor);
        }
        let owned = match self.actors.get(lease.actor.as_str()) {
            Some(entry) => entry.owned_by(lease, now),
            None => false,
        };
        if !owned {
            return Err(Self::reject_stale(lease));
        }
        if let Some(entry) = self.actors.remove(lease.actor.as_str()) {
            let mut entry = entry;
            assert(entry@ == entry_of(s, lease@.actor));
            entry.active = None;
            entry.lease_expires_at = None;
            self.put_back(&lease.actor, entry, Ghost(before));
            proof {
                assert(self@ =~= abandoned(s, lease@));
                lemma_entry_keeps_tokens(s, lease@.actor, entry@);
            }
        }
        Ok(())
    }

    /// Commits state and wakes if the lease still owns the actor generation.
    /// The generation advances by one and the lease ends.
    pub fn commit(
        &mut self,
        lease: &StateLease,
        state: MarshaledValue,
        wakes: Vec<WakeRequest>,
        now: u64,
    ) -> (r: StateStoreResult<CommitOutcome>)
        requires
            old(self).wf(),
        ensures
            final(self).wf(),
            final(self).lease_ttl == old(self).lease_ttl,
            final(self)@ == applied(
                old(self)@,
                StoreCall::Commit { lease: lease@, state: state@, requests: wakes@, now },
                old(self).lease_ttl,
            ),
            match r {
                Ok(outcome) => {
                    &&& holds_lease(old(self)@, lease@, now)
                    &&& lease@.generation < u64::MAX
                    &&& final(self)@ == committed(old(self)@, lease@, state@, wakes@)
                    &&& outcome.generation.0 == lease@.generation + 1
                    &&& wake_models(outcome.wakes@) == stamped(
                        final(self)@.actors,
                        wakes@,
                        lease@.actor,
                        outcome.generation.0,
                    )
                },
                Err(e) => {
                    &&& final(self)@ == old(self)@
                    &&& if holds_lease(old(self)@, lease@, now) {
                        lease@.generation == u64::MAX && e@ == (StoreFault::GenerationExhausted {
                            actor: lease@.actor,
                        })
                    } else {
                        e@ == stale(lease@)
                    }
                },
            },
    {
        let ghost s = self@;
        let ghost before = self.actors@;
        proof {
            lemma_same_keys(self.actors@, s.actors, lease@.actor);
            lemma_without(self.actors@, lease@.actor);
        }
        let owned = match self.actors.get(lease.actor.as_str()) {
            Some(entry) => entry.owned_by(lease, now),
            None => false,
        };
        if !owned {
            return Err(Self::reject_stale(lease));
        }
        if lease.generation.0 == u64::MAX {
            return Err(StateStoreError::GenerationExhausted { actor: lease.actor.clone() });
        }
        let generation = StateGeneration::new(lease.generation.0 + 1);
        self.actors.remove(lease.actor.as_str());
        let entry = ActorEntry { generation, state, active: None, lease_expires_at: None };
        self.put_back(&lease.actor, entry, Ghost(before));
        let ghost after = self@.actors;
        proof {
            lemma_entry_keeps_tokens(s, lease@.actor, entry@);
        }
        let queued: Vec<QueuedWake> = self.stamp_wakes(wakes, &lease.actor, generation);
        let mut copy: Vec<QueuedWake> = copy_wakes(&queued);
        let ghost had = self.wakes@;
        let ghost added = copy@;
        self.wakes.append(&mut copy);
        proof {
            assert(wake_models(self.wakes@) =~= wake_models(had) + wake_models(added));
            assert(self@ =~= committed(s, lease@, state@, wakes@));
        }
        Ok(CommitOutcome::new(generation, queued))
    }

    /// Stamps requested wakes with the generations of their targets.
    fn stamp_wakes(
        &self,
        requests: Vec<WakeRequest>,
        committer: &ActorId,
        generation: StateGeneration,
    ) -> (r: Vec<QueuedWake>)
        requires
            self.actors.wf(),
        ensures
            wake_models(r@) == stamped(self@.actors, requests@, committer@, generation.0),
    {
        let mut rest = requests;
        let mut out: Vec<QueuedWake> = Vec::new();
        let ghost all = requests@;
        let ghost goal = stamped(self@.actors, requests@, committer@, generation.0);
        while rest.len() > 0
            invariant
                self.actors.wf(),
                goal == stamped(self@.actors, all, committer@, generation.0),
                rest@.len() + out@.len() == all.len(),
                rest@ == all.skip(out@.len() as int),
                forall|k: int| 0 <= k < out@.len() ==> (#[trigger] out@[k])@ == goal[k],
            decreases rest.len(),
        {
            let ghost k = out@.len() as int;
            let request = rest.remove(0);
            assert(request == all[k]);
            assert(rest@ =~= all.skip(k + 1));
            proof {
                lemma_same_keys(self.actors@, self@.actors, request.actor@);
            }
            let stamp = if same_text(request.actor.as_str(), committer.as_str()) {
                generation
            } else {
                match self.actors.get(request.actor.as_str()) {
                    Some(entry) => entry.generation,
                    None => StateGeneration(0),
                }
            };
            out.push(QueuedWake::from_request(request, stamp));
        }
        assert(wake_models(out@) =~= goal);
        out
    }
}

/// Copies a list of wakes.
fn copy_wakes(v: &Vec<QueuedWake>) -> (r: Vec<QueuedWake>)
    ensures
        wake_models(r@) == wake_models(v@),
{
    let mut out: Vec<QueuedWake> = Vec::new();
    let mut i: usize = 0;
    while i < v.len()
        invariant
            i <= v.len(),
            out@.len() == i,
            forall|k: int| 0 <= k < i ==> (#[trigger] out@[k])@ == v@[k]@,
        decreases v.len() - i,
    {
        out.push(v[i].clone());
        i += 1;
    }
    assert(wake_models(out@) =~= wake_models(v@));
    out
}

/// A store that nothing has happened to.
pub open spec fn empty_store() -> StoreModel {
    StoreModel { next_token: 0, actors: Seq::empty(), wakes: Seq::empty() }
}

/// Whether every active token has been issued.
pub open spec fn tokens_issued(s: StoreModel) -> bool {
    forall|i: int|
        0 <= i < s.actors.len() ==> ((#[trigger] s.actors[i]).1.active matches Some(t) ==> t
            <= s.next_token)
}

/// Storing an entry whose token was issued keeps all tokens issued.
proof fn lemma_entry_keeps_tokens(s: StoreModel, actor: Seq<char>, e: EntryModel)
    requires
        ordered(s.actors),
        tokens_issued(s),
        e.active matches Some(t) ==> t <= s.next_token,
    ensures
        tokens_issued(with_entry(s, actor, e)),
{
    let p = put(s.actors, actor, e);
    let at = rank(s.actors, actor);
    lemma_rank(s.actors, actor);
    assert forall|i: int| 0 <= i < p.len() implies ((#[trigger] p[i]).1.active matches Some(t) ==> t
        <= s.next_token) by {
        if holds(s.actors, actor) || i < at {
            if i != at {
                assert(p[i] == s.actors[i]);
            }
        } else if i > at {
            assert(p[i] == s.actors[i - 1]);
        }
    }
}

/// A claim issues a token that is newer than every one before it.
pub proof fn law_claim_keeps_tokens(s: StoreModel, actor: Seq<char>, now: u64, ttl: u64)
    requires
        ordered(s.actors),
        tokens_issued(s),
        s.next_token < u64::MAX,
    ensures
        tokens_issued(claimed(s, actor, now, ttl)),
        claimed(s, actor, now, ttl).next_token == s.next_token + 1,
        entry_of(claimed(s, actor, now, ttl), actor).active == Some((s.next_token + 1) as u64),
{
    let token = (s.next_token + 1) as u64;
    let t = StoreModel { next_token: token, ..s };
    let e = EntryModel { active: Some(token), expires: expiry(now, ttl), ..entry_of(s, actor) };
    assert(tokens_issued(t)) by {
        assert forall|i: int|
            0 <= i < t.actors.len() implies ((#[trigger] t.actors[i]).1.active matches Some(x) ==> x
            <= t.next_token) by {
            assert(t.actors[i] == s.actors[i]);
        }
    }
    lemma_entry_keeps_tokens(t, actor, e);
    lemma_put(s.actors, actor, e);
}

/// Whether a lease was issued and can never own its actor again: its token is
/// not the active one.
pub open spec fn fenced(s: StoreModel, lease: LeaseModel) -> bool {
    &&& lease.token <= s.next_token
    &&& entry_of(s, lease.actor).active != Some(lease.token)
}

/// A fenced lease is refused by every operation that asks for it.
pub proof fn law_fenced_is_stale(s: StoreModel, lease: LeaseModel, now: u64)
    requires
        fenced(s, lease),
    ensures
        !holds_lease(s, lease, now),
{
}

/// Once a lease is fenced it stays so, whatever is done to the store: a claim
/// issues only newer tokens, and no other operation makes a token active.
pub proof fn law_fenced_stays_fenced(
    s: StoreModel,
    lease: LeaseModel,
    other: LeaseModel,
    now: u64,
    ttl: u64,
    state: ValueModel,
    requests: Seq<WakeRequest>,
)
    requires
        ordered(s.actors),
        fenced(s, lease),
    ensures
        s.next_token < u64::MAX ==> fenced(claimed(s, other.actor, now, ttl), lease),
        fenced(extended(s, other, now, ttl), lease),
        fenced(abandoned(s, other), lease),
        fenced(committed(s, other, state, requests), lease),
{
    let a = other.actor;
    let e = entry_of(s, a);
    let x = EntryModel {
        active: Some((s.next_token + 1) as u64),
        expires: expiry(now, ttl),
        ..e
    };
    let y = EntryModel { expires: expiry(now, ttl), ..e };
    let z = EntryModel { active: None, expires: None, ..e };
    let w = EntryModel {
        generation: (other.generation + 1) as u64,
        state,
        active: None,
        expires: None,
    };
    lemma_put(s.actors, a, x);
    lemma_put(s.actors, a, y);
    lemma_put(s.actors, a, z);
    lemma_put(s.actors, a, w);
    if lease.actor != a {
        assert(lookup(put(s.actors, a, x), lease.actor) == lookup(s.actors, lease.actor));
        assert(lookup(put(s.actors, a, y), lease.actor) == lookup(s.actors, lease.actor));
        assert(lookup(put(s.actors, a, z), lease.actor) == lookup(s.actors, lease.actor));
        assert(lookup(put(s.actors, a, w), lease.actor) == lookup(s.actors, lease.actor));
    }
}

/// A lease that another claim of the same actor replaced is fenced.
pub proof fn law_reclaim_fences(s: StoreModel, lease: LeaseModel, now: u64, ttl: u64)
    requires
        ordered(s.actors),
        lease.token <= s.next_token,
        s.next_token < u64::MAX,
    ensures
        fenced(claimed(s, lease.actor, now, ttl), lease),
{
    lemma_put(
        s.actors,
        lease.actor,
        EntryModel {
            active: Some((s.next_token + 1) as u64),
            expires: expiry(now, ttl),
            ..entry_of(s, lease.actor)
        },
    );
}

/// A lease is fenced once it has committed or was abandoned.
pub proof fn law_ended_lease_is_fenced(
    s: StoreModel,
    lease: LeaseModel,
    state: ValueModel,
    requests: Seq<WakeRequest>,
)
    requires
        ordered(s.actors),
        lease.token <= s.next_token,
    ensures
        fenced(committed(s, lease, state, requests), lease),
        fenced(abandoned(s, lease), lease),
{
    lemma_put(
        s.actors,
        lease.actor,
        EntryModel {
            generation: (lease.generation + 1) as u64,
            state,
            active: None,
            expires: None,
        },
    );
    lemma_put(
        s.actors,
        lease.actor,
        EntryModel { active: None, expires: None, ..entry_of(s, lease.actor) },
    );
}

/// At most one lease owns an actor at a time.
pub proof fn law_one_owner(s: StoreModel, a: LeaseModel, b: LeaseModel, now: u64)
    requires
        a.actor == b.actor,
        holds_lease(s, a, now),
        holds_lease(s, b, now),
    ensures
        a == b,
{
}

/// A claimed actor is owned by the new lease until its time to live is over.
pub proof fn law_claim_owns(s: StoreModel, actor: Seq<char>, now: u64, ttl: u64, later: u64)
    requires
        ordered(s.actors),
        s.next_token < u64::MAX,
        later < now + ttl,
    ensures
        holds_lease(
            claimed(s, actor, now, ttl),
            LeaseModel {
                actor,
                token: (s.next_token + 1) as u64,
                generation: entry_of(s, actor).generation,
            },
            later,
        ),
        leased(entry_of(claimed(s, actor, now, ttl), actor), later),
{
    lemma_put(
        s.actors,
        actor,
        EntryModel {
            active: Some((s.next_token + 1) as u64),
            expires: expiry(now, ttl),
            ..entry_of(s, actor)
        },
    );
}

/// A lease whose time to live is over does not keep its actor busy.
pub proof fn law_expired_is_reclaimable(s: StoreModel, actor: Seq<char>, now: u64, ttl: u64, later: u64)
    requires
        ordered(s.actors),
        s.next_token < u64::MAX,
        now + ttl <= later,
    ensures
        !leased(entry_of(claimed(s, actor, now, ttl), actor), later),
{
    lemma_put(
        s.actors,
        actor,
        EntryModel {
            active: Some((s.next_token + 1) as u64),
            expires: expiry(now, ttl),
            ..entry_of(s, actor)
        },
    );
}

/// A commit is read back: the actor has the committed state under the next
/// generation, and every other actor keeps what it had.
pub proof fn law_commit_then_read(
    s: StoreModel,
    lease: LeaseModel,
    state: ValueModel,
    requests: Seq<WakeRequest>,
    other: Seq<char>,
)
    requires
        ordered(s.actors),
        lease.generation < u64::MAX,
        other != lease.actor,
    ensures
        entry_of(committed(s, lease, state, requests), lease.actor) == (EntryModel {
            generation: (lease.generation + 1) as u64,
            state,
            active: None,
            expires: None,
        }),
        entry_of(committed(s, lease, state, requests), other) == entry_of(s, other),
{
    let e = EntryModel {
        generation: (lease.generation + 1) as u64,
        state,
        active: None,
        expires: None,
    };
    lemma_put(s.actors, lease.actor, e);
    assert(lookup(put(s.actors, lease.actor, e), other) == lookup(s.actors, other));
}

/// Abandoning a lease keeps state and generation.
pub proof fn law_abandon_keeps_state(s: StoreModel, lease: LeaseModel)
    requires
        ordered(s.actors),
    ensures
        entry_of(abandoned(s, lease), lease.actor).state == entry_of(s, lease.actor).state,
        entry_of(abandoned(s, lease), lease.actor).generation == entry_of(
            s,
            lease.actor,
        ).generation,
{
    lemma_put(
        s.actors,
        lease.actor,
        EntryModel { active: None, expires: None, ..entry_of(s, lease.actor) },
    );
}

/// A commit queues its wakes behind those that wait, one for each request and
/// in their order, with the actor and the reason of the request. A wake of the
/// committing actor itself has the generation of the commit, and one of
/// another actor the generation that it has.
pub proof fn law_commit_queues_wakes(
    s: StoreModel,
    lease: LeaseModel,
    state: ValueModel,
    requests: Seq<WakeRequest>,
    k: int,
)
    requires
        ordered(s.actors),
        lease.generation < u64::MAX,
    ensures
        committed(s, lease, state, requests).wakes.len() == s.wakes.len() + requests.len(),
        committed(s, lease, state, requests).wakes.take(s.wakes.len() as int) == s.wakes,
        0 <= k < requests.len() ==> {
            let wake = committed(s, lease, state, requests).wakes[s.wakes.len() + k];
            &&& wake.actor == requests[k].actor@
            &&& wake.reason == requests[k].reason@
            &&& requests[k].actor@ == lease.actor ==> wake.generation == lease.generation + 1
            &&& requests[k].actor@ != lease.actor ==> wake.generation == entry_of(
                s,
                requests[k].actor@,
            ).generation
        },
{
    let after = committed(s, lease, state, requests);
    assert(after.wakes.take(s.wakes.len() as int) =~= s.wakes);
    if 0 <= k < requests.len() && requests[k].actor@ != lease.actor {
        law_commit_then_read(s, lease, state, requests, requests[k].actor@);
    }
}

/// Claiming, giving back and extending a lease touch one actor and no wake:
/// every other actor keeps what it had. What is given back is free, and what
/// is extended is owned until the new time to live is over; both keep the
/// state and the generation.
pub proof fn law_leases_touch_one_actor(
    s: StoreModel,
    lease: LeaseModel,
    now: u64,
    ttl: u64,
    later: u64,
    other: Seq<char>,
)
    requires
        ordered(s.actors),
        s.next_token < u64::MAX,
        other != lease.actor,
    ensures
        claimed(s, lease.actor, now, ttl).wakes == s.wakes,
        entry_of(claimed(s, lease.actor, now, ttl), other) == entry_of(s, other),
        entry_of(claimed(s, lease.actor, now, ttl), lease.actor).state == entry_of(
            s,
            lease.actor,
        ).state,
        entry_of(claimed(s, lease.actor, now, ttl), lease.actor).generation == entry_of(
            s,
            lease.actor,
        ).generation,
        abandoned(s, lease).wakes == s.wakes,
        entry_of(abandoned(s, lease), other) == entry_of(s, other),
        !leased(entry_of(abandoned(s, lease), lease.actor), later),
        extended(s, lease, now, ttl).wakes == s.wakes,
        entry_of(extended(s, lease, now, ttl), other) == entry_of(s, other),
        entry_of(extended(s, lease, now, ttl), lease.actor).state == entry_of(
            s,
            lease.actor,
        ).state,
        holds_lease(s, lease, now) && later < now + ttl ==> holds_lease(
            extended(s, lease, now, ttl),
            lease,
            later,
        ),
        holds_lease(s, lease, now) && later >= now + ttl ==> !holds_lease(
            extended(s, lease, now, ttl),
            lease,
            later,
        ),
{
    let own = entry_of(s, lease.actor);
    let a = EntryModel {
        active: Some((s.next_token + 1) as u64),
        expires: expiry(now, ttl),
        ..own
    };
    let b = EntryModel { active: None, expires: None, ..own };
    let c = EntryModel { expires: expiry(now, ttl), ..own };
    lemma_put(s.actors, lease.actor, a);
    lemma_put(s.actors, lease.actor, b);
    lemma_put(s.actors, lease.actor, c);
    assert(lookup(put(s.actors, lease.actor, a), other) == lookup(s.actors, other));
    assert(lookup(put(s.actors, lease.actor, b), other) == lookup(s.actors, other));
    assert(lookup(put(s.actors, lease.actor, c), other) == lookup(s.actors, other));
}

/// The text of a store error names the actor that it is about.
pub proof fn law_store_messages_name_actors(actor: Seq<char>, token: u64, detail: Seq<char>)
    ensures
        ends(store_message((StoreFault::StaleLease { actor, token })), "`"@ + actor + "`"@),
        starts(
            store_message((StoreFault::StaleLease { actor, token })),
            "lease token "@ + decimal(token as nat),
        ),
        ends(store_message((StoreFault::Internal { detail })), detail),
        ends(
            store_message((StoreFault::GenerationExhausted { actor })),
            "`"@ + actor + "` is exhausted"@,
        ),
{
    reveal_strlit("`");
    reveal_strlit(" no longer owns actor `");
    reveal_strlit("state generation for actor `");
    let a = store_message((StoreFault::StaleLease { actor, token }));
    let tail = "`"@ + actor + "`"@;
    assert(a.skip(a.len() - tail.len()) =~= tail);
    let head = "lease token "@ + decimal(token as nat);
    assert(a.take(head.len() as int) =~= head);
    let b = store_message((StoreFault::Internal { detail }));
    assert(b.skip(b.len() - detail.len()) =~= detail);
    let c = store_message((StoreFault::GenerationExhausted { actor }));
    let end = "`"@ + actor + "` is exhausted"@;
    assert(c.skip(c.len() - end.len()) =~= end);
}

} // verus!
