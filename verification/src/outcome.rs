//! Per-key outcomes of one fan-out round and their fail-closed classification:
//! a key counts as unlocked only on an explicit unlocked reply; a transport
//! failure of any kind leaves the key Locked.

use vstd::prelude::*;

use crate::records::Key;

verus! {

/// A successful ping reply: the share is still locked, or already unlocked.
#[derive(Clone, Copy, Debug, PartialEq, Eq, Structural)]
pub enum PingOutcome {
    Locked,
    Unlocked,
}

/// A successful fetch reply: locked, or unlocked with the share material.
#[derive(Clone, Debug, PartialEq, Eq)]
pub enum GetOutcome {
    Locked,
    Unlocked(String),
}

/// The sender-side state of one key after a poll.
#[derive(Clone, Debug, PartialEq, Eq)]
pub enum SenderKeyState {
    Locked(Key),
    Unlocked(Key),
}

/// An unlocked key on the receiver side: the reference and its material.
#[derive(Clone, Debug, PartialEq, Eq)]
pub struct ReceiverKeyStateUnlocked {
    pub host: String,
    pub pk: String,
    pub id: String,
    pub key: String,
}

/// The receiver-side state of one key after a fetch round.
#[derive(Clone, Debug, PartialEq, Eq)]
pub enum ReceiverKeyState {
    Locked(Key),
    Unlocked(ReceiverKeyStateUnlocked),
}

/// The key reference a sender-side state is about.
pub open spec fn spec_sender_key(state: SenderKeyState) -> Key {
    match state {
        SenderKeyState::Locked(key) => key,
        SenderKeyState::Unlocked(key) => key,
    }
}

impl SenderKeyState {
    /// An equal copy of the state.
    pub fn duplicate(&self) -> (state: SenderKeyState)
        ensures
            state == *self,
    {
        match self {
            SenderKeyState::Locked(key) => SenderKeyState::Locked(key.duplicate()),
            SenderKeyState::Unlocked(key) => SenderKeyState::Unlocked(key.duplicate()),
        }
    }

    /// Whether the key reported itself unlocked.
    pub fn is_unlocked(&self) -> (unlocked: bool)
        ensures
            unlocked == (*self is Unlocked),
    {
        match self {
            SenderKeyState::Unlocked(_) => true,
            SenderKeyState::Locked(_) => false,
        }
    }

    /// The key reference the state is about.
    pub fn key(&self) -> (key: Key)
        ensures
            key == spec_sender_key(*self),
    {
        match self {
            SenderKeyState::Locked(key) => key.duplicate(),
            SenderKeyState::Unlocked(key) => key.duplicate(),
        }
    }
}

/// The key reference a receiver-side state is about.
pub open spec fn spec_receiver_key(state: ReceiverKeyState) -> Key {
    match state {
        ReceiverKeyState::Locked(key) => key,
        ReceiverKeyState::Unlocked(u) => Key { host: u.host, pk: u.pk, id: u.id },
    }
}

impl ReceiverKeyStateUnlocked {
    /// An equal copy.
    pub fn duplicate(&self) -> (state: ReceiverKeyStateUnlocked)
        ensures
            state == *self,
    {
        ReceiverKeyStateUnlocked {
            host: self.host.clone(),
            pk: self.pk.clone(),
            id: self.id.clone(),
            key: self.key.clone(),
        }
    }
}

impl ReceiverKeyState {
    /// An equal copy of the state.
    pub fn duplicate(&self) -> (state: ReceiverKeyState)
        ensures
            state == *self,
    {
        match self {
            ReceiverKeyState::Locked(key) => ReceiverKeyState::Locked(key.duplicate()),
            ReceiverKeyState::Unlocked(u) => ReceiverKeyState::Unlocked(u.duplicate()),
        }
    }

    /// Whether the key's share material arrived.
    pub fn is_unlocked(&self) -> (unlocked: bool)
        ensures
            unlocked == (*self is Unlocked),
    {
        match self {
            ReceiverKeyState::Unlocked(_) => true,
            ReceiverKeyState::Locked(_) => false,
        }
    }

    /// The key reference the state is about.
    pub fn key(&self) -> (key: Key)
        ensures
            key == spec_receiver_key(*self),
    {
        match self {
            ReceiverKeyState::Locked(key) => key.duplicate(),
            ReceiverKeyState::Unlocked(u) => Key {
                host: u.host.clone(),
                pk: u.pk.clone(),
                id: u.id.clone(),
            },
        }
    }
}

/// Fail-closed sender classification: unlocked only on an explicit unlocked
/// reply; errors and locked replies both count as locked.
pub open spec fn spec_sender_key_state(key: Key, outcome: Result<PingOutcome, String>) -> SenderKeyState {
    match outcome {
        Ok(PingOutcome::Unlocked) => SenderKeyState::Unlocked(key),
        _ => SenderKeyState::Locked(key),
    }
}

/// Classifies one ping result, fail-closed.
pub fn sender_key_state_of(key: Key, outcome: &Result<PingOutcome, String>) -> (state: SenderKeyState)
    ensures
        state == spec_sender_key_state(key, *outcome),
        *outcome is Err ==> state is Locked,
{
    match outcome {
        Ok(PingOutcome::Unlocked) => SenderKeyState::Unlocked(key),
        _ => SenderKeyState::Locked(key),
    }
}

/// The sender-side states of a whole fan-out round, in input order.
pub open spec fn spec_sender_key_states(results: Seq<(Key, Result<PingOutcome, String>)>) -> Seq<
    SenderKeyState,
> {
    Seq::new(results.len(), |i: int| spec_sender_key_state(results[i].0, results[i].1))
}

/// Classifies every ping result of one round, fail-closed, in input order.
pub fn sender_key_states(results: &Vec<(Key, Result<PingOutcome, String>)>) -> (states: Vec<
    SenderKeyState,
>)
    ensures
        states@ == spec_sender_key_states(results@),
{
    let mut states: Vec<SenderKeyState> = Vec::new();
    let mut i: usize = 0;
    while i < results.len()
        invariant
            i <= results.len(),
            states@.len() == i,
            forall|m: int| 0 <= m < i
                ==> states@[m] == spec_sender_key_state(
                    (#[trigger] results@[m]).0,
                    results@[m].1,
                ),
        decreases results.len() - i,
    {
        let key = results[i].0.duplicate();
        states.push(sender_key_state_of(key, &results[i].1));
        i = i + 1;
    }
    assert(states@ =~= spec_sender_key_states(results@));
    states
}

/// Fail-closed receiver classification: only an explicit unlocked reply hands
/// the share material on; errors and locked replies both count as locked.
pub open spec fn spec_receiver_key_state(key: Key, outcome: Result<GetOutcome, String>) -> ReceiverKeyState {
    match outcome {
        Ok(GetOutcome::Unlocked(material)) => ReceiverKeyState::Unlocked(
            ReceiverKeyStateUnlocked { host: key.host, pk: key.pk, id: key.id, key: material },
        ),
        _ => ReceiverKeyState::Locked(key),
    }
}

/// Classifies one fetch result, fail-closed.
pub fn receiver_key_state_of(key: Key, outcome: &Result<GetOutcome, String>) -> (state: ReceiverKeyState)
    ensures
        state == spec_receiver_key_state(key, *outcome),
        *outcome is Err ==> state is Locked,
{
    match outcome {
        Ok(GetOutcome::Unlocked(material)) => ReceiverKeyState::Unlocked(
            ReceiverKeyStateUnlocked {
                host: key.host,
                pk: key.pk,
                id: key.id,
                key: material.clone(),
            },
        ),
        _ => ReceiverKeyState::Locked(key),
    }
}

/// The receiver-side states of a whole fetch round, in input order.
pub open spec fn spec_receiver_key_states(results: Seq<(Key, Result<GetOutcome, String>)>) -> Seq<
    ReceiverKeyState,
> {
    Seq::new(results.len(), |i: int| spec_receiver_key_state(results[i].0, results[i].1))
}

/// Classifies every fetch result of one round, fail-closed, in input order.
pub fn receiver_key_states(results: &Vec<(Key, Result<GetOutcome, String>)>) -> (states: Vec<
    ReceiverKeyState,
>)
    ensures
        states@ == spec_receiver_key_states(results@),
{
    let mut states: Vec<ReceiverKeyState> = Vec::new();
    let mut i: usize = 0;
    while i < results.len()
        invariant
            i <= results.len(),
            states@.len() == i,
            forall|m: int| 0 <= m < i
                ==> states@[m] == spec_receiver_key_state(
                    (#[trigger] results@[m]).0,
                    results@[m].1,
                ),
        decreases results.len() - i,
    {
        let key = results[i].0.duplicate();
        states.push(receiver_key_state_of(key, &results[i].1));
        i = i + 1;
    }
    assert(states@ =~= spec_receiver_key_states(results@));
    states
}

} // verus!
