//! The data model: servers, key references, sender and receiver records, and
//! the well-formedness invariant that every threshold combination only names
//! indices of the owning record's key list.

use vstd::prelude::*;

verus! {

/// The endpoint identity of one key server.
#[derive(Clone, Debug, PartialEq, Eq)]
pub struct Server {
    pub host: String,
    pub pk: String,
}

/// Display-only facts about a server; never used by protocol logic.
#[derive(Clone, Debug, PartialEq, Eq)]
pub struct ServerMeta {
    pub provider: Option<String>,
    pub hoster: Option<String>,
    pub location: Option<String>,
}

/// A server endpoint together with its display metadata.
#[derive(Clone, Debug, PartialEq, Eq)]
pub struct ServerWithMeta {
    pub host: String,
    pub pk: String,
    pub meta: Option<ServerMeta>,
}

/// A reference to one key share: a server plus the identifier that server
/// assigned to the share at creation time.
#[derive(Clone, Debug, PartialEq, Eq)]
pub struct Key {
    pub host: String,
    pub pk: String,
    pub id: String,
}

/// A key reference together with its server's display metadata.
#[derive(Clone, Debug, PartialEq, Eq)]
pub struct KeyWithMeta {
    pub host: String,
    pub pk: String,
    pub id: String,
    pub meta: Option<ServerMeta>,
}

/// One threshold combination: indices into the owning record's key list.
pub type KeyIndexArray = Vec<u64>;

/// The record a sender keeps while a secret is alive: key references and the
/// threshold combinations that suffice to unlock the secret.
#[derive(Clone, Debug, PartialEq, Eq)]
pub struct Sender {
    pub keys: Vec<Key>,
    pub sets: Vec<KeyIndexArray>,
}

/// The stored form of a sender record: a label and per-key display metadata.
#[derive(Clone, Debug, PartialEq, Eq)]
pub struct SenderStored {
    pub label: String,
    pub keys: Vec<KeyWithMeta>,
    pub sets: Vec<KeyIndexArray>,
}

/// One receiver-side combination: the key indices it needs and the secret
/// encrypted under exactly those keys' material.
#[derive(Clone, Debug, PartialEq, Eq)]
pub struct ReceiverKeySet {
    pub keys: KeyIndexArray,
    pub data: String,
}

/// The record a receiver uses to retrieve a secret.
#[derive(Clone, Debug, PartialEq, Eq)]
pub struct Receiver {
    pub keys: Vec<Key>,
    pub sets: Vec<ReceiverKeySet>,
}

/// The stored form of a receiver record: the same data plus a label.
#[derive(Clone, Debug, PartialEq, Eq)]
pub struct ReceiverStored {
    pub label: String,
    pub keys: Vec<Key>,
    pub sets: Vec<ReceiverKeySet>,
}

/// Every index of `set` names one of `key_count` keys.
pub open spec fn wf_index_set(set: Seq<u64>, key_count: int) -> bool {
    forall|j: int| 0 <= j < set.len() ==> (set[j] as int) < key_count
}

/// Every combination of `sets` only names indices below `key_count`.
pub open spec fn wf_index_sets(sets: Seq<Seq<u64>>, key_count: int) -> bool {
    forall|i: int| 0 <= i < sets.len() ==> wf_index_set(#[trigger] sets[i], key_count)
}

impl Sender {
    /// The record's invariant: combinations index into its key list.
    pub open spec fn wf(self) -> bool {
        wf_index_sets(self.sets.deep_view(), self.keys.len() as int)
    }
}

impl SenderStored {
    /// The record's invariant: combinations index into its key list.
    pub open spec fn wf(self) -> bool {
        wf_index_sets(self.sets.deep_view(), self.keys.len() as int)
    }
}

/// The index combinations of a receiver's sets, without the ciphertexts.
pub open spec fn receiver_index_sets(sets: Seq<ReceiverKeySet>) -> Seq<Seq<u64>> {
    sets.map_values(|s: ReceiverKeySet| s.keys@)
}

impl Receiver {
    /// The record's invariant: combinations index into its key list.
    pub open spec fn wf(self) -> bool {
        wf_index_sets(receiver_index_sets(self.sets@), self.keys.len() as int)
    }
}

impl ReceiverStored {
    /// The record's invariant: combinations index into its key list.
    pub open spec fn wf(self) -> bool {
        wf_index_sets(receiver_index_sets(self.sets@), self.keys.len() as int)
    }
}

/// Whether every index of every combination names one of `key_count` keys.
fn check_index_sets(sets: &Vec<KeyIndexArray>, key_count: usize) -> (ok: bool)
    ensures
        ok == wf_index_sets(sets.deep_view(), key_count as int),
{
    proof {
        crate::vault::lemma_deep_view_elems(*sets);
    }
    let ghost family = sets.deep_view();
    let mut i: usize = 0;
    while i < sets.len()
        invariant
            i <= sets.len(),
            family == sets.deep_view(),
            family.len() == sets@.len(),
            forall|m: int| 0 <= m < sets@.len() ==> family[m] == #[trigger] sets@[m]@,
            forall|m: int| 0 <= m < i ==> wf_index_set(#[trigger] family[m], key_count as int),
        decreases sets.len() - i,
    {
        let set = &sets[i];
        let mut j: usize = 0;
        while j < set.len()
            invariant
                j <= set.len(),
                i < sets@.len(),
                family == sets.deep_view(),
                family.len() == sets@.len(),
                family[i as int] == set@,
                forall|m: int| 0 <= m < j ==> (#[trigger] set@[m] as int) < key_count as int,
            decreases set.len() - j,
        {
            if set[j] >= key_count as u64 {
                proof {
                    assert(!wf_index_set(family[i as int], key_count as int));
                }
                return false;
            }
            j = j + 1;
        }
        assert(wf_index_set(family[i as int], key_count as int));
        i = i + 1;
    }
    true
}

impl Sender {
    /// Whether the record meets its invariant: every combination only names
    /// keys the record has. Established at construction; aggregation relies on
    /// it.
    pub fn check_wf(&self) -> (ok: bool)
        ensures
            ok == self.wf(),
    {
        check_index_sets(&self.sets, self.keys.len())
    }
}

impl Receiver {
    /// Whether the record meets its invariant: every combination only names
    /// keys the record has. Established at construction; aggregation relies on
    /// it.
    pub fn check_wf(&self) -> (ok: bool)
        ensures
            ok == self.wf(),
    {
        let mut index_sets: Vec<KeyIndexArray> = Vec::new();
        let mut i: usize = 0;
        while i < self.sets.len()
            invariant
                i <= self.sets@.len(),
                index_sets@.len() == i,
                forall|m: int| 0 <= m < i ==> #[trigger] index_sets@[m]@ == self.sets@[m].keys@,
            decreases self.sets@.len() - i,
        {
            index_sets.push(duplicate_index_set(&self.sets[i].keys));
            i = i + 1;
        }
        proof {
            crate::vault::lemma_deep_view_elems(index_sets);
            assert(index_sets.deep_view() =~~= receiver_index_sets(self.sets@));
        }
        check_index_sets(&index_sets, self.keys.len())
    }
}

impl Key {
    /// An equal copy of the reference.
    pub fn duplicate(&self) -> (key: Key)
        ensures
            key == *self,
    {
        Key { host: self.host.clone(), pk: self.pk.clone(), id: self.id.clone() }
    }
}

impl KeyWithMeta {
    /// The bare reference, with the display metadata dropped.
    pub fn without_meta(&self) -> (key: Key)
        ensures
            key.host == self.host,
            key.pk == self.pk,
            key.id == self.id,
    {
        Key { host: self.host.clone(), pk: self.pk.clone(), id: self.id.clone() }
    }
}

/// The bare key reference each stored key stands for, in order.
pub open spec fn spec_without_meta(key: KeyWithMeta) -> Key {
    Key { host: key.host, pk: key.pk, id: key.id }
}

/// Copies one index combination.
pub fn duplicate_index_set(set: &KeyIndexArray) -> (out: KeyIndexArray)
    ensures
        out@ == set@,
{
    let mut out: KeyIndexArray = Vec::new();
    let mut j: usize = 0;
    while j < set.len()
        invariant
            j <= set.len(),
            out@ == set@.subrange(0, j as int),
        decreases set.len() - j,
    {
        out.push(set[j]);
        j = j + 1;
    }
    assert(out@ =~= set@);
    out
}

/// Copies a list of index combinations.
pub fn duplicate_index_sets(sets: &Vec<KeyIndexArray>) -> (out: Vec<KeyIndexArray>)
    ensures
        out.deep_view() == sets.deep_view(),
{
    let mut out: Vec<KeyIndexArray> = Vec::new();
    let mut i: usize = 0;
    while i < sets.len()
        invariant
            i <= sets.len(),
            out@.len() == i,
            forall|k: int| 0 <= k < i ==> #[trigger] out@[k]@ == sets@[k]@,
        decreases sets.len() - i,
    {
        out.push(duplicate_index_set(&sets[i]));
        i = i + 1;
    }
    assert(out.deep_view() =~~= sets.deep_view());
    out
}

/// The protocol content of a stored sender record: the label and all display
/// metadata are dropped; the key references and the threshold combinations
/// stay, in order.
pub fn sender_without_meta(stored: &SenderStored) -> (sender: Sender)
    ensures
        sender.keys@.len() == stored.keys@.len(),
        forall|i: int| 0 <= i < stored.keys@.len()
            ==> sender.keys@[i] == spec_without_meta(#[trigger] stored.keys@[i]),
        sender.sets.deep_view() == stored.sets.deep_view(),
        stored.wf() ==> sender.wf(),
{
    let mut keys: Vec<Key> = Vec::new();
    let mut i: usize = 0;
    while i < stored.keys.len()
        invariant
            i <= stored.keys.len(),
            keys@.len() == i,
            forall|k: int| 0 <= k < i
                ==> keys@[k] == spec_without_meta(#[trigger] stored.keys@[k]),
        decreases stored.keys.len() - i,
    {
        keys.push(stored.keys[i].without_meta());
        i = i + 1;
    }
    Sender { keys, sets: duplicate_index_sets(&stored.sets) }
}

/// Labels a freshly received record for storage.
pub fn receiver_stored_from(label: String, receiver: Receiver) -> (stored: ReceiverStored)
    ensures
        stored.label == label,
        stored.keys == receiver.keys,
        stored.sets == receiver.sets,
        receiver.wf() ==> stored.wf(),
{
    ReceiverStored { label, keys: receiver.keys, sets: receiver.sets }
}

} // verus!
