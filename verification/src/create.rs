//! The secret-creation protocol: collect the per-server create-key results
//! fail-fast — one failed server aborts the whole creation, so no weakened
//! vault is ever produced — then seal the message once per threshold
//! combination and assemble the matching sender and receiver records.

use vstd::prelude::*;

use crate::crypto::{encrypt_spec, encrypt_with};
use crate::records::{
    duplicate_index_set, wf_index_set, wf_index_sets, Key, KeyIndexArray, Receiver,
    ReceiverKeySet, Sender, Server,
};
use crate::vault::lemma_deep_view_elems;

verus! {

/// What one server returns when it mints a new timelocked slot: the id the
/// sender pings, the id the receiver fetches, and the share material the
/// message is sealed under.
#[derive(Clone, Debug, PartialEq, Eq)]
pub struct CreatedKey {
    pub sender: String,
    pub receiver: String,
    pub key: String,
}

impl Server {
    /// An equal copy of the endpoint.
    pub fn duplicate(&self) -> (server: Server)
        ensures
            server == *self,
    {
        Server { host: self.host.clone(), pk: self.pk.clone() }
    }
}

impl CreatedKey {
    /// An equal copy of the created slot.
    pub fn duplicate(&self) -> (key: CreatedKey)
        ensures
            key == *self,
    {
        CreatedKey {
            sender: self.sender.clone(),
            receiver: self.receiver.clone(),
            key: self.key.clone(),
        }
    }
}

/// Collects one creation round fail-fast: all servers minted their slot, or
/// the first failure aborts the whole round and no partial list leaks out.
pub fn collect_created(results: Vec<(Server, Result<CreatedKey, String>)>) -> (out: Result<
    Vec<(Server, CreatedKey)>,
    String,
>)
    ensures
        match out {
            Ok(pairs) => {
                &&& forall|k: int| 0 <= k < results@.len() ==> (#[trigger] results@[k]).1 is Ok
                &&& pairs@.len() == results@.len()
                &&& forall|k: int|
                    0 <= k < results@.len() ==> (#[trigger] pairs@[k]).0 == results@[k].0
                        && results@[k].1 == Ok::<CreatedKey, String>(pairs@[k].1)
            },
            Err(e) => exists|k: int|
                0 <= k < results@.len() && (#[trigger] results@[k]).1 == Err::<
                    CreatedKey,
                    String,
                >(e) && (forall|m: int| 0 <= m < k ==> (#[trigger] results@[m]).1 is Ok),
        },
{
    let mut pairs: Vec<(Server, CreatedKey)> = Vec::new();
    let mut i: usize = 0;
    while i < results.len()
        invariant
            i <= results.len(),
            pairs@.len() == i,
            forall|k: int| 0 <= k < i ==> (#[trigger] results@[k]).1 is Ok,
            forall|k: int|
                0 <= k < i ==> (#[trigger] pairs@[k]).0 == results@[k].0 && results@[k].1
                    == Ok::<CreatedKey, String>(pairs@[k].1),
        decreases results.len() - i,
    {
        let (server, result) = &results[i];
        match result {
            Ok(created) => {
                pairs.push((server.duplicate(), created.duplicate()));
            },
            Err(e) => {
                return Err(e.clone());
            },
        }
        i = i + 1;
    }
    Ok(pairs)
}

/// The ordered share material of the keys one combination names.
pub open spec fn spec_created_materials(keys: Seq<(Server, CreatedKey)>, set: Seq<u64>) -> Seq<
    Seq<char>,
> {
    Seq::new(set.len(), |j: int| keys[set[j] as int].1.key@)
}

/// Assembles a new secret once every chosen server minted its slot: the
/// message is sealed once per threshold combination under that combination's
/// ordered share material. On success the sender record names every slot by
/// its ping id and carries the combinations as given; the receiver record
/// names every slot by its fetch id and carries, per combination, its indices
/// and its ciphertext. The whole creation fails — and neither record leaks —
/// exactly when some combination fails to seal.
pub fn process_new_secret(
    message: String,
    keys: Vec<(Server, CreatedKey)>,
    sets: Vec<KeyIndexArray>,
) -> (out: Result<(Sender, Receiver), String>)
    requires
        wf_index_sets(sets.deep_view(), keys@.len() as int),
    ensures
        match out {
            Ok(pair) => {
                &&& pair.0.keys@.len() == keys@.len()
                &&& forall|i: int|
                    0 <= i < keys@.len() ==> pair.0.keys@[i] == (Key {
                        host: (#[trigger] keys@[i]).0.host,
                        pk: keys@[i].0.pk,
                        id: keys@[i].1.sender,
                    })
                &&& pair.0.sets.deep_view() == sets.deep_view()
                &&& pair.0.wf()
                &&& pair.1.keys@.len() == keys@.len()
                &&& forall|i: int|
                    0 <= i < keys@.len() ==> pair.1.keys@[i] == (Key {
                        host: (#[trigger] keys@[i]).0.host,
                        pk: keys@[i].0.pk,
                        id: keys@[i].1.receiver,
                    })
                &&& pair.1.sets@.len() == sets@.len()
                &&& forall|i: int|
                    0 <= i < sets@.len() ==> (#[trigger] pair.1.sets@[i]).keys@ == sets@[i]@
                        && Some(pair.1.sets@[i].data@) == encrypt_spec(
                        message@,
                        spec_created_materials(keys@, sets@[i]@),
                    )
                &&& pair.1.wf()
            },
            Err(_) => exists|i: int|
                0 <= i < sets@.len() && encrypt_spec(
                    message@,
                    spec_created_materials(keys@, (#[trigger] sets@[i])@),
                ) is None,
        },
{
    proof {
        lemma_deep_view_elems(sets);
    }
    let key_count: usize = keys.len();
    let mut sender_keys: Vec<Key> = Vec::new();
    let mut receiver_keys: Vec<Key> = Vec::new();
    let mut i: usize = 0;
    while i < keys.len()
        invariant
            i <= keys.len(),
            sender_keys@.len() == i,
            receiver_keys@.len() == i,
            forall|k: int|
                0 <= k < i ==> sender_keys@[k] == (Key {
                    host: (#[trigger] keys@[k]).0.host,
                    pk: keys@[k].0.pk,
                    id: keys@[k].1.sender,
                }),
            forall|k: int|
                0 <= k < i ==> receiver_keys@[k] == (Key {
                    host: (#[trigger] keys@[k]).0.host,
                    pk: keys@[k].0.pk,
                    id: keys@[k].1.receiver,
                }),
        decreases keys.len() - i,
    {
        let (server, created) = &keys[i];
        sender_keys.push(
            Key { host: server.host.clone(), pk: server.pk.clone(), id: created.sender.clone() },
        );
        receiver_keys.push(
            Key {
                host: server.host.clone(),
                pk: server.pk.clone(),
                id: created.receiver.clone(),
            },
        );
        i = i + 1;
    }
    let mut receiver_sets: Vec<ReceiverKeySet> = Vec::new();
    let mut s: usize = 0;
    while s < sets.len()
        invariant
            s <= sets.len(),
            key_count == keys@.len(),
            wf_index_sets(sets.deep_view(), keys@.len() as int),
            sets.deep_view().len() == sets@.len(),
            forall|m: int| 0 <= m < sets@.len() ==> sets.deep_view()[m] == #[trigger] sets@[m]@,
            receiver_sets@.len() == s,
            forall|m: int|
                0 <= m < s ==> (#[trigger] receiver_sets@[m]).keys@ == sets@[m]@ && Some(
                    receiver_sets@[m].data@,
                ) == encrypt_spec(message@, spec_created_materials(keys@, sets@[m]@)),
        decreases sets.len() - s,
    {
        let set = &sets[s];
        assert(wf_index_set(set@, keys@.len() as int));
        let mut materials: Vec<String> = Vec::new();
        let mut j: usize = 0;
        while j < set.len()
            invariant
                j <= set.len(),
                key_count == keys@.len(),
                wf_index_set(set@, keys@.len() as int),
                materials@.len() == j,
                forall|m: int|
                    0 <= m < j ==> (#[trigger] materials@[m])@ == keys@[set@[m] as int].1.key@,
            decreases set.len() - j,
        {
            proof {
                assert((set@[j as int] as int) < keys@.len() as int);
            }
            let idx = set[j] as usize;
            assert(idx as int == set@[j as int] as int);
            materials.push(keys[idx].1.key.clone());
            j = j + 1;
        }
        assert(materials.deep_view() =~~= spec_created_materials(keys@, set@));
        match encrypt_with(&message, &materials) {
            Ok(data) => {
                receiver_sets.push(ReceiverKeySet { keys: duplicate_index_set(set), data });
            },
            Err(e) => {
                return Err("failed to set secret: ".to_owned().concat(e.as_str()));
            },
        }
        s = s + 1;
    }
    let sender = Sender { keys: sender_keys, sets };
    let receiver = Receiver { keys: receiver_keys, sets: receiver_sets };
    assert(sender.wf());
    assert(receiver.wf()) by {
        assert(forall|m: int|
            0 <= m < receiver.sets@.len() ==> crate::records::receiver_index_sets(receiver.sets@)[m]
                == (#[trigger] receiver.sets@[m]).keys@);
    }
    Ok((sender, receiver))
}

} // verus!
