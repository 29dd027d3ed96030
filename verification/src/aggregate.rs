//! The state-aggregation engine: the per-key states of one fan-out round plus
//! the record's threshold combinations become one aggregate state. The sender
//! aggregate is `Unlocked` exactly when at least one combination has every key
//! it names unlocked; the receiver aggregate is `Unlocked` exactly when at
//! least one combination is fully fetched and decrypts.

use vstd::prelude::*;

use crate::crypto::{decrypt_spec, decrypt_with};
use crate::outcome::{
    spec_receiver_key, spec_receiver_key_states, spec_sender_key, spec_sender_key_states,
    GetOutcome, PingOutcome, ReceiverKeyState, SenderKeyState,
};
use crate::records::{
    receiver_index_sets, wf_index_set, wf_index_sets, Key, KeyIndexArray, ReceiverKeySet,
};
use crate::vault::lemma_deep_view_elems;

verus! {

/// The aggregate a sender sees after one poll round: either no combination is
/// fully unlocked, or at least one is, which warns that the secret could now
/// be revealed.
#[derive(Clone, Debug, PartialEq, Eq)]
pub enum SenderState {
    Locked { keys: Vec<SenderKeyState>, sets: Vec<Vec<SenderKeyState>> },
    Unlocked {
        keys: Vec<SenderKeyState>,
        locked_sets: Vec<Vec<SenderKeyState>>,
        unlocked_sets: Vec<Vec<Key>>,
    },
}

/// A combination is satisfied when every key it names is unlocked.
pub open spec fn spec_sender_set_satisfied(states: Seq<SenderKeyState>, set: Seq<u64>) -> bool {
    forall|j: int| 0 <= j < set.len() ==> (#[trigger] states[set[j] as int]) is Unlocked
}

/// Whether any combination of the family is satisfied.
pub open spec fn spec_any_sender_set_satisfied(
    states: Seq<SenderKeyState>,
    sets: Seq<Seq<u64>>,
) -> bool {
    exists|i: int| 0 <= i < sets.len() && spec_sender_set_satisfied(states, #[trigger] sets[i])
}

/// The states of the keys one combination names, in combination order.
pub open spec fn spec_sender_set_states(states: Seq<SenderKeyState>, set: Seq<u64>) -> Seq<
    SenderKeyState,
> {
    Seq::new(set.len(), |j: int| states[set[j] as int])
}

/// The keys one combination names, in combination order.
pub open spec fn spec_sender_set_keys(states: Seq<SenderKeyState>, set: Seq<u64>) -> Seq<Key> {
    Seq::new(set.len(), |j: int| spec_sender_key(states[set[j] as int]))
}

/// The per-set key states of the combinations that are not satisfied, in
/// family order.
pub open spec fn spec_sender_locked_sets(states: Seq<SenderKeyState>, sets: Seq<Seq<u64>>) -> Seq<
    Seq<SenderKeyState>,
> {
    sets.filter(|s: Seq<u64>| !spec_sender_set_satisfied(states, s)).map_values(
        |s: Seq<u64>| spec_sender_set_states(states, s),
    )
}

/// The keys of the satisfied combinations, in family order.
pub open spec fn spec_sender_unlocked_sets(states: Seq<SenderKeyState>, sets: Seq<Seq<u64>>) -> Seq<
    Seq<Key>,
> {
    sets.filter(|s: Seq<u64>| spec_sender_set_satisfied(states, s)).map_values(
        |s: Seq<u64>| spec_sender_set_keys(states, s),
    )
}

/// Filtering a family extended by one combination keeps the old entries and
/// appends the new one exactly when it passes.
proof fn lemma_filter_push<A>(s: Seq<A>, pred: spec_fn(A) -> bool, x: A)
    ensures
        s.push(x).filter(pred) == if pred(x) {
            s.filter(pred).push(x)
        } else {
            s.filter(pred)
        },
{
    reveal(Seq::filter);
    assert(s.push(x).drop_last() =~= s);
    assert(s.push(x).last() == x);
}

/// The states, keys and satisfaction of one combination, gathered in order.
fn gather_sender_set(states: &Vec<SenderKeyState>, set: &KeyIndexArray) -> (out: (
    Vec<SenderKeyState>,
    Vec<Key>,
    bool,
))
    requires
        wf_index_set(set@, states@.len() as int),
    ensures
        out.0@ == spec_sender_set_states(states@, set@),
        out.1@ == spec_sender_set_keys(states@, set@),
        out.2 == spec_sender_set_satisfied(states@, set@),
{
    let key_count: usize = states.len();
    let mut set_states: Vec<SenderKeyState> = Vec::new();
    let mut set_keys: Vec<Key> = Vec::new();
    let mut satisfied = true;
    let mut j: usize = 0;
    while j < set.len()
        invariant
            j <= set.len(),
            key_count == states@.len(),
            wf_index_set(set@, states@.len() as int),
            set_states@.len() == j,
            set_keys@.len() == j,
            forall|m: int| 0 <= m < j ==> set_states@[m] == states@[#[trigger] set@[m] as int],
            forall|m: int| 0 <= m < j
                ==> set_keys@[m] == spec_sender_key(states@[#[trigger] set@[m] as int]),
            satisfied == (forall|m: int|
                0 <= m < j ==> (#[trigger] states@[set@[m] as int]) is Unlocked),
        decreases set.len() - j,
    {
        proof {
            assert((set@[j as int] as int) < states@.len() as int);
        }
        let idx = set[j] as usize;
        assert(idx as int == set@[j as int] as int);
        let state = &states[idx];
        if !state.is_unlocked() {
            satisfied = false;
        }
        set_keys.push(state.key());
        set_states.push(state.duplicate());
        j = j + 1;
    }
    assert(set_states@ =~= spec_sender_set_states(states@, set@));
    assert(set_keys@ =~= spec_sender_set_keys(states@, set@));
    (set_states, set_keys, satisfied)
}

/// Aggregates one poll round into the sender's view. The result is `Unlocked`
/// exactly when at least one threshold combination has every key it names
/// unlocked; states were classified fail-closed, so an unreachable server
/// never counts as unlocked. Either variant carries the per-key states, the
/// key states of every unsatisfied combination, and — when unlocked — the
/// keys of every satisfied combination, all in family order.
pub fn process_sender_state(keys_state: Vec<SenderKeyState>, sets: &Vec<KeyIndexArray>) -> (state:
    SenderState)
    requires
        wf_index_sets(sets.deep_view(), keys_state@.len() as int),
    ensures
        ({
            let states = keys_state@;
            let family = sets.deep_view();
            match state {
                SenderState::Locked { keys, sets: locked } => {
                    &&& !spec_any_sender_set_satisfied(states, family)
                    &&& keys@ == states
                    &&& locked@.len() == spec_sender_locked_sets(states, family).len()
                    &&& forall|k: int|
                        0 <= k < locked@.len() ==> (#[trigger] locked@[k])@
                            == spec_sender_locked_sets(states, family)[k]
                },
                SenderState::Unlocked { keys, locked_sets, unlocked_sets } => {
                    &&& spec_any_sender_set_satisfied(states, family)
                    &&& keys@ == states
                    &&& locked_sets@.len() == spec_sender_locked_sets(states, family).len()
                    &&& forall|k: int|
                        0 <= k < locked_sets@.len() ==> (#[trigger] locked_sets@[k])@
                            == spec_sender_locked_sets(states, family)[k]
                    &&& unlocked_sets@.len() == spec_sender_unlocked_sets(states, family).len()
                    &&& forall|k: int|
                        0 <= k < unlocked_sets@.len() ==> (#[trigger] unlocked_sets@[k])@
                            == spec_sender_unlocked_sets(states, family)[k]
                },
            }
        }),
{
    proof {
        lemma_deep_view_elems(*sets);
    }
    let ghost states = keys_state@;
    let ghost family = sets.deep_view();
    let ghost sat_pred = |s: Seq<u64>| spec_sender_set_satisfied(states, s);
    let ghost unsat_pred = |s: Seq<u64>| !spec_sender_set_satisfied(states, s);
    let mut locked_acc: Vec<Vec<SenderKeyState>> = Vec::new();
    let mut unlocked_acc: Vec<Vec<Key>> = Vec::new();
    let mut i: usize = 0;
    proof {
        reveal(Seq::filter);
        assert(family.subrange(0, 0) =~= Seq::<Seq<u64>>::empty());
    }
    while i < sets.len()
        invariant
            i <= sets.len(),
            states == keys_state@,
            family == sets.deep_view(),
            family.len() == sets@.len(),
            forall|m: int| 0 <= m < sets@.len() ==> family[m] == #[trigger] sets@[m]@,
            wf_index_sets(family, states.len() as int),
            sat_pred == (|s: Seq<u64>| spec_sender_set_satisfied(states, s)),
            unsat_pred == (|s: Seq<u64>| !spec_sender_set_satisfied(states, s)),
            locked_acc@.len() == family.subrange(0, i as int).filter(unsat_pred).len(),
            forall|k: int|
                0 <= k < locked_acc@.len() ==> (#[trigger] locked_acc@[k])@
                    == spec_sender_set_states(
                    states,
                    family.subrange(0, i as int).filter(unsat_pred)[k],
                ),
            unlocked_acc@.len() == family.subrange(0, i as int).filter(sat_pred).len(),
            forall|k: int|
                0 <= k < unlocked_acc@.len() ==> (#[trigger] unlocked_acc@[k])@
                    == spec_sender_set_keys(
                    states,
                    family.subrange(0, i as int).filter(sat_pred)[k],
                ),
            unlocked_acc@.len() > 0 <==> spec_any_sender_set_satisfied(
                states,
                family.subrange(0, i as int),
            ),
        decreases sets.len() - i,
    {
        assert(wf_index_set(family[i as int], states.len() as int));
        let (set_states, set_keys, satisfied) = gather_sender_set(&keys_state, &sets[i]);
        proof {
            assert(family.subrange(0, i + 1) =~= family.subrange(0, i as int).push(
                family[i as int],
            ));
            lemma_filter_push(family.subrange(0, i as int), sat_pred, family[i as int]);
            lemma_filter_push(family.subrange(0, i as int), unsat_pred, family[i as int]);
        }
        if satisfied {
            unlocked_acc.push(set_keys);
            proof {
                assert(spec_sender_set_satisfied(states, family[i as int]));
                assert(family.subrange(0, i + 1)[i as int] == family[i as int]);
                assert(spec_any_sender_set_satisfied(states, family.subrange(0, i + 1)));
            }
        } else {
            locked_acc.push(set_states);
            proof {
                if spec_any_sender_set_satisfied(states, family.subrange(0, i + 1)) {
                    let w = choose|w: int|
                        0 <= w < family.subrange(0, i + 1).len() && spec_sender_set_satisfied(
                            states,
                            #[trigger] family.subrange(0, i + 1)[w],
                        );
                    if w < i {
                        assert(family.subrange(0, i as int)[w] == family.subrange(0, i + 1)[w]);
                        assert(spec_any_sender_set_satisfied(
                            states,
                            family.subrange(0, i as int),
                        ));
                    }
                }
            }
        }
        i = i + 1;
    }
    proof {
        assert(family.subrange(0, family.len() as int) =~= family);
    }
    if unlocked_acc.is_empty() {
        SenderState::Locked { keys: keys_state, sets: locked_acc }
    } else {
        SenderState::Unlocked {
            keys: keys_state,
            locked_sets: locked_acc,
            unlocked_sets: unlocked_acc,
        }
    }
}

/// One combination the receiver could not turn into plaintext: its key states
/// and its ciphertext.
#[derive(Clone, Debug, PartialEq, Eq)]
pub struct ReceiverKeySetLocked {
    pub keys: Vec<ReceiverKeyState>,
    pub encrypted_data: String,
}

/// One combination that decrypted: its keys, its ciphertext and the recovered
/// plaintext.
#[derive(Clone, Debug, PartialEq, Eq)]
pub struct ReceiverKeySetUnlocked {
    pub keys: Vec<Key>,
    pub encrypted_data: String,
    pub decrypted_data: String,
}

/// The aggregate a receiver sees after one fetch round: `Unlocked` carries one
/// decrypted entry per combination that was fully fetched and combined.
#[derive(Clone, Debug, PartialEq, Eq)]
pub enum ReceiverState {
    Locked { keys: Vec<ReceiverKeyState>, sets: Vec<ReceiverKeySetLocked> },
    Unlocked {
        keys: Vec<ReceiverKeyState>,
        locked_sets: Vec<ReceiverKeySetLocked>,
        unlocked_sets: Vec<ReceiverKeySetUnlocked>,
    },
}

/// A combination is satisfied when every key it names handed its material out.
pub open spec fn spec_receiver_set_satisfied(states: Seq<ReceiverKeyState>, set: Seq<u64>) -> bool {
    forall|j: int| 0 <= j < set.len() ==> (#[trigger] states[set[j] as int]) is Unlocked
}

/// The states of the keys one combination names, in combination order.
pub open spec fn spec_receiver_set_states(states: Seq<ReceiverKeyState>, set: Seq<u64>) -> Seq<
    ReceiverKeyState,
> {
    Seq::new(set.len(), |j: int| states[set[j] as int])
}

/// The keys one combination names, in combination order.
pub open spec fn spec_receiver_set_keys(states: Seq<ReceiverKeyState>, set: Seq<u64>) -> Seq<Key> {
    Seq::new(set.len(), |j: int| spec_receiver_key(states[set[j] as int]))
}

/// The share material one key handed out; empty while it is locked.
pub open spec fn spec_receiver_material(state: ReceiverKeyState) -> Seq<char> {
    match state {
        ReceiverKeyState::Unlocked(u) => u.key@,
        ReceiverKeyState::Locked(_) => Seq::empty(),
    }
}

/// The ordered share material of the keys one combination names.
pub open spec fn spec_receiver_set_materials(states: Seq<ReceiverKeyState>, set: Seq<u64>) -> Seq<
    Seq<char>,
> {
    Seq::new(set.len(), |j: int| spec_receiver_material(states[set[j] as int]))
}

/// A combination combines when it is satisfied and its ciphertext decrypts
/// under its ordered material.
pub open spec fn spec_receiver_set_combines(
    states: Seq<ReceiverKeyState>,
    set: ReceiverKeySet,
) -> bool {
    spec_receiver_set_satisfied(states, set.keys@) && decrypt_spec(
        set.data@,
        spec_receiver_set_materials(states, set.keys@),
    ) is Some
}

/// Whether any combination of the family combines.
pub open spec fn spec_any_receiver_set_combines(
    states: Seq<ReceiverKeyState>,
    sets: Seq<ReceiverKeySet>,
) -> bool {
    exists|i: int|
        0 <= i < sets.len() && spec_receiver_set_combines(states, #[trigger] sets[i])
}

/// The states, keys, materials and satisfaction of one combination.
fn gather_receiver_set(states: &Vec<ReceiverKeyState>, set: &KeyIndexArray) -> (out: (
    Vec<ReceiverKeyState>,
    Vec<Key>,
    Vec<String>,
    bool,
))
    requires
        wf_index_set(set@, states@.len() as int),
    ensures
        out.0@ == spec_receiver_set_states(states@, set@),
        out.1@ == spec_receiver_set_keys(states@, set@),
        out.2.deep_view() == spec_receiver_set_materials(states@, set@),
        out.3 == spec_receiver_set_satisfied(states@, set@),
{
    let key_count: usize = states.len();
    let mut set_states: Vec<ReceiverKeyState> = Vec::new();
    let mut set_keys: Vec<Key> = Vec::new();
    let mut materials: Vec<String> = Vec::new();
    let mut satisfied = true;
    let mut j: usize = 0;
    while j < set.len()
        invariant
            j <= set.len(),
            key_count == states@.len(),
            wf_index_set(set@, states@.len() as int),
            set_states@.len() == j,
            set_keys@.len() == j,
            materials@.len() == j,
            forall|m: int| 0 <= m < j ==> set_states@[m] == states@[#[trigger] set@[m] as int],
            forall|m: int| 0 <= m < j
                ==> set_keys@[m] == spec_receiver_key(states@[#[trigger] set@[m] as int]),
            forall|m: int| 0 <= m < j
                ==> (#[trigger] materials@[m])@ == spec_receiver_material(
                    states@[set@[m] as int],
                ),
            satisfied == (forall|m: int|
                0 <= m < j ==> (#[trigger] states@[set@[m] as int]) is Unlocked),
        decreases set.len() - j,
    {
        proof {
            assert((set@[j as int] as int) < states@.len() as int);
        }
        let idx = set[j] as usize;
        assert(idx as int == set@[j as int] as int);
        let state = &states[idx];
        match state {
            ReceiverKeyState::Unlocked(u) => {
                materials.push(u.key.clone());
            },
            ReceiverKeyState::Locked(_) => {
                satisfied = false;
                materials.push(String::new());
            },
        }
        set_keys.push(state.key());
        set_states.push(state.duplicate());
        j = j + 1;
    }
    assert(set_states@ =~= spec_receiver_set_states(states@, set@));
    assert(set_keys@ =~= spec_receiver_set_keys(states@, set@));
    assert(materials.deep_view() =~~= spec_receiver_set_materials(states@, set@));
    (set_states, set_keys, materials, satisfied)
}

/// Aggregates one fetch round into the receiver's view. The result is
/// `Unlocked` exactly when at least one combination was fully fetched and its
/// ciphertext decrypted under the fetched material, and then carries one
/// decrypted entry per such combination, in family order and without
/// deduplication; every other combination appears among the locked sets with
/// its key states. A transport failure never counts as unlocked (states are
/// classified fail-closed before this step).
pub fn process_receiver_state(keys_state: Vec<ReceiverKeyState>, sets: &Vec<ReceiverKeySet>) -> (state: ReceiverState)
    requires
        wf_index_sets(receiver_index_sets(sets@), keys_state@.len() as int),
    ensures
        ({
            let states = keys_state@;
            let family = sets@;
            let failing = family.filter(|s: ReceiverKeySet| !spec_receiver_set_combines(states, s));
            let combining = family.filter(|s: ReceiverKeySet| spec_receiver_set_combines(states, s));
            match state {
                ReceiverState::Locked { keys, sets: locked } => {
                    &&& !spec_any_receiver_set_combines(states, family)
                    &&& keys@ == states
                    &&& locked@.len() == failing.len()
                    &&& forall|k: int|
                        0 <= k < locked@.len() ==> (#[trigger] locked@[k]).keys@
                            == spec_receiver_set_states(states, failing[k].keys@)
                            && locked@[k].encrypted_data == failing[k].data
                },
                ReceiverState::Unlocked { keys, locked_sets, unlocked_sets } => {
                    &&& spec_any_receiver_set_combines(states, family)
                    &&& keys@ == states
                    &&& locked_sets@.len() == failing.len()
                    &&& forall|k: int|
                        0 <= k < locked_sets@.len() ==> (#[trigger] locked_sets@[k]).keys@
                            == spec_receiver_set_states(states, failing[k].keys@)
                            && locked_sets@[k].encrypted_data == failing[k].data
                    &&& unlocked_sets@.len() == combining.len()
                    &&& forall|k: int|
                        0 <= k < unlocked_sets@.len() ==> (#[trigger] unlocked_sets@[k]).keys@
                            == spec_receiver_set_keys(states, combining[k].keys@)
                            && unlocked_sets@[k].encrypted_data == combining[k].data
                            && Some(unlocked_sets@[k].decrypted_data@) == decrypt_spec(
                            combining[k].data@,
                            spec_receiver_set_materials(states, combining[k].keys@),
                        )
                },
            }
        }),
{
    let ghost states = keys_state@;
    let ghost family = sets@;
    let ghost combine_pred = |s: ReceiverKeySet| spec_receiver_set_combines(states, s);
    let ghost fail_pred = |s: ReceiverKeySet| !spec_receiver_set_combines(states, s);
    let mut locked_acc: Vec<ReceiverKeySetLocked> = Vec::new();
    let mut unlocked_acc: Vec<ReceiverKeySetUnlocked> = Vec::new();
    let mut i: usize = 0;
    proof {
        reveal(Seq::filter);
        assert(family.subrange(0, 0) =~= Seq::<ReceiverKeySet>::empty());
    }
    while i < sets.len()
        invariant
            i <= sets.len(),
            states == keys_state@,
            family == sets@,
            wf_index_sets(receiver_index_sets(family), states.len() as int),
            combine_pred == (|s: ReceiverKeySet| spec_receiver_set_combines(states, s)),
            fail_pred == (|s: ReceiverKeySet| !spec_receiver_set_combines(states, s)),
            locked_acc@.len() == family.subrange(0, i as int).filter(fail_pred).len(),
            forall|k: int|
                0 <= k < locked_acc@.len() ==> (#[trigger] locked_acc@[k]).keys@
                    == spec_receiver_set_states(
                    states,
                    family.subrange(0, i as int).filter(fail_pred)[k].keys@,
                ) && locked_acc@[k].encrypted_data == family.subrange(0, i as int).filter(
                    fail_pred,
                )[k].data,
            unlocked_acc@.len() == family.subrange(0, i as int).filter(combine_pred).len(),
            forall|k: int|
                0 <= k < unlocked_acc@.len() ==> (#[trigger] unlocked_acc@[k]).keys@
                    == spec_receiver_set_keys(
                    states,
                    family.subrange(0, i as int).filter(combine_pred)[k].keys@,
                ) && unlocked_acc@[k].encrypted_data == family.subrange(0, i as int).filter(
                    combine_pred,
                )[k].data && Some(unlocked_acc@[k].decrypted_data@) == decrypt_spec(
                    family.subrange(0, i as int).filter(combine_pred)[k].data@,
                    spec_receiver_set_materials(
                        states,
                        family.subrange(0, i as int).filter(combine_pred)[k].keys@,
                    ),
                ),
            unlocked_acc@.len() > 0 <==> spec_any_receiver_set_combines(
                states,
                family.subrange(0, i as int),
            ),
        decreases sets.len() - i,
    {
        proof {
            assert(receiver_index_sets(family)[i as int] == family[i as int].keys@);
            assert(wf_index_set(family[i as int].keys@, states.len() as int));
        }
        let (set_states, set_keys, materials, satisfied) = gather_receiver_set(
            &keys_state,
            &sets[i].keys,
        );
        proof {
            assert(family.subrange(0, i + 1) =~= family.subrange(0, i as int).push(
                family[i as int],
            ));
            lemma_filter_push(family.subrange(0, i as int), combine_pred, family[i as int]);
            lemma_filter_push(family.subrange(0, i as int), fail_pred, family[i as int]);
        }
        let mut combined = false;
        if satisfied {
            match decrypt_with(&sets[i].data, &materials) {
                Ok(plaintext) => {
                    unlocked_acc.push(
                        ReceiverKeySetUnlocked {
                            keys: set_keys,
                            encrypted_data: sets[i].data.clone(),
                            decrypted_data: plaintext,
                        },
                    );
                    combined = true;
                    proof {
                        assert(spec_receiver_set_combines(states, family[i as int]));
                        assert(family.subrange(0, i + 1)[i as int] == family[i as int]);
                        assert(spec_any_receiver_set_combines(
                            states,
                            family.subrange(0, i + 1),
                        ));
                    }
                },
                Err(_) => {
                    locked_acc.push(
                        ReceiverKeySetLocked {
                            keys: set_states,
                            encrypted_data: sets[i].data.clone(),
                        },
                    );
                    assert(!spec_receiver_set_combines(states, family[i as int]));
                },
            }
        } else {
            locked_acc.push(
                ReceiverKeySetLocked { keys: set_states, encrypted_data: sets[i].data.clone() },
            );
            assert(!spec_receiver_set_combines(states, family[i as int]));
        }
        proof {
            if !combined {
                if spec_any_receiver_set_combines(states, family.subrange(0, i + 1)) {
                    let w = choose|w: int|
                        0 <= w < family.subrange(0, i + 1).len() && spec_receiver_set_combines(
                            states,
                            #[trigger] family.subrange(0, i + 1)[w],
                        );
                    if w < i {
                        assert(family.subrange(0, i as int)[w] == family.subrange(0, i + 1)[w]);
                        assert(spec_any_receiver_set_combines(
                            states,
                            family.subrange(0, i as int),
                        ));
                    }
                }
            }
        }
        i = i + 1;
    }
    proof {
        assert(family.subrange(0, family.len() as int) =~= family);
    }
    if unlocked_acc.is_empty() {
        ReceiverState::Locked { keys: keys_state, sets: locked_acc }
    } else {
        ReceiverState::Unlocked {
            keys: keys_state,
            locked_sets: locked_acc,
            unlocked_sets: unlocked_acc,
        }
    }
}

/// Law (fail-closed, sender side): a key whose outcome is a transport failure
/// is classified Locked, and no combination that names it is ever satisfied.
pub proof fn lemma_fail_closed_sender(
    results: Seq<(Key, Result<PingOutcome, String>)>,
    idx: u64,
    set: Seq<u64>,
)
    requires
        (idx as int) < results.len(),
        results[idx as int].1 is Err,
        set.contains(idx),
    ensures
        spec_sender_key_states(results)[idx as int] is Locked,
        !spec_sender_set_satisfied(spec_sender_key_states(results), set),
{
    let states = spec_sender_key_states(results);
    assert(states[idx as int] is Locked);
    if spec_sender_set_satisfied(states, set) {
        let j = choose|j: int| 0 <= j < set.len() && set[j] == idx;
        assert(states[set[j] as int] is Unlocked);
    }
}

/// Law (fail-closed, receiver side): a key whose outcome is a transport
/// failure is classified Locked, so no combination that names it is satisfied,
/// and none that names it ever combines into plaintext.
pub proof fn lemma_fail_closed_receiver(
    results: Seq<(Key, Result<GetOutcome, String>)>,
    idx: u64,
    set: Seq<u64>,
)
    requires
        (idx as int) < results.len(),
        results[idx as int].1 is Err,
        set.contains(idx),
    ensures
        spec_receiver_key_states(results)[idx as int] is Locked,
        !spec_receiver_set_satisfied(spec_receiver_key_states(results), set),
        forall|rs: ReceiverKeySet| rs.keys@ == set
            ==> !spec_receiver_set_combines(spec_receiver_key_states(results), rs),
{
    let states = spec_receiver_key_states(results);
    assert(states[idx as int] is Locked);
    if spec_receiver_set_satisfied(states, set) {
        let j = choose|j: int| 0 <= j < set.len() && set[j] == idx;
        assert(states[set[j] as int] is Unlocked);
    }
}

} // verus!
