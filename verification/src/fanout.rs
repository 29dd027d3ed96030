//! The ordering kernel of the concurrent fan-out executor: one round issues a
//! remote call per input position, the calls complete in any order, and each
//! completion carries its input index. Restoring by index yields the outcomes
//! in input order, whatever order they arrived in.

use vstd::prelude::*;

verus! {

/// Some completion arrived under input index `i`.
pub open spec fn some_completion_has_index<T>(completions: Seq<(usize, T)>, i: int) -> bool {
    exists|k: int| 0 <= k < completions.len() && (#[trigger] completions[k]).0 == i
}

/// A full round of completions for `n` calls: one entry per input index, each
/// index below `n` appearing exactly once, in arbitrary arrival order.
pub open spec fn is_completion_of<T>(completions: Seq<(usize, T)>, n: nat) -> bool {
    &&& completions.len() == n
    &&& forall|k: int| 0 <= k < completions.len() ==> (#[trigger] completions[k]).0 < n
    &&& forall|k1: int, k2: int|
        0 <= k1 < k2 < completions.len() ==> (#[trigger] completions[k1]).0 != (
        #[trigger] completions[k2]).0
    &&& forall|i: int| 0 <= i < n ==> #[trigger] some_completion_has_index(completions, i)
}

/// The outcomes in input order: position `i` holds the outcome completed under
/// index `i`.
pub open spec fn spec_restored<T>(completions: Seq<(usize, T)>, n: nat) -> Seq<T> {
    Seq::new(
        n,
        |i: int|
            {
                let k = choose|k: int|
                    0 <= k < completions.len() && (#[trigger] completions[k]).0 == i;
                completions[k].1
            },
    )
}

/// In a full round, the restored position of every completion holds that
/// completion's outcome.
pub proof fn lemma_restored_points<T>(completions: Seq<(usize, T)>, n: nat, k: int)
    requires
        is_completion_of(completions, n),
        0 <= k < completions.len(),
    ensures
        spec_restored(completions, n)[completions[k].0 as int] == completions[k].1,
{
    let i = completions[k].0 as int;
    assert(some_completion_has_index(completions, i));
    let k0 = choose|k0: int| 0 <= k0 < completions.len() && (#[trigger] completions[k0]).0 == i;
    if k0 != k {
        if k0 < k {
            assert(completions[k0].0 != completions[k].0);
        } else {
            assert(completions[k].0 != completions[k0].0);
        }
    }
}

/// Reorders one round's completions into input order: position `i` of the
/// result holds the outcome that completed under index `i`, however late it
/// arrived.
pub fn restore_order<T>(n: usize, completions: Vec<(usize, T)>) -> (ordered: Vec<T>)
    requires
        is_completion_of(completions@, n as nat),
    ensures
        ordered@.len() == n,
        ordered@ == spec_restored(completions@, n as nat),
        forall|k: int|
            0 <= k < completions@.len() ==> ordered@[(#[trigger] completions@[k]).0 as int]
                == completions@[k].1,
{
    let ghost all = completions@;
    let ghost target = spec_restored(all, n as nat);
    let mut slots: Vec<Option<T>> = Vec::new();
    let mut i: usize = 0;
    while i < n
        invariant
            i <= n,
            slots@.len() == i,
        decreases n - i,
    {
        slots.push(None);
        i = i + 1;
    }
    let mut pending = completions;
    proof {
        assert(pending@ =~= all.subrange(0, pending@.len() as int));
    }
    while pending.len() > 0
        invariant
            slots@.len() == n,
            is_completion_of(all, n as nat),
            pending@.len() <= all.len(),
            pending@ == all.subrange(0, pending@.len() as int),
            forall|k: int|
                pending@.len() <= k < all.len() ==> slots@[(#[trigger] all[k]).0 as int]
                    == Some(all[k].1),
        decreases pending.len(),
    {
        let ghost consumed = pending@.len() - 1;
        let popped = pending.pop();
        match popped {
            Some(entry) => {
                proof {
                    assert(all[consumed] == entry);
                    assert((entry.0 as int) < n as int);
                    assert(pending@ =~= all.subrange(0, pending@.len() as int));
                }
                let (idx, outcome) = entry;
                slots.set(idx, Some(outcome));
                proof {
                    assert forall|k: int|
                        pending@.len() <= k < all.len() implies slots@[(
                        #[trigger] all[k]).0 as int] == Some(all[k].1) by {
                        if k > consumed {
                            assert(all[consumed].0 != all[k].0);
                        }
                    }
                }
            },
            None => {},
        }
    }
    proof {
        assert forall|i0: int| 0 <= i0 < n implies slots@[i0] == Some(target[i0]) by {
            assert(some_completion_has_index(all, i0));
            let k = choose|k: int| 0 <= k < all.len() && (#[trigger] all[k]).0 == i0;
            assert(slots@[all[k].0 as int] == Some(all[k].1));
        }
    }
    let mut reversed: Vec<T> = Vec::new();
    while slots.len() > 0
        invariant
            slots@.len() + reversed@.len() == n,
            forall|i0: int| 0 <= i0 < slots@.len() ==> slots@[i0] == Some(target[i0]),
            forall|m: int|
                0 <= m < reversed@.len() ==> reversed@[m] == target[n - 1 - m],
        decreases slots.len(),
    {
        match slots.pop() {
            Some(Some(outcome)) => {
                reversed.push(outcome);
            },
            _ => {
                proof {
                    assert(false);
                }
            },
        }
    }
    let mut ordered: Vec<T> = Vec::new();
    while reversed.len() > 0
        invariant
            reversed@.len() + ordered@.len() == n,
            forall|m: int|
                0 <= m < reversed@.len() ==> reversed@[m] == target[n - 1 - m],
            forall|m: int| 0 <= m < ordered@.len() ==> ordered@[m] == target[m],
        decreases reversed.len(),
    {
        match reversed.pop() {
            Some(outcome) => {
                ordered.push(outcome);
            },
            None => {},
        }
    }
    assert(ordered@ =~= target);
    proof {
        assert forall|k: int|
            0 <= k < all.len() implies ordered@[(#[trigger] all[k]).0 as int] == all[k].1 by {
            lemma_restored_points(all, n as nat, k);
        }
    }
    ordered
}

/// Law: a fan-out whose calls complete in exactly reverse input order still
/// yields the outcomes in input order: position `i` holds call `i`'s outcome.
pub proof fn lemma_reverse_completions_keep_input_order<T>(completions: Seq<(usize, T)>, n: nat)
    requires
        completions.len() == n,
        forall|k: int| 0 <= k < n ==> (#[trigger] completions[k]).0 == n - 1 - k,
    ensures
        is_completion_of(completions, n),
        forall|i: int|
            0 <= i < n ==> spec_restored(completions, n)[i]
                == (#[trigger] completions[n - 1 - i]).1,
{
    assert forall|i: int| 0 <= i < n implies #[trigger] some_completion_has_index(
        completions,
        i,
    ) by {
        assert(completions[n - 1 - i].0 == i);
    }
    assert forall|i: int| 0 <= i < n implies spec_restored(completions, n)[i] == (
    #[trigger] completions[n - 1 - i]).1 by {
        lemma_restored_points(completions, n, n - 1 - i);
    }
}

} // verus!
