//! The vault-configuration model: generating the canonical M-of-N threshold
//! combinations and classifying an arbitrary collection of combinations as
//! `Standard` (canonical M-of-N) or `Custom`.

use vstd::prelude::*;

use crate::records::KeyIndexArray;

verus! {

/// How a record's threshold combinations are classified for display: the
/// canonical "required of total" shape, or anything else.
#[derive(Clone, Copy, Debug, PartialEq, Eq, Structural)]
pub enum VaultConf {
    Standard { total: u64, required: u64 },
    Custom,
}

/// The binomial coefficient: how many `k`-element subsets an `n`-element set
/// has.
pub open spec fn binomial(n: nat, k: nat) -> nat
    decreases n,
{
    if k == 0 {
        1
    } else if n == 0 {
        0
    } else {
        binomial((n - 1) as nat, k) + binomial((n - 1) as nat, (k - 1) as nat)
    }
}

/// `binomial(n, k)` is zero exactly when the subsets asked for are larger than
/// the set.
pub proof fn lemma_binomial_zero(n: nat, k: nat)
    requires
        k > n,
    ensures
        binomial(n, k) == 0,
    decreases n,
{
    if n > 0 {
        lemma_binomial_zero((n - 1) as nat, k);
        lemma_binomial_zero((n - 1) as nat, (k - 1) as nat);
    }
}

/// An `n`-element set has exactly one `n`-element subset.
pub proof fn lemma_binomial_diagonal(n: nat)
    ensures
        binomial(n, n) == 1,
    decreases n,
{
    if n > 0 {
        lemma_binomial_zero((n - 1) as nat, n);
        lemma_binomial_diagonal((n - 1) as nat);
    }
}

/// Choosing no more elements than the set holds is always possible in at least
/// one way.
pub proof fn lemma_binomial_positive(n: nat, k: nat)
    requires
        k <= n,
    ensures
        binomial(n, k) >= 1,
    decreases n,
{
    if k > 0 {
        lemma_binomial_positive((n - 1) as nat, (k - 1) as nat);
    }
}

/// The indices `0, 1, .., len - 1`, in order.
pub open spec fn index_range(len: nat) -> Seq<u64> {
    Seq::new(len, |i: int| i as u64)
}

/// All combinations of `required` indices out of `0..total`, in the order the
/// generator emits them: combinations that avoid the last index first, then
/// those that end with it.
pub open spec fn spec_standard_sets(total: nat, required: nat) -> Seq<Seq<u64>>
    decreases total,
{
    if required == 0 || required >= total {
        seq![index_range(required)]
    } else {
        spec_standard_sets((total - 1) as nat, required) + spec_standard_sets(
            (total - 1) as nat,
            (required - 1) as nat,
        ).map_values(|s: Seq<u64>| s.push((total - 1) as u64))
    }
}

/// One threshold combination of a `required`-of-`total` vault: `required`
/// strictly increasing indices below `total`.
pub open spec fn is_combination(c: Seq<u64>, total: nat, required: nat) -> bool {
    &&& c.len() == required
    &&& forall|j: int| 0 <= j < c.len() ==> (#[trigger] c[j] as nat) < total
    &&& forall|j: int| 0 <= j < c.len() - 1 ==> #[trigger] c[j] < c[j + 1]
}

/// Appending a fresh element to a sequence inserts it into the sequence's set.
proof fn lemma_push_to_set(s: Seq<u64>, x: u64)
    ensures
        s.push(x).to_set() == s.to_set().insert(x),
{
    assert forall|e: u64| s.push(x).to_set().contains(e) <==> s.to_set().insert(x).contains(e) by {
        if s.push(x).contains(e) {
            let i = choose|i: int| 0 <= i < s.push(x).len() && s.push(x)[i] == e;
            if i < s.len() {
                assert(s[i] == e);
            }
        }
        if s.contains(e) {
            let i = choose|i: int| 0 <= i < s.len() && s[i] == e;
            assert(s.push(x)[i] == e);
        }
        if e == x {
            assert(s.push(x)[s.len() as int] == x);
        }
    }
    assert(s.push(x).to_set() =~= s.to_set().insert(x));
}

/// Inserting an element that two sets both lack keeps unequal sets unequal.
proof fn lemma_insert_fresh_preserves_neq(a: Set<u64>, b: Set<u64>, x: u64)
    requires
        a != b,
        !a.contains(x),
        !b.contains(x),
    ensures
        a.insert(x) != b.insert(x),
{
    if a.insert(x) == b.insert(x) {
        assert forall|e: u64| a.contains(e) <==> b.contains(e) by {
            if e != x {
                assert(a.insert(x).contains(e) <==> b.insert(x).contains(e));
            }
        }
        assert(a =~= b);
    }
}

/// Law: for `total >= required >= 1` (and also for the degenerate
/// `required == 0`), the generator emits exactly `binomial(total, required)`
/// combinations; each holds `required` strictly increasing indices below
/// `total`, and no two combinations name the same set of indices.
pub proof fn lemma_standard_sets_properties(total: nat, required: nat)
    requires
        required <= total,
        total <= u64::MAX,
    ensures
        spec_standard_sets(total, required).len() == binomial(total, required),
        forall|i: int| 0 <= i < spec_standard_sets(total, required).len()
            ==> is_combination(#[trigger] spec_standard_sets(total, required)[i], total, required),
        forall|i: int, j: int|
            0 <= i < j < spec_standard_sets(total, required).len()
                ==> spec_standard_sets(total, required)[i].to_set()
                    != spec_standard_sets(total, required)[j].to_set(),
    decreases total,
{
    let sets = spec_standard_sets(total, required);
    if required == 0 {
        assert(sets =~= seq![index_range(0)]);
        assert(index_range(0).len() == 0);
        assert(is_combination(index_range(0), total, 0));
    } else if required == total {
        lemma_binomial_diagonal(total);
        assert(sets.len() == 1);
        let c = index_range(required);
        assert forall|j: int| 0 <= j < c.len() implies (#[trigger] c[j] as nat) < total by {
            assert(c[j] == j as u64);
        }
        assert(is_combination(c, total, required));
    } else {
        let t1 = (total - 1) as nat;
        let without = spec_standard_sets(t1, required);
        let ends = spec_standard_sets(t1, (required - 1) as nat);
        let with = ends.map_values(|s: Seq<u64>| s.push((total - 1) as u64));
        lemma_standard_sets_properties(t1, required);
        lemma_standard_sets_properties(t1, (required - 1) as nat);
        let last = (total - 1) as u64;

        assert(sets =~= without + with);
        assert(sets.len() == binomial(total, required));

        // Every element of the first part is a combination that avoids `last`;
        // every element of the second part is a combination that ends with it.
        assert forall|i: int| 0 <= i < sets.len() implies is_combination(
            #[trigger] sets[i],
            total,
            required,
        ) by {
            if i < without.len() {
                assert(is_combination(without[i], t1, required));
            } else {
                let k = i - without.len();
                let base = ends[k];
                assert(is_combination(base, t1, (required - 1) as nat));
                let c = sets[i];
                assert(c == base.push(last));
                assert forall|j: int| 0 <= j < c.len() implies (#[trigger] c[j] as nat)
                    < total by {
                    if j < base.len() {
                        assert(c[j] == base[j]);
                    }
                }
                assert forall|j: int| 0 <= j < c.len() - 1 implies #[trigger] c[j] < c[j + 1] by {
                    if j + 1 < base.len() {
                        assert(c[j] == base[j] && c[j + 1] == base[j + 1]);
                    } else {
                        assert(c[j] == base[j] && c[j + 1] == last);
                        assert((base[j] as nat) < t1);
                    }
                }
            }
        }

        // Distinctness: within each part by induction; across the parts by
        // whether the combination contains `last`.
        assert forall|i: int, j: int| 0 <= i < j < sets.len() implies sets[i].to_set()
            != sets[j].to_set() by {
            if j < without.len() {
                assert(without[i].to_set() != without[j].to_set());
            } else if i >= without.len() {
                let a = ends[i - without.len()];
                let b = ends[j - without.len()];
                assert(a.to_set() != b.to_set());
                lemma_push_to_set(a, last);
                lemma_push_to_set(b, last);
                assert(!a.to_set().contains(last)) by {
                    assert(forall|e: u64| a.to_set().contains(e) ==> a.contains(e));
                    assert(forall|m: int| 0 <= m < a.len() ==> (#[trigger] a[m] as nat) < t1);
                }
                assert(!b.to_set().contains(last)) by {
                    assert(forall|m: int| 0 <= m < b.len() ==> (#[trigger] b[m] as nat) < t1);
                }
                lemma_insert_fresh_preserves_neq(a.to_set(), b.to_set(), last);
            } else {
                let a = without[i];
                let b = ends[j - without.len()];
                assert(sets[j] == b.push(last));
                lemma_push_to_set(b, last);
                assert(sets[j].to_set().contains(last));
                assert(!a.to_set().contains(last)) by {
                    assert(forall|m: int| 0 <= m < a.len() ==> (#[trigger] a[m] as nat) < t1);
                }
            }
        }
    }
}

/// Builds the vector `0, 1, .., len - 1`.
fn index_range_vec(len: u64) -> (v: KeyIndexArray)
    ensures
        v@ == index_range(len as nat),
{
    let mut v: KeyIndexArray = Vec::new();
    let mut i: u64 = 0;
    while i < len
        invariant
            i <= len,
            v@.len() == i,
            forall|k: int| 0 <= k < i ==> v@[k] == k as u64,
        decreases len - i,
    {
        v.push(i);
        i = i + 1;
    }
    assert(v@ =~= index_range(len as nat));
    v
}

/// Emits all combinations of `required` indices out of `0..total`, in the
/// generator's canonical order.
fn build_standard_sets(total: u64, required: u64) -> (sets: Vec<KeyIndexArray>)
    requires
        required <= total,
    ensures
        sets.deep_view() == spec_standard_sets(total as nat, required as nat),
    decreases total,
{
    if required == 0 || required == total {
        let mut sets: Vec<KeyIndexArray> = Vec::new();
        sets.push(index_range_vec(required));
        assert(sets.deep_view() =~~= spec_standard_sets(total as nat, required as nat));
        sets
    } else {
        let mut sets = build_standard_sets(total - 1, required);
        let ends = build_standard_sets(total - 1, required - 1);
        let ghost without = spec_standard_sets((total - 1) as nat, required as nat);
        let ghost ends_spec = spec_standard_sets((total - 1) as nat, (required - 1) as nat);
        let base_len: usize = sets.len();
        assert forall|m: int| 0 <= m < base_len implies #[trigger] sets@[m]@ == without[m] by {
            assert(sets.deep_view()[m] =~= sets@[m]@);
        }
        assert(ends@.len() == ends_spec.len());
        let mut k: usize = 0;
        while k < ends.len()
            invariant
                k <= ends.len(),
                1 <= total,
                sets@.len() == base_len + k,
                ends.deep_view() == ends_spec,
                ends@.len() == ends_spec.len(),
                base_len == without.len(),
                forall|m: int| 0 <= m < base_len ==> #[trigger] sets@[m]@ == without[m],
                forall|m: int| 0 <= m < k
                    ==> #[trigger] sets@[base_len + m]@ == ends_spec[m].push((total - 1) as u64),
            decreases ends.len() - k,
        {
            let mut combo = crate::records::duplicate_index_set(&ends[k]);
            combo.push(total - 1);
            assert(ends@[k as int]@ == ends_spec[k as int]) by {
                assert(ends.deep_view()[k as int] =~= ends@[k as int]@);
            }
            sets.push(combo);
            k = k + 1;
        }
        let ghost last = (total - 1) as u64;
        let ghost target = spec_standard_sets(total as nat, required as nat);
        assert(target =~= without + ends_spec.map_values(|s: Seq<u64>| s.push(last)));
        assert forall|m: int| 0 <= m < sets@.len() implies #[trigger] sets@[m]@ == target[m] by {
            if m >= base_len {
                let i = m - base_len;
                assert(sets@[base_len + i]@ == ends_spec[i].push(last));
                assert(target[m] == ends_spec.map_values(|s: Seq<u64>| s.push(last))[i]);
            }
        }
        assert(sets.deep_view() =~~= target);
        sets
    }
}

/// The canonical `required`-of-`total` combinations, lexicographically by
/// index; or an error when `required` is zero or larger than `total`, which
/// the scheme rejects.
pub fn generate_standard_vault_sets(total: u64, required: u64) -> (result: Result<
    Vec<KeyIndexArray>,
    String,
>)
    ensures
        match result {
            Ok(sets) => 1 <= required <= total && sets.deep_view() == spec_standard_sets(
                total as nat,
                required as nat,
            ),
            Err(_) => required == 0 || required > total,
        },
{
    if required == 0 {
        Err("a vault needs at least one required key".to_owned())
    } else if required > total {
        Err("a vault cannot require more keys than it has".to_owned())
    } else {
        Ok(build_standard_sets(total, required))
    }
}

/// Two combinations name the same indices: equal length and equal index sets.
pub open spec fn combo_eq(a: Seq<u64>, b: Seq<u64>) -> bool {
    a.len() == b.len() && a.to_set() == b.to_set()
}

/// Some combination of `list` names the same indices as `c`.
pub open spec fn has_match(c: Seq<u64>, list: Seq<Seq<u64>>) -> bool {
    exists|j: int| 0 <= j < list.len() && combo_eq(#[trigger] list[j], c)
}

/// Two collections are the same unordered family of combinations: equal
/// length, and each combination of one matches some combination of the other.
pub open spec fn sets_equivalent(a: Seq<Seq<u64>>, b: Seq<Seq<u64>>) -> bool {
    &&& a.len() == b.len()
    &&& forall|i: int| 0 <= i < a.len() ==> has_match(#[trigger] a[i], b)
    &&& forall|j: int| 0 <= j < b.len() ==> has_match(#[trigger] b[j], a)
}

/// Whether `set` holds the index `x`.
fn index_set_contains(set: &KeyIndexArray, x: u64) -> (found: bool)
    ensures
        found == set@.contains(x),
{
    let mut j: usize = 0;
    while j < set.len()
        invariant
            j <= set.len(),
            forall|m: int| 0 <= m < j ==> set@[m] != x,
        decreases set.len() - j,
    {
        if set[j] == x {
            assert(set@[j as int] == x);
            return true;
        }
        j = j + 1;
    }
    false
}

/// Whether two combinations name the same set of indices.
fn combos_match(a: &KeyIndexArray, b: &KeyIndexArray) -> (eq: bool)
    ensures
        eq == combo_eq(a@, b@),
{
    if a.len() != b.len() {
        return false;
    }
    let mut i: usize = 0;
    while i < a.len()
        invariant
            i <= a.len(),
            a@.len() == b@.len(),
            forall|m: int| 0 <= m < i ==> b@.contains(#[trigger] a@[m]),
        decreases a.len() - i,
    {
        if !index_set_contains(b, a[i]) {
            proof {
                assert(a@.to_set().contains(a@[i as int]));
                assert(!b@.to_set().contains(a@[i as int]));
            }
            return false;
        }
        i = i + 1;
    }
    let mut j: usize = 0;
    while j < b.len()
        invariant
            j <= b.len(),
            a@.len() == b@.len(),
            forall|m: int| 0 <= m < a@.len() ==> b@.contains(#[trigger] a@[m]),
            forall|m: int| 0 <= m < j ==> a@.contains(#[trigger] b@[m]),
        decreases b.len() - j,
    {
        if !index_set_contains(a, b[j]) {
            proof {
                assert(b@.to_set().contains(b@[j as int]));
                assert(!a@.to_set().contains(b@[j as int]));
            }
            return false;
        }
        j = j + 1;
    }
    proof {
        assert forall|e: u64| a@.to_set().contains(e) <==> b@.to_set().contains(e) by {
            if a@.contains(e) {
                let m = choose|m: int| 0 <= m < a@.len() && a@[m] == e;
                assert(b@.contains(a@[m]));
            }
            if b@.contains(e) {
                let m = choose|m: int| 0 <= m < b@.len() && b@[m] == e;
                assert(a@.contains(b@[m]));
            }
        }
        assert(a@.to_set() =~= b@.to_set());
    }
    true
}

/// The views of a combination list, element by element.
pub proof fn lemma_deep_view_elems(v: Vec<KeyIndexArray>)
    ensures
        v.deep_view().len() == v@.len(),
        forall|i: int| 0 <= i < v@.len() ==> v.deep_view()[i] == v@[i]@,
{
    assert forall|i: int| 0 <= i < v@.len() implies v.deep_view()[i] == v@[i]@ by {
        assert(v.deep_view()[i] =~= v@[i]@);
    }
}

/// Whether some combination of `list` names the same indices as `combo`.
fn contains_combo(list: &Vec<KeyIndexArray>, combo: &KeyIndexArray) -> (found: bool)
    ensures
        found == has_match(combo@, list.deep_view()),
{
    proof {
        lemma_deep_view_elems(*list);
    }
    let ghost ldv = list.deep_view();
    let mut j: usize = 0;
    while j < list.len()
        invariant
            j <= list.len(),
            ldv == list.deep_view(),
            ldv.len() == list@.len(),
            forall|m: int| 0 <= m < list@.len() ==> ldv[m] == #[trigger] list@[m]@,
            forall|m: int| 0 <= m < j ==> !combo_eq(#[trigger] ldv[m], combo@),
        decreases list.len() - j,
    {
        if combos_match(&list[j], combo) {
            assert(combo_eq(ldv[j as int], combo@));
            return true;
        }
        j = j + 1;
    }
    proof {
        if has_match(combo@, ldv) {
            let m = choose|m: int| 0 <= m < ldv.len() && combo_eq(ldv[m], combo@);
            assert(!combo_eq(ldv[m], combo@));
        }
    }
    false
}

/// Whether two collections are the same unordered family of combinations.
fn set_lists_match(a: &Vec<KeyIndexArray>, b: &Vec<KeyIndexArray>) -> (eq: bool)
    ensures
        eq == sets_equivalent(a.deep_view(), b.deep_view()),
{
    proof {
        lemma_deep_view_elems(*a);
        lemma_deep_view_elems(*b);
    }
    let ghost adv = a.deep_view();
    let ghost bdv = b.deep_view();
    if a.len() != b.len() {
        return false;
    }
    let mut i: usize = 0;
    while i < a.len()
        invariant
            i <= a.len(),
            a@.len() == b@.len(),
            adv == a.deep_view(),
            bdv == b.deep_view(),
            adv.len() == a@.len(),
            bdv.len() == b@.len(),
            forall|m: int| 0 <= m < a@.len() ==> adv[m] == #[trigger] a@[m]@,
            forall|m: int| 0 <= m < b@.len() ==> bdv[m] == #[trigger] b@[m]@,
            forall|m: int| 0 <= m < i ==> has_match(#[trigger] adv[m], bdv),
        decreases a.len() - i,
    {
        if !contains_combo(b, &a[i]) {
            proof {
                assert(!has_match(adv[i as int], bdv));
                if sets_equivalent(adv, bdv) {
                    assert(has_match(adv[i as int], bdv));
                }
            }
            return false;
        }
        assert(has_match(adv[i as int], bdv));
        i = i + 1;
    }
    let mut j: usize = 0;
    while j < b.len()
        invariant
            j <= b.len(),
            a@.len() == b@.len(),
            adv == a.deep_view(),
            bdv == b.deep_view(),
            adv.len() == a@.len(),
            bdv.len() == b@.len(),
            forall|m: int| 0 <= m < a@.len() ==> adv[m] == #[trigger] a@[m]@,
            forall|m: int| 0 <= m < b@.len() ==> bdv[m] == #[trigger] b@[m]@,
            forall|m: int| 0 <= m < adv.len() ==> has_match(#[trigger] adv[m], bdv),
            forall|m: int| 0 <= m < j ==> has_match(#[trigger] bdv[m], adv),
        decreases b.len() - j,
    {
        if !contains_combo(a, &b[j]) {
            proof {
                assert(!has_match(bdv[j as int], adv));
                if sets_equivalent(adv, bdv) {
                    assert(has_match(bdv[j as int], adv));
                }
            }
            return false;
        }
        assert(has_match(bdv[j as int], adv));
        j = j + 1;
    }
    true
}

/// Classification from `required` upward: the first `required` whose canonical
/// combinations match `sets` wins.
pub open spec fn spec_classify_from(sets: Seq<Seq<u64>>, total: nat, required: nat) -> VaultConf
    decreases total + 1 - required,
{
    if required > total {
        VaultConf::Custom
    } else if sets_equivalent(sets, spec_standard_sets(total, required)) {
        VaultConf::Standard { total: total as u64, required: required as u64 }
    } else {
        spec_classify_from(sets, total, required + 1)
    }
}

/// What `get_vault_conf` returns: `Standard { total, required }` for the
/// smallest `required` in `1..=total` whose canonical combinations equal
/// `sets` as an unordered family, else `Custom`. A vault with no keys is
/// always `Custom`.
pub open spec fn spec_classify(sets: Seq<Seq<u64>>, total: nat) -> VaultConf {
    spec_classify_from(sets, total, 1)
}

/// Classifies a record's threshold combinations against a key count: the
/// canonical `required`-of-`total` family for the smallest matching
/// `required`, else `Custom`.
pub fn get_vault_conf(sets: &Vec<KeyIndexArray>, total: u64) -> (conf: VaultConf)
    ensures
        conf == spec_classify(sets.deep_view(), total as nat),
{
    let mut required: u64 = total;
    let mut conf = VaultConf::Custom;
    while required >= 1
        invariant
            required <= total,
            conf == spec_classify_from(sets.deep_view(), total as nat, (required + 1) as nat),
        decreases required,
    {
        let standard = build_standard_sets(total, required);
        if set_lists_match(sets, &standard) {
            conf = VaultConf::Standard { total, required };
        }
        required = required - 1;
    }
    conf
}

/// Law: the canonical combinations of a `required`-of-`total` vault are
/// classified as exactly `Standard { total, required }`.
pub proof fn lemma_classify_standard_sets(total: nat, required: nat)
    requires
        1 <= required <= total,
        total <= u64::MAX,
    ensures
        spec_classify(spec_standard_sets(total, required), total) == (VaultConf::Standard {
            total: total as u64,
            required: required as u64,
        }),
{
    lemma_classify_standard_from(total, required, 1);
}

/// Classification from any point at or below `required` still finds the
/// canonical family at `required`: no smaller size matches it.
proof fn lemma_classify_standard_from(total: nat, required: nat, from: nat)
    requires
        1 <= from <= required <= total,
        total <= u64::MAX,
    ensures
        spec_classify_from(spec_standard_sets(total, required), total, from)
            == (VaultConf::Standard { total: total as u64, required: required as u64 }),
    decreases required - from,
{
    let s = spec_standard_sets(total, required);
    lemma_standard_sets_properties(total, required);
    lemma_binomial_positive(total, required);
    if from == required {
        assert forall|i: int| 0 <= i < s.len() implies has_match(#[trigger] s[i], s) by {
            assert(combo_eq(s[i], s[i]));
        }
        assert(sets_equivalent(s, s));
    } else {
        let t = spec_standard_sets(total, from);
        lemma_standard_sets_properties(total, from);
        lemma_binomial_positive(total, from);
        if sets_equivalent(s, t) {
            assert(s.len() >= 1);
            assert(is_combination(s[0], total, required));
            assert(has_match(s[0], t));
            let j = choose|j: int| 0 <= j < t.len() && combo_eq(#[trigger] t[j], s[0]);
            assert(is_combination(t[j], total, from));
            assert(false);
        }
        lemma_classify_standard_from(total, required, from + 1);
    }
}

} // verus!
