//! Sums over finite sets, for counts that are kept beside what they count.

use vstd::prelude::*;

verus! {

/// The sum of the weights of `keys`.
pub open spec fn sum_of<K>(keys: Set<K>, weight: spec_fn(K) -> nat) -> nat
    decreases keys.len(),
    when keys.finite()
{
    if keys.len() == 0 {
        0
    } else {
        let key = keys.choose();
        weight(key) + sum_of(keys.remove(key), weight)
    }
}

/// Any one key's weight can be taken out of the sum.
pub proof fn lemma_sum_remove<K>(keys: Set<K>, weight: spec_fn(K) -> nat, key: K)
    requires
        keys.finite(),
        keys.contains(key),
    ensures
        sum_of(keys, weight) == weight(key) + sum_of(keys.remove(key), weight),
    decreases keys.len(),
{
    let first = keys.choose();
    if first != key {
        lemma_sum_remove(keys.remove(first), weight, key);
        lemma_sum_remove(keys.remove(key), weight, first);
        assert(keys.remove(first).remove(key) =~= keys.remove(key).remove(first));
    }
}

/// Weights that agree on every key give the same sum.
pub proof fn lemma_sum_agree<K>(keys: Set<K>, a: spec_fn(K) -> nat, b: spec_fn(K) -> nat)
    requires
        keys.finite(),
        forall|key: K| #[trigger] keys.contains(key) ==> a(key) == b(key),
    ensures
        sum_of(keys, a) == sum_of(keys, b),
    decreases keys.len(),
{
    if keys.len() > 0 {
        let first = keys.choose();
        lemma_sum_agree(keys.remove(first), a, b);
    }
}

/// A changed set and weight give a sum changed only by one key, when they
/// agree on every other key.
pub proof fn lemma_sum_changed_at<K>(
    before: Set<K>,
    after: Set<K>,
    a: spec_fn(K) -> nat,
    b: spec_fn(K) -> nat,
    key: K,
)
    requires
        before.finite(),
        after.remove(key) =~= before.remove(key),
        forall|other: K| #[trigger]
            before.contains(other) && other != key ==> a(other) == b(other),
    ensures
        after.finite(),
        sum_of(after, b) + if before.contains(key) {
            a(key)
        } else {
            0
        } == sum_of(before, a) + if after.contains(key) {
            b(key)
        } else {
            0
        },
{
    assert(after.remove(key).finite());
    if after.contains(key) {
        assert(after =~= after.remove(key).insert(key));
        lemma_sum_remove(after, b, key);
    } else {
        assert(after.remove(key) =~= after);
    }
    if before.contains(key) {
        lemma_sum_remove(before, a, key);
    } else {
        assert(before.remove(key) =~= before);
    }
    lemma_sum_agree(before.remove(key), a, b);
}

/// A sum is positive exactly when some key's weight is.
pub proof fn lemma_sum_positive<K>(keys: Set<K>, weight: spec_fn(K) -> nat)
    requires
        keys.finite(),
    ensures
        sum_of(keys, weight) > 0 <==> exists|key: K| #[trigger]
            keys.contains(key) && weight(key) > 0,
    decreases keys.len(),
{
    if keys.len() > 0 {
        let first = keys.choose();
        let rest = keys.remove(first);
        lemma_sum_positive(rest, weight);
        if sum_of(keys, weight) > 0 && weight(first) == 0 {
            let key = choose|key: K| #[trigger] rest.contains(key) && weight(key) > 0;
            assert(keys.contains(key) && weight(key) > 0);
        }
        if weight(first) > 0 {
            assert(keys.contains(first) && weight(first) > 0);
        }
        if exists|key: K| #[trigger] keys.contains(key) && weight(key) > 0 {
            let key = choose|key: K| #[trigger] keys.contains(key) && weight(key) > 0;
            lemma_sum_remove(keys, weight, key);
        }
    } else if exists|key: K| #[trigger] keys.contains(key) && weight(key) > 0 {
        let key = choose|key: K| #[trigger] keys.contains(key) && weight(key) > 0;
        assert(keys.remove(key).len() < keys.len());
    }
}

} // verus!
