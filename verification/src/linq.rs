use vstd::prelude::*;
use vstd::std_specs::hash::*;
use std::collections::HashMap;
use std::hash::Hash;

verus! {

/// The items of `items` to which `key` gives the key `k`, in their order.
pub open spec fn bucket<T, K, F: Fn(&T) -> K>(items: Seq<T>, key: F, k: K) -> Seq<T> {
    items.filter(|t: T| key.ensures((&t,), k))
}

/// Whether `key` has given a key to `item`.
pub open spec fn has_key<T, K, F: Fn(&T) -> K>(item: T, key: F) -> bool {
    exists|k: K| key.ensures((&item,), k)
}

/// Two predicates that agree on the items of a sequence filter it alike.
pub proof fn lemma_filter_same<T>(items: Seq<T>, p: spec_fn(T) -> bool, q: spec_fn(T) -> bool)
    requires
        forall|i: int| 0 <= i < items.len() ==> p(items[i]) == q(items[i]),
    ensures
        items.filter(p) == items.filter(q),
    decreases items.len(),
{
    reveal(Seq::filter);
    if items.len() > 0 {
        let front = items.drop_last();
        assert forall|i: int| 0 <= i < front.len() implies p(front[i]) == q(front[i]) by {
            assert(front[i] == items[i]);
        }
        lemma_filter_same(front, p, q);
    }
}

/// Where `key` gives the key `k` to just the items that `pred` holds of,
/// the bucket of `k` is the sequence filtered by `pred`.
pub proof fn lemma_bucket_is_filter<T, K, F: Fn(&T) -> K>(
    items: Seq<T>,
    key: F,
    k: K,
    pred: spec_fn(T) -> bool,
)
    requires
        forall|i: int| 0 <= i < items.len() ==> has_key::<T, K, F>(#[trigger] items[i], key),
        forall|t: T, j: K| key.ensures((&t,), j) ==> (j == k <==> pred(t)),
    ensures
        bucket(items, key, k) == items.filter(pred),
{
    let by_key = |t: T| key.ensures((&t,), k);
    assert forall|i: int| 0 <= i < items.len() implies by_key(items[i]) == pred(items[i]) by {
        let j = choose|j: K| key.ensures((&items[i],), j);
        assert(key.ensures((&items[i],), j));
    }
    lemma_filter_same(items, by_key, pred);
}

/// Partition by key: each key met is mapped to the items that have it, in
/// the order in which they stood.
pub trait GroupBy<T, K: Eq + Hash, F: Fn(&T) -> K>: View<V = Seq<T>> {
    /// Groups the items by the key that `key` gives to each. `key` must
    /// accept each of the items and give it one key only.
    fn group_by(&self, key: F) -> (groups: HashMap<K, Vec<T>>)
        requires
            obeys_key_model::<K>(),
            forall|i: int| 0 <= i < self@.len() ==> key.requires((&#[trigger] self@[i],)),
            forall|i: int, a: K, b: K|
                0 <= i < self@.len() && key.ensures((&#[trigger] self@[i],), a) && key.ensures(
                    (&self@[i],),
                    b,
                ) ==> a == b,
        ensures
            forall|i: int| 0 <= i < self@.len() ==> has_key::<T, K, F>(#[trigger] self@[i], key),
            forall|k: K| groups@.contains_key(k) <==> bucket(self@, key, k).len() > 0,
            forall|k: K| groups@.contains_key(k) ==> groups@[k]@ == bucket(self@, key, k),
    ;
}

impl<T: Copy, K: Eq + Hash, F: Fn(&T) -> K> GroupBy<T, K, F> for Vec<T> {
    fn group_by(&self, key: F) -> (groups: HashMap<K, Vec<T>>) {
        let mut groups: HashMap<K, Vec<T>> = HashMap::new();
        let mut i: usize = 0;
        while i < self.len()
            invariant
                i <= self.len(),
                obeys_key_model::<K>(),
                forall|i: int| 0 <= i < self@.len() ==> key.requires((&#[trigger] self@[i],)),
                forall|i: int, a: K, b: K|
                    0 <= i < self@.len() && key.ensures((&#[trigger] self@[i],), a) && key.ensures(
                        (&self@[i],),
                        b,
                    ) ==> a == b,
                forall|j: int| 0 <= j < i ==> has_key::<T, K, F>(#[trigger] self@[j], key),
                forall|k: K|
                    groups@.contains_key(k) <==> bucket(self@.take(i as int), key, k).len() > 0,
                forall|k: K|
                    groups@.contains_key(k) ==> groups@[k]@ == bucket(
                        self@.take(i as int),
                        key,
                        k,
                    ),
            decreases self.len() - i,
        {
            let item: T = self[i];
            let k: K = key(&item);
            let found = groups.remove(&k);
            let mut members: Vec<T> = match found {
                Some(v) => v,
                None => Vec::new(),
            };
            members.push(item);
            proof {
                let before = self@.take(i as int);
                let after = self@.take(i + 1);
                assert(after =~= before.push(item));
                assert forall|j: K| #[trigger]
                    bucket(after, key, j) == (if j == k {
                        bucket(before, key, j).push(item)
                    } else {
                        bucket(before, key, j)
                    }) by {
                    reveal(Seq::filter);
                    assert(after.drop_last() =~= before);
                }
            }
            groups.insert(k, members);
            assert(has_key::<T, K, F>(self@[i as int], key)) by {
                assert(key.ensures((&self@[i as int],), k));
            }
            i = i + 1;
        }
        assert(self@.take(i as int) =~= self@);
        groups
    }
}

/// Joining two sequences end to end.
pub trait Concat<T>: View<V = Seq<T>> {
    /// The items of `self` followed by those of `other`.
    fn concat(&self, other: &[T]) -> (joined: Vec<T>)
        ensures
            joined@ == self@ + other@,
    ;
}

impl<T: Copy> Concat<T> for Vec<T> {
    fn concat(&self, other: &[T]) -> (joined: Vec<T>) {
        let mut joined: Vec<T> = Vec::new();
        let mut i: usize = 0;
        while i < self.len()
            invariant
                i <= self.len(),
                joined@ == self@.take(i as int),
            decreases self.len() - i,
        {
            joined.push(self[i]);
            assert(self@.take(i + 1) =~= self@.take(i as int).push(self@[i as int]));
            i = i + 1;
        }
        assert(self@.take(i as int) =~= self@);
        let mut j: usize = 0;
        while j < other.len()
            invariant
                j <= other.len(),
                joined@ == self@ + other@.take(j as int),
            decreases other.len() - j,
        {
            joined.push(other[j]);
            assert(other@.take(j + 1) =~= other@.take(j as int).push(other@[j as int]));
            assert(self@ + other@.take(j + 1) =~= (self@ + other@.take(j as int)).push(
                other@[j as int],
            ));
            j = j + 1;
        }
        assert(other@.take(j as int) =~= other@);
        joined
    }
}

} // verus!
