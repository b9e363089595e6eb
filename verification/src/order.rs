//! Orders on keys, and stable sorting by key.
//!
//! A key is a finite sequence of numbers. Keys are compared number by number, and a key that is a
//! proper beginning of another one comes first.
use crate::sums::{picked_adds, picked_nothing, picked_one, picked_push};
use vstd::prelude::*;

verus! {

/// `a` and `b` agree below `k`, and at `k` either `a` has ended or holds the smaller number.
pub open spec fn precedes_at(a: Seq<u64>, b: Seq<u64>, k: int) -> bool {
    &&& 0 <= k < b.len()
    &&& k <= a.len()
    &&& forall|i: int| 0 <= i < k ==> #[trigger] a[i] == b[i]
    &&& k == a.len() || a[k] < b[k]
}

/// The key `a` comes strictly before the key `b`.
pub open spec fn precedes(a: Seq<u64>, b: Seq<u64>) -> bool {
    exists|k: int| #[trigger] precedes_at(a, b, k)
}

/// No key comes before itself.
pub proof fn precedes_irreflexive(a: Seq<u64>)
    ensures
        !precedes(a, a),
{
}

/// If `a` comes before `b` and `b` before `c`, then `a` comes before `c`.
pub proof fn precedes_transitive(a: Seq<u64>, b: Seq<u64>, c: Seq<u64>)
    requires
        precedes(a, b),
        precedes(b, c),
    ensures
        precedes(a, c),
{
    let k = choose|k: int| precedes_at(a, b, k);
    let m = choose|m: int| precedes_at(b, c, m);
    if k <= m {
        assert(forall|i: int| 0 <= i < k ==> #[trigger] a[i] == c[i]) by {
            assert(forall|i: int| 0 <= i < k ==> #[trigger] a[i] == b[i]);
            assert(forall|i: int| 0 <= i < k ==> #[trigger] b[i] == c[i]);
        }
        assert(precedes_at(a, c, k));
    } else {
        assert(forall|i: int| 0 <= i < m ==> #[trigger] a[i] == c[i]) by {
            assert(forall|i: int| 0 <= i < m ==> #[trigger] a[i] == b[i]);
            assert(forall|i: int| 0 <= i < m ==> #[trigger] b[i] == c[i]);
        }
        assert(a[m] == b[m]);
        assert(precedes_at(a, c, m));
    }
}

/// Of two different keys one comes before the other.
pub proof fn precedes_total(a: Seq<u64>, b: Seq<u64>)
    ensures
        a == b || precedes(a, b) || precedes(b, a),
{
    first_difference(a, b, 0);
}

proof fn first_difference(a: Seq<u64>, b: Seq<u64>, k: int)
    requires
        0 <= k <= a.len(),
        k <= b.len(),
        forall|i: int| 0 <= i < k ==> #[trigger] a[i] == b[i],
    ensures
        a == b || precedes(a, b) || precedes(b, a),
    decreases a.len() - k,
{
    if k == a.len() && k == b.len() {
        assert(a =~= b);
    } else if k == a.len() {
        assert(precedes_at(a, b, k));
    } else if k == b.len() {
        assert(precedes_at(b, a, k));
    } else if a[k] < b[k] {
        assert(precedes_at(a, b, k));
    } else if b[k] < a[k] {
        assert(precedes_at(b, a, k));
    } else {
        first_difference(a, b, k + 1);
    }
}

/// Two keys cannot come before each other.
pub proof fn precedes_asymmetric(a: Seq<u64>, b: Seq<u64>)
    requires
        precedes(a, b),
    ensures
        !precedes(b, a),
        a != b,
{
    if precedes(b, a) {
        precedes_transitive(a, b, a);
        precedes_irreflexive(a);
    }
    precedes_irreflexive(a);
}

/// Whether the key `a` comes strictly before the key `b`.
pub fn key_before(a: &Vec<u64>, b: &Vec<u64>) -> (before: bool)
    ensures
        before == precedes(a@, b@),
{
    let mut k: usize = 0;
    while k < a.len() && k < b.len() && a[k] == b[k]
        invariant
            k <= a.len(),
            k <= b.len(),
            forall|i: int| 0 <= i < k ==> #[trigger] a@[i] == b@[i],
        decreases a.len() - k,
    {
        k += 1;
    }
    let before = k < b.len() && (k == a.len() || a[k] < b[k]);
    proof {
        if before {
            assert(precedes_at(a@, b@, k as int));
        } else if precedes(a@, b@) {
            let m = choose|m: int| precedes_at(a@, b@, m);
            if m < k {
                assert(a@[m] == b@[m]);
            } else if m > k {
                assert(a@[k as int] == b@[k as int]);
            }
        }
    }
    before
}

/// Whether two keys are the same.
pub fn key_equal(a: &Vec<u64>, b: &Vec<u64>) -> (equal: bool)
    ensures
        equal == (a@ == b@),
{
    if a.len() != b.len() {
        return false;
    }
    let mut k: usize = 0;
    while k < a.len()
        invariant
            a.len() == b.len(),
            k <= a.len(),
            forall|i: int| 0 <= i < k ==> #[trigger] a@[i] == b@[i],
        decreases a.len() - k,
    {
        if a[k] != b[k] {
            assert(a@[k as int] != b@[k as int]);
            return false;
        }
        k += 1;
    }
    assert(a@ =~= b@);
    true
}

/// Something that is put in order by a key.
pub trait Keyed: Sized {
    /// The key.
    spec fn sort_key(&self) -> Seq<u64>;

    /// Computes the key.
    fn make_key(&self) -> (key: Vec<u64>)
        ensures
            key@ == self.sort_key(),
    ;
}

/// Where a new element with the key `key` goes: behind the last element whose key does not come
/// after it.
pub open spec fn slot_for<T: Keyed>(items: Seq<T>, key: Seq<u64>) -> int
    decreases items.len(),
{
    if items.len() == 0 {
        0
    } else if precedes(key, items.last().sort_key()) {
        slot_for(items.drop_last(), key)
    } else {
        items.len() as int
    }
}

/// `items` in the order of their keys; those with the same key keep their order.
pub open spec fn stable_sorted<T: Keyed>(items: Seq<T>) -> Seq<T>
    decreases items.len(),
{
    if items.len() == 0 {
        items
    } else {
        let front = stable_sorted(items.drop_last());
        front.insert(slot_for(front, items.last().sort_key()), items.last())
    }
}

/// No element of `items` has a key that comes before that of an earlier one.
pub open spec fn in_order<T: Keyed>(items: Seq<T>) -> bool {
    forall|i: int, j: int|
        0 <= i < j < items.len() ==> !precedes(
            (#[trigger] items[j]).sort_key(),
            (#[trigger] items[i]).sort_key(),
        )
}

/// The slot lies inside the sequence; in a sorted one everything before it has a key that is not
/// after `key`, and everything behind it a key that is.
pub proof fn slot_for_splits<T: Keyed>(items: Seq<T>, key: Seq<u64>)
    ensures
        0 <= slot_for(items, key) <= items.len(),
        forall|i: int|
            slot_for(items, key) <= i < items.len() ==> precedes(key, (#[trigger] items[i]).sort_key()),
        in_order(items) ==> forall|i: int|
            0 <= i < slot_for(items, key) ==> !precedes(key, (#[trigger] items[i]).sort_key()),
    decreases items.len(),
{
    if items.len() > 0 {
        if precedes(key, items.last().sort_key()) {
            slot_for_splits(items.drop_last(), key);
            assert forall|i: int| slot_for(items, key) <= i < items.len() implies precedes(
                key,
                (#[trigger] items[i]).sort_key(),
            ) by {
                if i < items.len() - 1 {
                    assert(items.drop_last()[i] == items[i]);
                }
            }
            if in_order(items) {
                assert(in_order(items.drop_last()));
                assert forall|i: int| 0 <= i < slot_for(items, key) implies !precedes(
                    key,
                    (#[trigger] items[i]).sort_key(),
                ) by {
                    assert(items.drop_last()[i] == items[i]);
                }
            }
        } else if in_order(items) {
            assert forall|i: int| 0 <= i < items.len() implies !precedes(
                key,
                (#[trigger] items[i]).sort_key(),
            ) by {
                let last = items.last().sort_key();
                if precedes(key, items[i].sort_key()) && i < items.len() - 1 {
                    assert(!precedes(items[items.len() - 1].sort_key(), items[i].sort_key()));
                    precedes_total(last, items[i].sort_key());
                    if last != items[i].sort_key() {
                        precedes_transitive(key, items[i].sort_key(), last);
                    }
                }
            }
        }
    }
}

/// Sorting puts the elements in order and neither loses nor invents one.
pub proof fn stable_sorted_is_sorted<T: Keyed>(items: Seq<T>)
    ensures
        in_order(stable_sorted(items)),
        stable_sorted(items).to_multiset() == items.to_multiset(),
        stable_sorted(items).len() == items.len(),
    decreases items.len(),
{
    if items.len() > 0 {
        let x = items.last();
        let front = stable_sorted(items.drop_last());
        let p = slot_for(front, x.sort_key());
        stable_sorted_is_sorted(items.drop_last());
        slot_for_splits(front, x.sort_key());
        let all = front.insert(p, x);
        assert forall|i: int, j: int| 0 <= i < j < all.len() implies !precedes(
            (#[trigger] all[j]).sort_key(),
            (#[trigger] all[i]).sort_key(),
        ) by {
            if i < p && j == p {
                assert(all[i] == front[i]);
            } else if i == p && j > p {
                assert(all[j] == front[j - 1]);
                precedes_asymmetric(x.sort_key(), front[j - 1].sort_key());
            } else {
                let a = if i < p { i } else { i - 1 };
                let b = if j < p { j } else { j - 1 };
                assert(all[i] == front[a]);
                assert(all[j] == front[b]);
            }
        }
        front.insert_ensures(p, x);
        items.drop_last().to_multiset_ensures();
        front.to_multiset_ensures();
        assert(items =~= items.drop_last().push(x));
        assert(items.to_multiset() =~= items.drop_last().to_multiset().insert(x));
        assert(all =~= front.take(p) + seq![x] + front.skip(p));
        assert(front.take(p) + front.skip(p) =~= front);
        vstd::seq_lib::lemma_multiset_commutative(front.take(p), front.skip(p));
        vstd::seq_lib::lemma_multiset_commutative(front.take(p) + seq![x], front.skip(p));
        front.take(p).to_multiset_ensures();
        assert(front.take(p).push(x) =~= front.take(p) + seq![x]);
        assert(all.to_multiset() =~= front.to_multiset().insert(x));
        assert(stable_sorted(items) == all);
    }
}

/// Sorting keeps the order of elements with the same key.
pub proof fn sorting_is_stable<T: Keyed>(items: Seq<T>, key: Seq<u64>)
    ensures
        stable_sorted(items).filter(|item: T| item.sort_key() == key) == items.filter(
            |item: T| item.sort_key() == key,
        ),
    decreases items.len(),
{
    let p = |item: T| item.sort_key() == key;
    if items.len() > 0 {
        let x = items.last();
        let front = stable_sorted(items.drop_last());
        let at = slot_for(front, x.sort_key());
        sorting_is_stable(items.drop_last(), key);
        slot_for_splits(front, x.sort_key());
        let a = front.take(at);
        let b = front.skip(at);
        assert(front =~= a + b);
        assert(stable_sorted(items) =~= (a + seq![x]) + b);
        picked_adds(a, b, p);
        picked_adds(a, seq![x], p);
        picked_adds(a + seq![x], b, p);
        picked_one(x, p);
        picked_push(items.drop_last(), x, p);
        assert(items =~= items.drop_last().push(x));
        if p(x) {
            assert forall|i: int| 0 <= i < b.len() implies !p(#[trigger] b[i]) by {
                assert(b[i] == front[at + i]);
                precedes_asymmetric(x.sort_key(), front[at + i].sort_key());
            }
            picked_nothing(b, p);
            assert(a.filter(p) + b.filter(p) =~= a.filter(p));
            assert(stable_sorted(items).filter(p) =~= a.filter(p).push(x));
        } else {
            assert(stable_sorted(items).filter(p) =~= a.filter(p) + b.filter(p));
        }
    }
}

/// Sorts by key; elements with the same key keep their order.
pub fn sort_by_key<T: Keyed>(items: Vec<T>) -> (sorted: Vec<T>)
    ensures
        sorted@ == stable_sorted(items@),
{
    let ghost all = items@;
    let mut rest = items;
    let mut pending: Vec<T> = Vec::new();
    while rest.len() > 0
        invariant
            rest@.len() + pending@.len() == all.len(),
            forall|i: int| 0 <= i < rest@.len() ==> rest@[i] == #[trigger] all[i],
            forall|i: int| 0 <= i < pending@.len() ==> #[trigger] pending@[i] == all[all.len() - 1 - i],
        decreases rest@.len(),
    {
        let x = rest.pop().unwrap();
        pending.push(x);
    }
    let mut sorted: Vec<T> = Vec::new();
    let mut keys: Vec<Vec<u64>> = Vec::new();
    let ghost mut n: int = 0;
    assert(stable_sorted(all.take(0)) =~= sorted@);
    while pending.len() > 0
        invariant
            0 <= n <= all.len(),
            n + pending@.len() == all.len(),
            forall|i: int| 0 <= i < pending@.len() ==> #[trigger] pending@[i] == all[all.len() - 1 - i],
            sorted@ == stable_sorted(all.take(n)),
            keys@.len() == sorted@.len(),
            forall|i: int| 0 <= i < keys@.len() ==> (#[trigger] keys@[i])@ == sorted@[i].sort_key(),
        decreases pending@.len(),
    {
        let x = pending.pop().unwrap();
        assert(x == all[n]);
        let key = x.make_key();
        let mut p: usize = sorted.len();
        assert(sorted@.take(p as int) =~= sorted@);
        while p > 0 && key_before(&key, &keys[p - 1])
            invariant
                p <= sorted@.len(),
                keys@.len() == sorted@.len(),
                forall|i: int| 0 <= i < keys@.len() ==> (#[trigger] keys@[i])@ == sorted@[i].sort_key(),
                slot_for(sorted@, key@) == slot_for(sorted@.take(p as int), key@),
            decreases p,
        {
            assert(sorted@.take(p as int).last() == sorted@[p - 1]);
            assert(sorted@.take(p as int).drop_last() =~= sorted@.take(p - 1));
            p -= 1;
        }
        proof {
            if p > 0 {
                assert(sorted@.take(p as int).last() == sorted@[p - 1]);
            }
            assert(slot_for(sorted@, key@) == p);
            assert(all.take(n + 1).last() == x);
            assert(all.take(n + 1).drop_last() =~= all.take(n));
        }
        let ghost before_keys = keys@;
        let ghost before = sorted@;
        sorted.insert(p, x);
        keys.insert(p, key);
        proof {
            n = n + 1;
            assert forall|i: int| 0 <= i < keys@.len() implies (#[trigger] keys@[i])@ == sorted@[i].sort_key() by {
                if i < p {
                    assert(before_keys[i]@ == before[i].sort_key());
                } else if i > p {
                    assert(before_keys[i - 1]@ == before[i - 1].sort_key());
                }
            }
        }
    }
    assert(all.take(n) =~= all);
    sorted
}

}
