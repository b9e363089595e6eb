//! Ordered tables: entries with distinct keys, kept in the order of their keys.
use crate::order::{key_before, key_equal, precedes, precedes_irreflexive, precedes_total, precedes_transitive, Keyed};
use vstd::prelude::*;

verus! {

/// Entries with distinct keys in ascending order.
#[derive(Debug)]
pub struct Table<T: Keyed> {
    pub entries: Vec<T>,
}

/// Every entry's key comes before those of all later entries.
pub open spec fn ascending<T: Keyed>(entries: Seq<T>) -> bool {
    forall|i: int, j: int|
        0 <= i < j < entries.len() ==> precedes(
            (#[trigger] entries[i]).sort_key(),
            (#[trigger] entries[j]).sort_key(),
        )
}

/// One of the entries has the key.
pub open spec fn has_key<T: Keyed>(entries: Seq<T>, key: Seq<u64>) -> bool {
    exists|i: int| 0 <= i < entries.len() && (#[trigger] entries[i]).sort_key() == key
}

/// The entry with the key.
pub open spec fn entry_at<T: Keyed>(entries: Seq<T>, key: Seq<u64>) -> T {
    entries[choose|i: int| 0 <= i < entries.len() && (#[trigger] entries[i]).sort_key() == key]
}

/// The entries by their keys.
pub open spec fn by_key<T: Keyed>(entries: Seq<T>) -> Map<Seq<u64>, T> {
    Map::new(|key: Seq<u64>| has_key(entries, key), |key: Seq<u64>| entry_at(entries, key))
}

/// Where an entry with the key stands, or would have to stand.
pub open spec fn place_of<T: Keyed>(entries: Seq<T>, key: Seq<u64>) -> int
    decreases entries.len(),
{
    if entries.len() == 0 {
        0
    } else if precedes(entries.last().sort_key(), key) {
        entries.len() as int
    } else {
        place_of(entries.drop_last(), key)
    }
}

/// The entries after `entry` was put among them: it replaces the one with the same key.
pub open spec fn with_entry<T: Keyed>(entries: Seq<T>, entry: T) -> Seq<T> {
    let p = place_of(entries, entry.sort_key());
    if has_key(entries, entry.sort_key()) {
        entries.update(p, entry)
    } else {
        entries.insert(p, entry)
    }
}

/// In an ascending sequence the key of an entry leads to that entry.
pub proof fn by_key_of_entry<T: Keyed>(entries: Seq<T>, i: int)
    requires
        ascending(entries),
        0 <= i < entries.len(),
    ensures
        by_key(entries).contains_key(entries[i].sort_key()),
        by_key(entries)[entries[i].sort_key()] == entries[i],
{
    let key = entries[i].sort_key();
    let j = choose|j: int| 0 <= j < entries.len() && (#[trigger] entries[j]).sort_key() == key;
    if i != j {
        if i < j {
            precedes_irreflexive(key);
        } else {
            precedes_irreflexive(key);
        }
    }
}

/// The place splits the entries: those before it have smaller keys, those from it on do not.
pub proof fn place_of_splits<T: Keyed>(entries: Seq<T>, key: Seq<u64>)
    requires
        ascending(entries),
    ensures
        0 <= place_of(entries, key) <= entries.len(),
        forall|i: int| 0 <= i < place_of(entries, key) ==> precedes((#[trigger] entries[i]).sort_key(), key),
        forall|i: int|
            place_of(entries, key) <= i < entries.len() ==> !precedes((#[trigger] entries[i]).sort_key(), key),
    decreases entries.len(),
{
    if entries.len() > 0 {
        let last = entries.last();
        if precedes(last.sort_key(), key) {
            assert forall|i: int| 0 <= i < entries.len() implies precedes(
                (#[trigger] entries[i]).sort_key(),
                key,
            ) by {
                if i < entries.len() - 1 {
                    precedes_transitive(entries[i].sort_key(), entries[entries.len() - 1].sort_key(), key);
                }
            }
        } else {
            let front = entries.drop_last();
            assert(ascending(front)) by {
                assert forall|i: int, j: int| 0 <= i < j < front.len() implies precedes(
                    (#[trigger] front[i]).sort_key(),
                    (#[trigger] front[j]).sort_key(),
                ) by {
                    assert(front[i] == entries[i] && front[j] == entries[j]);
                }
            }
            place_of_splits(front, key);
            assert forall|i: int| 0 <= i < place_of(entries, key) implies precedes(
                (#[trigger] entries[i]).sort_key(),
                key,
            ) by {
                assert(front[i] == entries[i]);
            }
            assert forall|i: int| place_of(entries, key) <= i < entries.len() implies !precedes(
                (#[trigger] entries[i]).sort_key(),
                key,
            ) by {
                if i < entries.len() - 1 {
                    assert(front[i] == entries[i]);
                }
            }
        }
    }
}

/// The entry with a key that is there stands at the key's place.
pub proof fn place_of_key<T: Keyed>(entries: Seq<T>, key: Seq<u64>)
    requires
        ascending(entries),
    ensures
        has_key(entries, key) <==> place_of(entries, key) < entries.len() && entries[place_of(
            entries,
            key,
        )].sort_key() == key,
{
    place_of_splits(entries, key);
    let p = place_of(entries, key);
    if has_key(entries, key) {
        let j = choose|j: int| 0 <= j < entries.len() && (#[trigger] entries[j]).sort_key() == key;
        precedes_irreflexive(key);
        if p < j {
            assert(precedes(entries[p].sort_key(), entries[j].sort_key()));
        }
    }
}

/// Putting an entry keeps the order and changes the entry of its key alone.
pub proof fn with_entry_by_key<T: Keyed>(entries: Seq<T>, entry: T)
    requires
        ascending(entries),
    ensures
        ascending(with_entry(entries, entry)),
        by_key(with_entry(entries, entry)) == by_key(entries).insert(entry.sort_key(), entry),
{
    let key = entry.sort_key();
    let p = place_of(entries, key);
    let next = with_entry(entries, entry);
    place_of_splits(entries, key);
    place_of_key(entries, key);
    let shift = !has_key(entries, key);
    assert(forall|i: int| 0 <= i < p ==> next[i] == entries[i]);
    assert(next[p] == entry);
    assert(forall|i: int| p < i < next.len() ==> next[i] == entries[if shift { i - 1 } else { i }]);
    assert forall|i: int, j: int| 0 <= i < j < next.len() implies precedes(
        (#[trigger] next[i]).sort_key(),
        (#[trigger] next[j]).sort_key(),
    ) by {
        if i == p {
            let k = if shift { j - 1 } else { j };
            assert(next[j] == entries[k]);
            if shift {
                precedes_total(entries[k].sort_key(), key);
                assert(entries[k].sort_key() != key);
            } else {
                assert(entries[p].sort_key() == key);
            }
        } else if j == p {
            assert(next[i] == entries[i]);
        } else {
            let a = if i < p || !shift { i } else { i - 1 };
            let b = if j < p || !shift { j } else { j - 1 };
            assert(next[i] == entries[a] && next[j] == entries[b]);
        }
    }
    let want = by_key(entries).insert(key, entry);
    assert forall|k: Seq<u64>| #[trigger] by_key(next).contains_key(k) <==> want.contains_key(k) by {
        if has_key(next, k) {
            let i = choose|i: int| 0 <= i < next.len() && (#[trigger] next[i]).sort_key() == k;
            if i != p {
                let a = if i < p || !shift { i } else { i - 1 };
                assert(next[i] == entries[a]);
            }
        }
        if k == key {
            assert(next[p].sort_key() == k);
        } else if has_key(entries, k) {
            let i = choose|i: int| 0 <= i < entries.len() && (#[trigger] entries[i]).sort_key() == k;
            let a = if i < p || !shift { i } else { i + 1 };
            assert(next[a] == entries[i]);
            assert(next[a].sort_key() == k);
        }
    }
    assert forall|k: Seq<u64>| by_key(next).contains_key(k) implies #[trigger] by_key(next)[k] == want[k] by {
        let i = choose|i: int| 0 <= i < next.len() && (#[trigger] next[i]).sort_key() == k;
        by_key_of_entry(next, i);
        if i == p {
            assert(k == key);
        } else {
            let a = if i < p || !shift { i } else { i - 1 };
            assert(next[i] == entries[a]);
            by_key_of_entry(entries, a);
            if k == key {
                by_key_of_entry(next, p);
                if i < p {
                    precedes_irreflexive(k);
                } else {
                    precedes_irreflexive(k);
                }
            }
        }
    }
    assert(by_key(next) =~= want);
}

/// Replacing an entry by one with the same key is putting it.
pub proof fn update_is_with_entry<T: Keyed>(entries: Seq<T>, at: int, entry: T)
    requires
        ascending(entries),
        0 <= at < entries.len(),
        entries[at].sort_key() == entry.sort_key(),
    ensures
        entries.update(at, entry) == with_entry(entries, entry),
{
    let key = entry.sort_key();
    place_of_splits(entries, key);
    place_of_key(entries, key);
    assert(has_key(entries, key));
    let p = place_of(entries, key);
    precedes_irreflexive(key);
    if p < at {
        assert(precedes(entries[p].sort_key(), entries[at].sort_key()));
    }
    assert(p == at);
}

impl<T: Keyed> View for Table<T> {
    type V = Map<Seq<u64>, T>;

    open spec fn view(&self) -> Map<Seq<u64>, T> {
        by_key(self.entries@)
    }
}

impl<T: Keyed> Table<T> {
    /// The entries ascend.
    pub open spec fn wf(&self) -> bool {
        ascending(self.entries@)
    }

    /// A table without entries.
    pub fn new() -> (table: Self)
        ensures
            table.wf(),
            table.entries@ == Seq::<T>::empty(),
            table@ == Map::<Seq<u64>, T>::empty(),
    {
        let table = Table { entries: Vec::new() };
        assert(table@ =~= Map::empty());
        table
    }

    /// The place of a key.
    fn place(&self, key: &Vec<u64>) -> (p: usize)
        requires
            self.wf(),
        ensures
            p == place_of(self.entries@, key@),
    {
        let mut lo: usize = 0;
        let mut hi: usize = self.entries.len();
        proof {
            place_of_splits(self.entries@, key@);
        }
        while lo < hi
            invariant
                self.wf(),
                0 <= lo <= hi <= self.entries@.len(),
                lo <= place_of(self.entries@, key@) <= hi,
                forall|i: int|
                    0 <= i < place_of(self.entries@, key@) ==> precedes(
                        (#[trigger] self.entries@[i]).sort_key(),
                        key@,
                    ),
                forall|i: int|
                    place_of(self.entries@, key@) <= i < self.entries@.len() ==> !precedes(
                        (#[trigger] self.entries@[i]).sort_key(),
                        key@,
                    ),
            decreases hi - lo,
        {
            let mid: usize = lo + (hi - lo) / 2;
            let at = self.entries[mid].make_key();
            if key_before(&at, key) {
                assert(precedes(self.entries@[mid as int].sort_key(), key@));
                lo = mid + 1;
            } else {
                assert(!precedes(self.entries@[mid as int].sort_key(), key@));
                hi = mid;
            }
        }
        lo
    }

    /// The position of the entry with the key.
    pub fn find(&self, key: &Vec<u64>) -> (found: Option<usize>)
        requires
            self.wf(),
        ensures
            found is Some <==> self@.contains_key(key@),
            found is Some ==> found->0 < self.entries@.len() && self.entries@[found->0 as int].sort_key() == key@
                && self@[key@] == self.entries@[found->0 as int],
    {
        let p: usize = self.place(key);
        proof {
            place_of_splits(self.entries@, key@);
            place_of_key(self.entries@, key@);
        }
        if p < self.entries.len() {
            let at = self.entries[p].make_key();
            if key_equal(&at, key) {
                proof {
                    by_key_of_entry(self.entries@, p as int);
                }
                return Some(p);
            }
        }
        None
    }

    /// Puts an entry into the table; it replaces the one with the same key.
    pub fn put(&mut self, entry: T)
        requires
            old(self).wf(),
        ensures
            final(self).wf(),
            final(self).entries@ == with_entry(old(self).entries@, entry),
            final(self)@ == old(self)@.insert(entry.sort_key(), entry),
    {
        let key = entry.make_key();
        let p: usize = self.place(&key);
        proof {
            place_of_splits(self.entries@, key@);
            place_of_key(self.entries@, key@);
            with_entry_by_key(self.entries@, entry);
        }
        let mut taken = false;
        if p < self.entries.len() {
            let at = self.entries[p].make_key();
            taken = key_equal(&at, &key);
        }
        if taken {
            self.entries.set(p, entry);
        } else {
            self.entries.insert(p, entry);
        }
    }
}

}
