//! Tables of values found by a tag or a hash.
use crate::tags::{empty_map, get_count, set_count, tag_counts};
use alloy_primitives::map::B256HashMap;
use vstd::prelude::*;

verus! {

/// A value for every tag or hash in the table.
pub struct TagTable<V> {
    /// The position in `values` for every tag.
    slots: B256HashMap<u64>,
    values: Vec<V>,
    len: usize,
}

impl<V> View for TagTable<V> {
    type V = Map<Seq<u8>, V>;

    closed spec fn view(&self) -> Map<Seq<u8>, V> {
        Map::new(
            |tag: Seq<u8>| tag_counts(self.slots).contains_key(tag),
            |tag: Seq<u8>| self.values@[tag_counts(self.slots)[tag] as int],
        )
    }
}

impl<V> TagTable<V> {
    /// Every position lies inside the list, and the tags are counted.
    pub closed spec fn wf(&self) -> bool {
        &&& forall|tag: Seq<u8>| #[trigger]
            tag_counts(self.slots).contains_key(tag) ==> tag_counts(self.slots)[tag] < self.values@.len()
        &&& self@.dom().finite()
        &&& self.len == self@.dom().len()
        &&& self.len <= self.values@.len()
    }

    /// The table holds finitely many tags.
    pub proof fn finite(&self)
        requires
            self.wf(),
        ensures
            self@.dom().finite(),
    {
    }

    /// An empty table.
    pub fn new() -> (table: Self)
        ensures
            table.wf(),
            table@ == Map::<Seq<u8>, V>::empty(),
    {
        let table = TagTable { slots: empty_map(), values: Vec::new(), len: 0 };
        assert(table@ =~= Map::empty());
        table
    }

    /// Sets the value of a tag.
    pub fn insert(&mut self, tag: [u8; 32], value: V)
        requires
            old(self).wf(),
        ensures
            final(self).wf(),
            final(self)@ == old(self)@.insert(tag@, value),
    {
        let known = get_count(&self.slots, &tag).is_some();
        let slot: u64 = self.values.len() as u64;
        proof {
            assert(known == old(self)@.contains_key(tag@));
        }
        self.values.push(value);
        set_count(&mut self.slots, &tag, slot);
        if !known {
            assert(self.len < self.values.len());
            self.len = self.len + 1;
        }
        proof {
            assert(self@ =~= old(self)@.insert(tag@, value));
            assert(self@.dom() =~= old(self)@.dom().insert(tag@));
        }
    }

    /// The value of a tag.
    pub fn get(&self, tag: &[u8; 32]) -> (value: Option<&V>)
        requires
            self.wf(),
        ensures
            value is Some <==> self@.contains_key(tag@),
            value is Some ==> *value->0 == self@[tag@],
    {
        match get_count(&self.slots, tag) {
            Some(slot) => {
                assert(tag_counts(self.slots).contains_key(tag@));
                assert(slot < self.values.len());
                Some(&self.values[slot as usize])
            },
            None => None,
        }
    }

    /// How many tags the table holds.
    pub fn len(&self) -> (len: usize)
        requires
            self.wf(),
        ensures
            len == self@.dom().len(),
    {
        self.len
    }
}

}
