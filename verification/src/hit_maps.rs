//! Hits of the instructions of contracts, found by the hash of their code.
use crate::order::{precedes, precedes_irreflexive, Keyed};
use crate::table::{by_key_of_entry, has_key, Table};
use crate::tags::{copy_map, empty_map, get_count, set_count, tag_counts};
use alloy_primitives::map::B256HashMap;
use vstd::prelude::*;

verus! {

/// What a call was made with, as far as it selects what runs.
#[derive(Clone, Copy, Debug, PartialEq, Eq, Structural)]
pub enum CallData {
    /// Nothing.
    Empty,
    /// Fewer bytes than a selector has.
    Short,
    /// A selector, its first byte in the highest place.
    Selector(u32),
}

/// What selects the function in some call data.
pub open spec fn call_data(input: Seq<u8>) -> CallData {
    if input.len() == 0 {
        CallData::Empty
    } else if input.len() < 4 {
        CallData::Short
    } else {
        CallData::Selector(
            (input[0] * 0x1000000 + input[1] * 0x10000 + input[2] * 0x100 + input[3]) as u32,
        )
    }
}

impl CallData {
    /// What selects the function in some call data.
    pub fn new(input: &[u8]) -> (data: Self)
        ensures
            data == call_data(input@),
    {
        if input.len() == 0 {
            CallData::Empty
        } else if input.len() < 4 {
            CallData::Short
        } else {
            let selector: u32 = input[0] as u32 * 0x1000000 + input[1] as u32 * 0x10000 + input[2] as u32 * 0x100
                + input[3] as u32;
            CallData::Selector(selector)
        }
    }
}

/// Call data without bytes is empty, with fewer bytes than a selector short, and with a selector it tells the first
/// four bytes in their order, whatever follows.
pub proof fn selector_is_the_first_four_bytes(input: Seq<u8>)
    ensures
        call_data(input) is Empty <==> input.len() == 0,
        call_data(input) is Short <==> 1 <= input.len() <= 3,
        call_data(input) is Selector <==> input.len() >= 4,
        input.len() >= 4 ==> ({
            let selector = call_data(input)->Selector_0;
            &&& selector / 0x1000000 == input[0]
            &&& selector / 0x10000 % 0x100 == input[1]
            &&& selector / 0x100 % 0x100 == input[2]
            &&& selector % 0x100 == input[3]
        }),
{
}

/// How often a contract was called with some data, with or without value.
#[derive(Debug)]
pub struct CallCount {
    pub data: CallData,
    pub with_value: bool,
    pub count: u32,
}

/// Counting is adding, up to the greatest number that can be counted: nothing is lost before it, and nothing is
/// counted behind it. The order of what is counted does not matter.
pub proof fn counting_adds_up(a: u32, b: u32, c: u32)
    ensures
        a + b <= u32::MAX ==> capped_sum(a, b) == a + b,
        a + b >= u32::MAX ==> capped_sum(a, b) == u32::MAX,
        capped_sum(a, b) == capped_sum(b, a),
        capped_sum(capped_sum(a, b), c) == capped_sum(a, capped_sum(b, c)),
        capped_sum(a, b) == 0 <==> a == 0 && b == 0,
{
}

/// The key of a kind of call.
pub open spec fn call_key(data: CallData, with_value: bool) -> Seq<u64> {
    let value = if with_value { 1u64 } else { 0 };
    match data {
        CallData::Empty => seq![0, 0, value],
        CallData::Short => seq![1, 0, value],
        CallData::Selector(selector) => seq![2, selector as u64, value],
    }
}

/// Different kinds of calls have different keys.
pub proof fn call_key_injective(a: CallData, v: bool, b: CallData, w: bool)
    requires
        call_key(a, v) == call_key(b, w),
    ensures
        a == b,
        v == w,
{
    assert(call_key(a, v)[0] == call_key(b, w)[0]);
    assert(call_key(a, v)[1] == call_key(b, w)[1]);
    assert(call_key(a, v)[2] == call_key(b, w)[2]);
}

impl Keyed for CallCount {
    open spec fn sort_key(&self) -> Seq<u64> {
        call_key(self.data, self.with_value)
    }

    fn make_key(&self) -> (key: Vec<u64>) {
        let value: u64 = if self.with_value { 1 } else { 0 };
        let key = match self.data {
            CallData::Empty => vec![0, 0, value],
            CallData::Short => vec![1, 0, value],
            CallData::Selector(selector) => vec![2, selector as u64, value],
        };
        assert(key@ =~= self.sort_key());
        key
    }
}

/// A copy of some values.
pub(crate) fn copy_of<T: Copy>(values: &Vec<T>) -> (copy: Vec<T>)
    ensures
        copy@ == values@,
{
    let mut copy: Vec<T> = Vec::new();
    let mut i: usize = 0;
    while i < values.len()
        invariant
            i <= values@.len(),
            copy@ == values@.take(i as int),
        decreases values@.len() - i,
    {
        copy.push(values[i]);
        assert(copy@ =~= values@.take(i + 1));
        i += 1;
    }
    assert(copy@ =~= values@);
    copy
}

fn copy_calls(calls: &Vec<CallCount>) -> (copy: Vec<CallCount>)
    ensures
        copy@ == calls@,
{
    let mut copy: Vec<CallCount> = Vec::new();
    let mut i: usize = 0;
    while i < calls.len()
        invariant
            i <= calls@.len(),
            copy@ == calls@.take(i as int),
        decreases calls@.len() - i,
    {
        let call = &calls[i];
        copy.push(CallCount { data: call.data, with_value: call.with_value, count: call.count });
        assert(copy@ =~= calls@.take(i + 1));
        i += 1;
    }
    assert(copy@ =~= calls@);
    copy
}

/// The hits of a contract's instructions, its calls and its creations.
#[derive(Debug)]
pub struct HitMap {
    bytecode: Vec<u8>,
    /// The hits of the instruction at each offset.
    hits: Vec<u32>,
    calls: Table<CallCount>,
    creations: u32,
}

/// The sum, as far as it can be counted.
pub open spec fn capped_sum(a: u32, b: u32) -> u32 {
    if a + b > u32::MAX { u32::MAX } else { (a + b) as u32 }
}

impl HitMap {
    /// The calls are in order.
    pub closed spec fn wf(&self) -> bool {
        self.calls.wf()
    }

    /// The code.
    pub closed spec fn code(&self) -> Seq<u8> {
        self.bytecode@
    }

    /// The hits of the instruction at an offset.
    pub closed spec fn hits_at(&self, pc: u32) -> u32 {
        if pc < self.hits@.len() { self.hits@[pc as int] } else { 0 }
    }

    /// The number of calls with some data, with or without value.
    pub closed spec fn calls_with(&self, data: CallData, with_value: bool) -> u32 {
        if self.calls@.contains_key(call_key(data, with_value)) {
            self.calls@[call_key(data, with_value)].count
        } else {
            0
        }
    }

    /// The calls, each kind of call once.
    pub closed spec fn call_list(&self) -> Seq<CallCount> {
        self.calls.entries@
    }

    /// The number of creations.
    pub closed spec fn creation_count(&self) -> u32 {
        self.creations
    }

    /// The instructions were hit as often as in `other`.
    pub open spec fn same_hits(&self, other: &HitMap) -> bool {
        forall|pc: u32| #[trigger] self.hits_at(pc) == other.hits_at(pc)
    }

    /// The calls were made as often as in `other`.
    pub open spec fn same_calls(&self, other: &HitMap) -> bool {
        forall|data: CallData, with_value: bool| #[trigger]
            self.calls_with(data, with_value) == other.calls_with(data, with_value)
    }

    /// No hits.
    pub fn new(bytecode: Vec<u8>) -> (map: Self)
        ensures
            map.wf(),
            map.code() == bytecode@,
            forall|pc: u32| #[trigger] map.hits_at(pc) == 0,
            forall|data: CallData, with_value: bool| #[trigger] map.calls_with(data, with_value) == 0,
            map.creation_count() == 0,
    {
        HitMap { bytecode, hits: Vec::new(), calls: Table::new(), creations: 0 }
    }

    /// The code.
    pub fn bytecode(&self) -> (bytecode: &Vec<u8>)
        ensures
            bytecode@ == self.code(),
    {
        &self.bytecode
    }

    /// The hits of an instruction, if it was hit.
    pub fn get(&self, pc: u32) -> (hits: Option<u32>)
        ensures
            hits == (if self.hits_at(pc) != 0 { Some(self.hits_at(pc)) } else { None }),
    {
        if (pc as usize) < self.hits.len() && self.hits[pc as usize] != 0 {
            Some(self.hits[pc as usize])
        } else {
            None
        }
    }

    /// The number of calls with some data, with or without value.
    pub fn call_count(&self, data: CallData, with_value: bool) -> (count: u32)
        requires
            self.wf(),
        ensures
            count == self.calls_with(data, with_value),
    {
        let kind = CallCount { data, with_value, count: 0 };
        let key = kind.make_key();
        match self.calls.find(&key) {
            Some(at) => self.calls.entries[at].count,
            None => 0,
        }
    }

    /// The calls, each kind of call once.
    pub fn calls(&self) -> (calls: &Vec<CallCount>)
        ensures
            calls@ == self.call_list(),
    {
        &self.calls.entries
    }

    /// The listed calls are those that were made, each kind of call once.
    pub proof fn calls_are_listed(&self)
        requires
            self.wf(),
        ensures
            forall|i: int|
                0 <= i < self.call_list().len() ==> self.calls_with(
                    (#[trigger] self.call_list()[i]).data,
                    self.call_list()[i].with_value,
                ) == self.call_list()[i].count,
            forall|data: CallData, with_value: bool| #[trigger]
                self.calls_with(data, with_value) != 0 ==> exists|i: int|
                    0 <= i < self.call_list().len() && (#[trigger] self.call_list()[i]).data == data
                        && self.call_list()[i].with_value == with_value,
            forall|i: int, j: int|
                0 <= i < j < self.call_list().len() ==> (#[trigger] self.call_list()[i]).data != (
                #[trigger] self.call_list()[j]).data || self.call_list()[i].with_value
                    != self.call_list()[j].with_value,
    {
        let list = self.calls.entries@;
        assert forall|i: int| 0 <= i < list.len() implies self.calls_with(
            (#[trigger] list[i]).data,
            list[i].with_value,
        ) == list[i].count by {
            by_key_of_entry(list, i);
            assert(list[i].sort_key() == call_key(list[i].data, list[i].with_value));
        }
        assert forall|data: CallData, with_value: bool| #[trigger]
            self.calls_with(data, with_value) != 0 implies exists|i: int|
            0 <= i < list.len() && (#[trigger] list[i]).data == data && list[i].with_value == with_value by {
            let key = call_key(data, with_value);
            let i = choose|i: int| 0 <= i < list.len() && (#[trigger] list[i]).sort_key() == key;
            call_key_injective(list[i].data, list[i].with_value, data, with_value);
        }
        assert forall|i: int, j: int| 0 <= i < j < list.len() implies (#[trigger] list[i]).data != (
        #[trigger] list[j]).data || list[i].with_value != list[j].with_value by {
            assert(precedes(list[i].sort_key(), list[j].sort_key()));
            precedes_irreflexive(list[i].sort_key());
        }
    }

    /// The number of creations.
    pub fn creations(&self) -> (count: u32)
        ensures
            count == self.creation_count(),
    {
        self.creations
    }

    /// Adds hits to an instruction.
    pub fn hits(&mut self, pc: u32, hits: u32)
        requires
            old(self).wf(),
        ensures
            final(self).wf(),
            final(self).code() == old(self).code(),
            final(self).same_calls(old(self)),
            final(self).creation_count() == old(self).creation_count(),
            forall|p: u32| #[trigger]
                final(self).hits_at(p) == (if p == pc {
                    capped_sum(old(self).hits_at(p), hits)
                } else {
                    old(self).hits_at(p)
                }),
    {
        while self.hits.len() <= pc as usize
            invariant
                self.bytecode == old(self).bytecode,
                self.calls == old(self).calls,
                self.creations == old(self).creations,
                forall|p: u32| #[trigger] self.hits_at(p) == old(self).hits_at(p),
            decreases pc + 1 - self.hits@.len(),
        {
            let ghost before = *self;
            self.hits.push(0);
            assert forall|p: u32| #[trigger] self.hits_at(p) == old(self).hits_at(p) by {
                assert(self.hits_at(p) == before.hits_at(p));
            }
        }
        let at: usize = pc as usize;
        let ghost before = *self;
        let new: u32 = self.hits[at].saturating_add(hits);
        self.hits.set(at, new);
        assert forall|p: u32| #[trigger] self.hits_at(p) == (if p == pc {
            capped_sum(old(self).hits_at(p), hits)
        } else {
            old(self).hits_at(p)
        }) by {
            let h = before.hits_at(p);
        }
    }

    /// Records one more hit of an instruction.
    pub fn hit(&mut self, pc: u32)
        requires
            old(self).wf(),
        ensures
            final(self).wf(),
            final(self).code() == old(self).code(),
            final(self).same_calls(old(self)),
            final(self).creation_count() == old(self).creation_count(),
            forall|p: u32| #[trigger]
                final(self).hits_at(p) == (if p == pc {
                    capped_sum(old(self).hits_at(p), 1)
                } else {
                    old(self).hits_at(p)
                }),
    {
        self.hits(pc, 1);
    }

    /// Adds calls with some data.
    pub fn add_calls(&mut self, data: CallData, with_value: bool, count: u32)
        requires
            old(self).wf(),
        ensures
            final(self).wf(),
            final(self).code() == old(self).code(),
            final(self).same_hits(old(self)),
            final(self).creation_count() == old(self).creation_count(),
            forall|d: CallData, v: bool| #[trigger]
                final(self).calls_with(d, v) == (if d == data && v == with_value {
                    capped_sum(old(self).calls_with(d, v), count)
                } else {
                    old(self).calls_with(d, v)
                }),
    {
        let before: u32 = self.call_count(data, with_value);
        self.calls.put(CallCount { data, with_value, count: before.saturating_add(count) });
        assert forall|d: CallData, v: bool| #[trigger] self.calls_with(d, v) == (if d == data && v == with_value {
            capped_sum(old(self).calls_with(d, v), count)
        } else {
            old(self).calls_with(d, v)
        }) by {
            if call_key(d, v) == call_key(data, with_value) {
                call_key_injective(d, v, data, with_value);
            }
        }
    }

    /// Records a call.
    pub fn call(&mut self, data: CallData, with_value: bool)
        requires
            old(self).wf(),
        ensures
            final(self).wf(),
            final(self).code() == old(self).code(),
            final(self).same_hits(old(self)),
            final(self).creation_count() == old(self).creation_count(),
            forall|d: CallData, v: bool| #[trigger]
                final(self).calls_with(d, v) == (if d == data && v == with_value {
                    capped_sum(old(self).calls_with(d, v), 1)
                } else {
                    old(self).calls_with(d, v)
                }),
    {
        self.add_calls(data, with_value, 1);
    }

    /// Records a creation.
    pub fn creation(&mut self)
        requires
            old(self).wf(),
        ensures
            final(self).wf(),
            final(self).code() == old(self).code(),
            final(self).same_hits(old(self)),
            final(self).same_calls(old(self)),
            final(self).creation_count() == capped_sum(old(self).creation_count(), 1),
    {
        self.creations = self.creations.saturating_add(1);
    }

    /// The map holds the sums of what two maps hold, as far as they can be counted.
    pub open spec fn is_sum(&self, a: &HitMap, b: &HitMap) -> bool {
        &&& self.code() == a.code()
        &&& forall|pc: u32| #[trigger] self.hits_at(pc) == capped_sum(a.hits_at(pc), b.hits_at(pc))
        &&& forall|data: CallData, with_value: bool| #[trigger]
            self.calls_with(data, with_value) == capped_sum(
                a.calls_with(data, with_value),
                b.calls_with(data, with_value),
            )
        &&& self.creation_count() == capped_sum(a.creation_count(), b.creation_count())
    }

    /// Adds the hits, calls and creations of `other`.
    pub fn merge(&mut self, other: &HitMap)
        requires
            old(self).wf(),
            other.wf(),
        ensures
            final(self).wf(),
            final(self).is_sum(old(self), other),
    {
        let mut pc: u32 = 0;
        while (pc as usize) < other.hits.len() && pc < u32::MAX
            invariant
                self.wf(),
                self.code() == old(self).code(),
                self.same_calls(old(self)),
                self.creation_count() == old(self).creation_count(),
                forall|p: u32| #[trigger]
                    self.hits_at(p) == (if p < pc {
                        capped_sum(old(self).hits_at(p), other.hits_at(p))
                    } else {
                        old(self).hits_at(p)
                    }),
            decreases u32::MAX - pc,
        {
            self.hits(pc, other.hits[pc as usize]);
            pc += 1;
        }
        if (pc as usize) < other.hits.len() {
            self.hits(pc, other.hits[pc as usize]);
        }
        assert forall|p: u32| #[trigger] self.hits_at(p) == capped_sum(old(self).hits_at(p), other.hits_at(p)) by {}
        let ghost mid = *self;
        let calls = &other.calls.entries;
        let mut k: usize = 0;
        while k < calls.len()
            invariant
                k <= calls@.len(),
                *calls == other.calls.entries,
                other.wf(),
                self.wf(),
                self.code() == mid.code(),
                self.same_hits(&mid),
                self.creation_count() == mid.creation_count(),
                mid.same_calls(old(self)),
                forall|d: CallData, v: bool| #[trigger]
                    self.calls_with(d, v) == (if has_key(calls@.take(k as int), call_key(d, v)) {
                        capped_sum(old(self).calls_with(d, v), other.calls_with(d, v))
                    } else {
                        old(self).calls_with(d, v)
                    }),
            decreases calls@.len() - k,
        {
            let call = &calls[k];
            let ghost before = *self;
            self.add_calls(call.data, call.with_value, call.count);
            proof {
                let then = calls@.take(k as int);
                let now = calls@.take(k + 1);
                assert(now[k as int] == *call);
                by_key_of_entry(calls@, k as int);
                assert forall|d: CallData, v: bool| #[trigger]
                    self.calls_with(d, v) == (if has_key(now, call_key(d, v)) {
                        capped_sum(old(self).calls_with(d, v), other.calls_with(d, v))
                    } else {
                        old(self).calls_with(d, v)
                    }) by {
                    let own = d == call.data && v == call.with_value;
                    let key = call_key(d, v);
                    if has_key(then, key) {
                        let j = choose|j: int| 0 <= j < then.len() && (#[trigger] then[j]).sort_key() == key;
                        assert(now[j].sort_key() == key);
                        if own {
                            precedes_irreflexive(key);
                            assert(precedes(calls@[j].sort_key(), calls@[k as int].sort_key()));
                        }
                    }
                    if own {
                        assert(now[k as int].sort_key() == key);
                    }
                    if has_key(now, key) && !has_key(then, key) {
                        let j = choose|j: int| 0 <= j < now.len() && (#[trigger] now[j]).sort_key() == key;
                        if j < k {
                            assert(then[j].sort_key() == key);
                        }
                        call_key_injective(d, v, call.data, call.with_value);
                    }
                }
            }
            k += 1;
        }
        assert(calls@.take(k as int) =~= calls@);
        let ghost done = *self;
        self.creations = self.creations.saturating_add(other.creations);
        proof {
            assert forall|p: u32| #[trigger] self.hits_at(p) == capped_sum(old(self).hits_at(p), other.hits_at(p)) by {
                assert(self.hits_at(p) == done.hits_at(p));
                assert(done.hits_at(p) == mid.hits_at(p));
            }
            assert forall|d: CallData, v: bool| #[trigger] self.calls_with(d, v) == capped_sum(
                old(self).calls_with(d, v),
                other.calls_with(d, v),
            ) by {
                assert(self.calls_with(d, v) == done.calls_with(d, v));
                assert(has_key(calls@, call_key(d, v)) == other.calls@.contains_key(call_key(d, v)));
            }
        }
    }
}

impl HitMap {
    /// The map holds what `other` holds.
    pub open spec fn is_same(&self, other: &HitMap) -> bool {
        &&& self.code() == other.code()
        &&& self.same_hits(other)
        &&& self.same_calls(other)
        &&& self.creation_count() == other.creation_count()
    }
}

impl Clone for HitMap {
    fn clone(&self) -> (copy: Self)
        ensures
            self.wf() ==> copy.wf(),
            copy.is_same(self),
    {
        HitMap {
            bytecode: copy_of(&self.bytecode),
            hits: copy_of(&self.hits),
            calls: Table { entries: copy_calls(&self.calls.entries) },
            creations: self.creations,
        }
    }
}

/// The hit maps of contracts, by the hash of their code.
#[derive(Debug)]
pub struct HitMaps {
    /// The position in `maps` for every hash.
    slots: B256HashMap<u64>,
    hashes: Vec<[u8; 32]>,
    maps: Vec<HitMap>,
}

impl HitMaps {
    /// Every map has the place that its hash leads to, and is well formed.
    pub closed spec fn wf(&self) -> bool {
        &&& self.hashes@.len() == self.maps@.len()
        &&& forall|hash: Seq<u8>| #[trigger]
            tag_counts(self.slots).contains_key(hash) ==> tag_counts(self.slots)[hash] < self.maps@.len()
                && self.hashes@[tag_counts(self.slots)[hash] as int]@ == hash
        &&& forall|i: int|
            0 <= i < self.hashes@.len() ==> tag_counts(self.slots).contains_key((#[trigger] self.hashes@[i])@)
                && tag_counts(self.slots)[self.hashes@[i]@] == i
        &&& forall|i: int| 0 <= i < self.maps@.len() ==> (#[trigger] self.maps@[i]).wf()
    }

    /// There is a map for the hash.
    pub closed spec fn has(&self, hash: Seq<u8>) -> bool {
        tag_counts(self.slots).contains_key(hash)
    }

    /// The map for the hash.
    pub closed spec fn map_of(&self, hash: Seq<u8>) -> HitMap {
        self.maps@[tag_counts(self.slots)[hash] as int]
    }

    /// The map at a position.
    pub closed spec fn spec_at(&self, slot: int) -> HitMap {
        self.maps@[slot]
    }

    /// The hash at a position.
    pub closed spec fn hash_at(&self, slot: int) -> Seq<u8> {
        self.hashes@[slot]@
    }

    /// The number of maps.
    pub closed spec fn count(&self) -> nat {
        self.maps@.len()
    }

    /// Positions and hashes belong together: each map has a hash of its own, and stands where its hash
    /// leads to.
    pub proof fn slots_match(&self)
        requires
            self.wf(),
        ensures
            forall|i: int|
                0 <= i < self.count() ==> self.has(#[trigger] self.hash_at(i)) && self.map_of(self.hash_at(i))
                    == self.spec_at(i) && self.spec_at(i).wf(),
            forall|hash: Seq<u8>| #[trigger]
                self.has(hash) ==> exists|i: int| 0 <= i < self.count() && #[trigger] self.hash_at(i) == hash,
            forall|i: int, j: int|
                0 <= i < j < self.count() ==> #[trigger] self.hash_at(i) != #[trigger] self.hash_at(j),
            forall|hash: Seq<u8>| #[trigger] self.has(hash) ==> self.map_of(hash).wf(),
    {
        assert forall|hash: Seq<u8>| #[trigger] self.has(hash) implies exists|i: int|
            0 <= i < self.count() && #[trigger] self.hash_at(i) == hash by {
            let i = tag_counts(self.slots)[hash] as int;
            assert(self.hash_at(i) == hash);
        }
    }

    /// No maps.
    pub fn new() -> (maps: Self)
        ensures
            maps.wf(),
            maps.count() == 0,
            forall|hash: Seq<u8>| !(#[trigger] maps.has(hash)),
    {
        HitMaps { slots: empty_map(), hashes: Vec::new(), maps: Vec::new() }
    }

    /// The number of maps.
    pub fn len(&self) -> (len: usize)
        ensures
            len == self.count(),
    {
        self.maps.len()
    }

    /// The map at a position.
    pub fn at(&self, slot: usize) -> (map: &HitMap)
        requires
            slot < self.count(),
        ensures
            *map == self.spec_at(slot as int),
    {
        &self.maps[slot]
    }

    /// The hash at a position.
    pub fn hash(&self, slot: usize) -> (hash: [u8; 32])
        requires
            self.wf(),
            slot < self.count(),
        ensures
            hash@ == self.hash_at(slot as int),
    {
        self.hashes[slot]
    }

    /// The position of the map for a hash.
    pub fn find(&self, hash: &[u8; 32]) -> (slot: Option<usize>)
        requires
            self.wf(),
        ensures
            slot is Some <==> self.has(hash@),
            slot is Some ==> slot->0 < self.count() && self.hash_at(slot->0 as int) == hash@
                && self.spec_at(slot->0 as int) == self.map_of(hash@),
    {
        match get_count(&self.slots, hash) {
            Some(slot) => {
                assert(self.has(hash@));
                assert(slot < self.maps.len());
                Some(slot as usize)
            },
            None => None,
        }
    }

    /// The map for a hash.
    pub fn get(&self, hash: &[u8; 32]) -> (map: Option<&HitMap>)
        requires
            self.wf(),
        ensures
            map is Some <==> self.has(hash@),
            map is Some ==> *map->0 == self.map_of(hash@),
    {
        match self.find(hash) {
            Some(slot) => Some(&self.maps[slot]),
            None => None,
        }
    }

    /// The position of the map for a hash; a map without hits is put there if there was none.
    pub fn find_or_insert(&mut self, hash: &[u8; 32], bytecode: &[u8]) -> (slot: usize)
        requires
            old(self).wf(),
        ensures
            final(self).wf(),
            slot < final(self).count(),
            final(self).hash_at(slot as int) == hash@,
            final(self).spec_at(slot as int) == final(self).map_of(hash@),
            forall|h: Seq<u8>| #[trigger] final(self).has(h) <==> old(self).has(h) || h == hash@,
            forall|h: Seq<u8>| old(self).has(h) ==> #[trigger] final(self).map_of(h) == old(self).map_of(h),
            !old(self).has(hash@) ==> is_fresh(&final(self).map_of(hash@), bytecode@),
    {
        if let Some(slot) = self.find(hash) {
            return slot;
        }
        let slot: usize = self.maps.len();
        let mut code: Vec<u8> = Vec::new();
        let mut i: usize = 0;
        while i < bytecode.len()
            invariant
                i <= bytecode@.len(),
                code@ == bytecode@.take(i as int),
            decreases bytecode@.len() - i,
        {
            code.push(bytecode[i]);
            assert(code@ =~= bytecode@.take(i + 1));
            i += 1;
        }
        assert(code@ =~= bytecode@);
        self.push_map(*hash, HitMap::new(code));
        slot
    }

    /// Sets the map for a hash.
    pub fn insert(&mut self, hash: [u8; 32], map: HitMap)
        requires
            old(self).wf(),
            map.wf(),
        ensures
            final(self).wf(),
            forall|h: Seq<u8>| #[trigger] final(self).has(h) <==> old(self).has(h) || h == hash@,
            final(self).map_of(hash@) == map,
            forall|h: Seq<u8>| old(self).has(h) && h != hash@ ==> #[trigger] final(self).map_of(h) == old(
                self,
            ).map_of(h),
    {
        match self.find(&hash) {
            Some(slot) => {
                self.maps.set(slot, map);
                proof {
                    self.one_map_changed(old(self), slot as int);
                }
            },
            None => {
                self.push_map(hash, map);
            },
        }
    }

    /// Adds the map for a hash that has none.
    fn push_map(&mut self, hash: [u8; 32], map: HitMap)
        requires
            old(self).wf(),
            map.wf(),
            !old(self).has(hash@),
        ensures
            final(self).wf(),
            final(self).count() == old(self).count() + 1,
            final(self).hash_at(old(self).count() as int) == hash@,
            final(self).spec_at(old(self).count() as int) == map,
            final(self).map_of(hash@) == map,
            forall|h: Seq<u8>| #[trigger] final(self).has(h) <==> old(self).has(h) || h == hash@,
            forall|h: Seq<u8>| old(self).has(h) ==> #[trigger] final(self).map_of(h) == old(self).map_of(h),
    {
        let slot: usize = self.maps.len();
        self.maps.push(map);
        self.hashes.push(hash);
        set_count(&mut self.slots, &hash, slot as u64);
        proof {
            assert forall|i: int| 0 <= i < self.hashes@.len() implies tag_counts(self.slots).contains_key(
                (#[trigger] self.hashes@[i])@,
            ) && tag_counts(self.slots)[self.hashes@[i]@] == i by {
                if i < slot {
                    assert(self.hashes@[i] == old(self).hashes@[i]);
                    assert(old(self).has(old(self).hashes@[i]@));
                }
            }
            assert forall|i: int| 0 <= i < self.maps@.len() implies (#[trigger] self.maps@[i]).wf() by {
                if i < slot {
                    assert(old(self).maps@[i].wf());
                }
            }
            assert forall|h: Seq<u8>| old(self).has(h) implies #[trigger] self.map_of(h) == old(self).map_of(h) by {
                assert(tag_counts(old(self).slots).contains_key(h));
            }
        }
    }

    /// All hashes and maps but those of `hash` are as in `before`.
    pub open spec fn keeps_others(&self, before: &HitMaps, hash: Seq<u8>) -> bool {
        &&& forall|h: Seq<u8>| #[trigger] self.has(h) == before.has(h)
        &&& forall|h: Seq<u8>| before.has(h) && h != hash ==> #[trigger] self.map_of(h) == before.map_of(h)
    }

    /// Records one more hit of an instruction in the map at a position.
    pub fn hit(&mut self, slot: usize, pc: u32)
        requires
            old(self).wf(),
            slot < old(self).count(),
        ensures
            final(self).wf(),
            final(self).count() == old(self).count(),
            forall|i: int| #[trigger] final(self).hash_at(i) == old(self).hash_at(i),
            final(self).keeps_others(old(self), old(self).hash_at(slot as int)),
            ({
                let hash = old(self).hash_at(slot as int);
                let new = final(self).map_of(hash);
                let was = old(self).map_of(hash);
                &&& new.code() == was.code()
                &&& new.same_calls(&was)
                &&& new.creation_count() == was.creation_count()
                &&& forall|p: u32| #[trigger]
                    new.hits_at(p) == (if p == pc { capped_sum(was.hits_at(p), 1) } else { was.hits_at(p) })
            }),
    {
        proof {
            self.slots_match();
            let was = self.spec_at(slot as int);
        }
        self.maps[slot].hit(pc);
        proof {
            self.one_map_changed(old(self), slot as int);
        }
    }

    /// Records a call in the map at a position.
    pub fn call(&mut self, slot: usize, data: CallData, with_value: bool)
        requires
            old(self).wf(),
            slot < old(self).count(),
        ensures
            final(self).wf(),
            final(self).count() == old(self).count(),
            forall|i: int| #[trigger] final(self).hash_at(i) == old(self).hash_at(i),
            final(self).keeps_others(old(self), old(self).hash_at(slot as int)),
            ({
                let hash = old(self).hash_at(slot as int);
                let new = final(self).map_of(hash);
                let was = old(self).map_of(hash);
                &&& new.code() == was.code()
                &&& new.same_hits(&was)
                &&& new.creation_count() == was.creation_count()
                &&& forall|d: CallData, v: bool| #[trigger]
                    new.calls_with(d, v) == (if d == data && v == with_value {
                        capped_sum(was.calls_with(d, v), 1)
                    } else {
                        was.calls_with(d, v)
                    })
            }),
    {
        proof {
            self.slots_match();
            let was = self.spec_at(slot as int);
        }
        self.maps[slot].call(data, with_value);
        proof {
            self.one_map_changed(old(self), slot as int);
        }
    }

    /// Records a creation in the map at a position.
    pub fn creation(&mut self, slot: usize)
        requires
            old(self).wf(),
            slot < old(self).count(),
        ensures
            final(self).wf(),
            final(self).count() == old(self).count(),
            forall|i: int| #[trigger] final(self).hash_at(i) == old(self).hash_at(i),
            final(self).keeps_others(old(self), old(self).hash_at(slot as int)),
            ({
                let hash = old(self).hash_at(slot as int);
                let new = final(self).map_of(hash);
                let was = old(self).map_of(hash);
                &&& new.code() == was.code()
                &&& new.same_hits(&was)
                &&& new.same_calls(&was)
                &&& new.creation_count() == capped_sum(was.creation_count(), 1)
            }),
    {
        proof {
            self.slots_match();
            let was = self.spec_at(slot as int);
        }
        self.maps[slot].creation();
        proof {
            self.one_map_changed(old(self), slot as int);
        }
    }

    /// Adds a map to the one at a position.
    fn merge_at(&mut self, slot: usize, map: &HitMap)
        requires
            old(self).wf(),
            map.wf(),
            slot < old(self).count(),
        ensures
            final(self).wf(),
            final(self).keeps_others(old(self), old(self).hash_at(slot as int)),
            ({
                let hash = old(self).hash_at(slot as int);
                final(self).map_of(hash).is_sum(&old(self).map_of(hash), map)
            }),
    {
        proof {
            self.slots_match();
            let was = self.spec_at(slot as int);
        }
        self.maps[slot].merge(map);
        proof {
            self.one_map_changed(old(self), slot as int);
        }
    }

    proof fn one_map_changed(&self, before: &HitMaps, slot: int)
        requires
            before.wf(),
            0 <= slot < before.count(),
            self.slots == before.slots,
            self.hashes == before.hashes,
            self.maps@.len() == before.maps@.len(),
            forall|i: int| 0 <= i < self.maps@.len() && i != slot ==> self.maps@[i] == before.maps@[i],
            self.maps@[slot].wf(),
        ensures
            self.wf(),
            self.keeps_others(before, before.hash_at(slot)),
            self.map_of(before.hash_at(slot)) == self.maps@[slot],
            before.map_of(before.hash_at(slot)) == before.maps@[slot],
    {
        before.slots_match();
        assert(before.has(before.hash_at(slot)));
        assert forall|h: Seq<u8>| before.has(h) && h != before.hash_at(slot) implies #[trigger] self.map_of(h)
            == before.map_of(h) by {
            assert(tag_counts(before.slots).contains_key(h));
        }
        assert forall|i: int| 0 <= i < self.maps@.len() implies (#[trigger] self.maps@[i]).wf() by {
            if i != slot {
                assert(before.maps@[i].wf());
            }
        }
    }

    /// The maps are those of `a` and `b`; where both have one, it holds their sums.
    pub open spec fn is_merge(&self, a: &HitMaps, b: &HitMaps) -> bool {
        &&& forall|h: Seq<u8>| #[trigger] self.has(h) <==> a.has(h) || b.has(h)
        &&& forall|h: Seq<u8>| a.has(h) && !b.has(h) ==> #[trigger] self.map_of(h) == a.map_of(h)
        &&& forall|h: Seq<u8>| !a.has(h) && b.has(h) ==> #[trigger] self.map_of(h) == b.map_of(h)
        &&& forall|h: Seq<u8>| a.has(h) && b.has(h) ==> #[trigger] self.map_of(h).is_sum(&a.map_of(h), &b.map_of(h))
    }

    /// Adds the maps of `other`.
    pub fn merge(&mut self, other: HitMaps)
        requires
            old(self).wf(),
            other.wf(),
        ensures
            final(self).wf(),
            final(self).is_merge(old(self), &other),
    {
        let ghost all = other;
        let mut maps = other.maps;
        let mut hashes = other.hashes;
        proof {
            all.slots_match();
        }
        while maps.len() > 0
            invariant
                all.wf(),
                self.wf(),
                maps@.len() == hashes@.len(),
                maps@.len() <= all.count(),
                maps@ == all.maps@.take(maps@.len() as int),
                hashes@ == all.hashes@.take(maps@.len() as int),
                forall|h: Seq<u8>| #[trigger]
                    self.has(h) <==> old(self).has(h) || all.has_from(h, maps@.len() as int),
                forall|h: Seq<u8>| old(self).has(h) && !all.has_from(h, maps@.len() as int) ==> #[trigger]
                    self.map_of(h) == old(self).map_of(h),
                forall|h: Seq<u8>| !old(self).has(h) && all.has_from(h, maps@.len() as int) ==> #[trigger]
                    self.map_of(h) == all.map_of(h),
                forall|h: Seq<u8>| old(self).has(h) && all.has_from(h, maps@.len() as int) ==> #[trigger]
                    self.map_of(h).is_sum(&old(self).map_of(h), &all.map_of(h)),
            decreases maps@.len(),
        {
            let ghost n = maps@.len() - 1;
            let ghost before = *self;
            let map = maps.pop().unwrap();
            let hash = hashes.pop().unwrap();
            proof {
                all.slots_match();
                assert(map == all.spec_at(n) && hash@ == all.hash_at(n));
                assert(all.map_of(hash@) == map);
                assert(all.spec_at(n).wf());
                assert(maps@ =~= all.maps@.take(n));
                assert(hashes@ =~= all.hashes@.take(n));
                assert forall|h: Seq<u8>| #[trigger] all.has_from(h, n) <==> all.has_from(h, n + 1) || h == hash@ by {
                    if all.has_from(h, n) && !all.has_from(h, n + 1) {
                        assert(tag_counts(all.slots)[h] == n);
                    }
                }
                assert(!all.has_from(hash@, n + 1));
            }
            match self.find(&hash) {
                Some(slot) => {
                    self.merge_at(slot, &map);
                },
                None => {
                    self.push_map(hash, map);
                },
            }
            proof {
                assert forall|h: Seq<u8>| #[trigger] self.has(h) <==> before.has(h) || h == hash@ by {}
                assert forall|h: Seq<u8>| before.has(h) && h != hash@ implies #[trigger] self.map_of(h)
                    == before.map_of(h) by {}
            }
        }
        proof {
            assert forall|h: Seq<u8>| #[trigger] all.has_from(h, 0) == all.has(h) by {}
        }
    }

    /// There is a map for the hash, at the position `n` or behind it.
    spec fn has_from(&self, hash: Seq<u8>, n: int) -> bool {
        self.has(hash) && tag_counts(self.slots)[hash] >= n
    }

    /// Adds `b` to the maps, if both are there; with only one of them, that one is kept as it is.
    pub fn merge_opt(a: &mut Option<Self>, b: Option<Self>)
        requires
            *old(a) is Some ==> old(a)->0.wf(),
            b is Some ==> b->0.wf(),
        ensures
            *final(a) is Some ==> final(a)->0.wf(),
            *old(a) is None ==> *final(a) == b,
            b is None ==> *final(a) == *old(a),
            (*old(a) is Some && b is Some) ==> *final(a) is Some && final(a)->0.is_merge(&old(a)->0, &b->0),
    {
        match b {
            None => {},
            Some(other) => {
                match a {
                    Some(maps) => maps.merge(other),
                    None => {
                        *a = Some(other);
                    },
                }
            },
        }
    }
}

impl HitMaps {
    /// There are maps for the same hashes as in `other`, in the same order, and each holds the same.
    pub open spec fn is_same(&self, other: &HitMaps) -> bool {
        &&& self.count() == other.count()
        &&& forall|i: int| 0 <= i < other.count() ==> #[trigger] self.hash_at(i) == other.hash_at(i)
        &&& forall|i: int| 0 <= i < other.count() ==> (#[trigger] self.spec_at(i)).is_same(&other.spec_at(i))
        &&& forall|hash: Seq<u8>| #[trigger] self.has(hash) == other.has(hash)
        &&& other.wf() ==> forall|hash: Seq<u8>|
            other.has(hash) ==> (#[trigger] self.map_of(hash)).is_same(&other.map_of(hash))
    }
}

impl Clone for HitMaps {
    fn clone(&self) -> (copy: Self)
        ensures
            self.wf() ==> copy.wf(),
            copy.is_same(self),
    {
        let mut maps: Vec<HitMap> = Vec::new();
        let mut i: usize = 0;
        while i < self.maps.len()
            invariant
                i <= self.maps@.len(),
                maps@.len() == i,
                forall|k: int|
                    0 <= k < i ==> (#[trigger] maps@[k]).is_same(&self.maps@[k]) && (self.maps@[k].wf()
                        ==> maps@[k].wf()),
            decreases self.maps@.len() - i,
        {
            let map = self.maps[i].clone();
            maps.push(map);
            i += 1;
        }
        let copy = HitMaps { slots: copy_map(&self.slots), hashes: copy_of(&self.hashes), maps };
        proof {
            assert forall|k: int| 0 <= k < self.count() implies (#[trigger] copy.spec_at(k)).is_same(
                &self.spec_at(k),
            ) by {
                assert(maps@[k].is_same(&self.maps@[k]));
            }
            if self.wf() {
                assert forall|hash: Seq<u8>| self.has(hash) implies (#[trigger] copy.map_of(hash)).is_same(
                    &self.map_of(hash),
                ) by {
                    assert(maps@[tag_counts(self.slots)[hash] as int].is_same(&self.map_of(hash)));
                }
            }
        }
        copy
    }
}

/// The map has the code and nothing was hit.
pub open spec fn is_fresh(map: &HitMap, bytecode: Seq<u8>) -> bool {
    &&& map.code() == bytecode
    &&& forall|pc: u32| #[trigger] map.hits_at(pc) == 0
    &&& forall|data: CallData, with_value: bool| #[trigger] map.calls_with(data, with_value) == 0
    &&& map.creation_count() == 0
}

/// Merging loses nothing: every map of either is there, and a map of both has the hits, calls and creations of both
/// added up, as far as they can be counted.
pub proof fn merging_adds_up(new: HitMaps, a: HitMaps, b: HitMaps, hash: Seq<u8>, pc: u32, data: CallData, with_value: bool)
    requires
        new.is_merge(&a, &b),
    ensures
        new.has(hash) <==> a.has(hash) || b.has(hash),
        a.has(hash) && !b.has(hash) ==> new.map_of(hash) == a.map_of(hash),
        !a.has(hash) && b.has(hash) ==> new.map_of(hash) == b.map_of(hash),
        a.has(hash) && b.has(hash) ==> {
            let x = a.map_of(hash);
            let y = b.map_of(hash);
            let z = new.map_of(hash);
            let hits = x.hits_at(pc) + y.hits_at(pc);
            let calls = x.calls_with(data, with_value) + y.calls_with(data, with_value);
            let creations = x.creation_count() + y.creation_count();
            &&& z.code() == x.code()
            &&& z.hits_at(pc) == (if hits <= u32::MAX { hits } else { u32::MAX as int })
            &&& z.calls_with(data, with_value) == (if calls <= u32::MAX { calls } else { u32::MAX as int })
            &&& z.creation_count() == (if creations <= u32::MAX { creations } else { u32::MAX as int })
        },
{
    if a.has(hash) && b.has(hash) {
        assert(new.map_of(hash).is_sum(&a.map_of(hash), &b.map_of(hash)));
    }
}

}
