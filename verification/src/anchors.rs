//! Hits of items that are counted by the hits of instructions.
use crate::hit_maps::{call_data, capped_sum, CallCount, CallData, HitMap};
use crate::item_hits::ItemHit;
use crate::items::CoverageItem;
use crate::report::{
    contract_key, make_text_key, with_hits, AnchorEntry, BytecodeEntry, ContractId, CoverageReport, ExecutionEntry,
    ExecutionKind, ItemAnchor, SourceMapEntry,
};
use crate::table::{update_is_with_entry, with_entry_by_key};
use crate::text::text_key;
use vstd::prelude::*;

verus! {

/// The hits of items from the first `n` anchors: for each anchor whose instruction was hit and whose
/// item is there, the item and the hits.
pub open spec fn anchored(
    anchors: Seq<ItemAnchor>,
    n: int,
    map: HitMap,
    items: Option<Seq<CoverageItem>>,
) -> Seq<(usize, u32)>
    decreases n,
{
    if n <= 0 {
        Seq::empty()
    } else {
        let before = anchored(anchors, n - 1, map, items);
        let anchor = anchors[n - 1];
        let hits = map.hits_at(anchor.instruction);
        if hits != 0 && items is Some && anchor.item_id < items->0.len() {
            before.push((anchor.item_id, hits))
        } else {
            before
        }
    }
}

/// A function is there for the data of a call.
pub open spec fn has_selector(selectors: Seq<[u8; 4]>, data: CallData) -> bool {
    exists|i: int| 0 <= i < selectors.len() && call_data((#[trigger] selectors[i])@) == data
}

/// A call ends up in the fallback function. Without data it does so only if nothing receives it, with a
/// selector only if there is no such function; a call with value is refused unless the function is payable.
pub open spec fn reaches_fallback(entry: ExecutionEntry, data: CallData, with_value: bool) -> bool {
    &&& entry.fallback_payable || !with_value
    &&& match data {
        CallData::Empty => !entry.has_receive,
        CallData::Short => true,
        CallData::Selector(_) => !has_selector(entry.function_selectors@, data),
    }
}

/// How many of the first `n` kinds of calls end up in the fallback function.
pub open spec fn fallback_total(entry: ExecutionEntry, calls: Seq<CallCount>, n: int) -> nat
    decreases n,
{
    if n <= 0 {
        0
    } else {
        let call = calls[n - 1];
        fallback_total(entry, calls, n - 1) + (if reaches_fallback(entry, call.data, call.with_value) {
            call.count as nat
        } else {
            0
        })
    }
}

/// How often something happened to a contract, as far as it can be counted: to its creation code or to its
/// deployed code.
pub open spec fn executions(entry: ExecutionEntry, kind: ExecutionKind, map: HitMap, is_deployed_code: bool) -> u32 {
    match kind {
        ExecutionKind::Creation => if is_deployed_code { 0 } else { map.creation_count() },
        ExecutionKind::Receive => if is_deployed_code && entry.has_receive {
            capped_sum(map.calls_with(CallData::Empty, false), map.calls_with(CallData::Empty, true))
        } else {
            0
        },
        ExecutionKind::Fallback => if is_deployed_code {
            let total = fallback_total(entry, map.call_list(), map.call_list().len() as int);
            if total > u32::MAX { u32::MAX } else { total as u32 }
        } else {
            0
        },
    }
}

/// The hits of items from the first `n` anchors that are counted by what happens to the contract.
pub open spec fn executed(
    entry: ExecutionEntry,
    n: int,
    map: HitMap,
    is_deployed_code: bool,
    items: Option<Seq<CoverageItem>>,
) -> Seq<(usize, u32)>
    decreases n,
{
    if n <= 0 {
        Seq::empty()
    } else {
        let before = executed(entry, n - 1, map, is_deployed_code, items);
        let anchor = entry.anchors@[n - 1];
        let hits = executions(entry, anchor.kind, map, is_deployed_code);
        if hits != 0 && items is Some && anchor.item_id < items->0.len() {
            before.push((anchor.item_id, hits))
        } else {
            before
        }
    }
}

/// The hits of items that a contract's hit map stands for: those of its anchors, and those that are counted by
/// what happened to it.
pub open spec fn listed_hits(report: CoverageReport, id: ContractId, map: HitMap, is_deployed_code: bool) -> Seq<
    (usize, u32),
> {
    let anchors = report.anchors_of(id, is_deployed_code);
    let items = report.items_of(id.build_id@);
    anchored(anchors, anchors.len() as int, map, items) + (if report.executions@.contains_key(contract_key(id)) {
        let entry = report.executions@[contract_key(id)];
        executed(entry, entry.anchors@.len() as int, map, is_deployed_code, items)
    } else {
        Seq::empty()
    })
}

/// The item and the hits of a list of item hits.
pub open spec fn plain_hits_list(hits: Seq<ItemHit>) -> Seq<(usize, u32)> {
    hits.map_values(|hit: ItemHit| (hit.item_id, hit.hits))
}

/// All hits are hits of items of the build.
pub open spec fn all_of_build(hits: Seq<ItemHit>, build: Seq<char>) -> bool {
    forall|i: int| 0 <= i < hits.len() ==> (#[trigger] hits[i]).build_id@ == build
}

/// The hits that an item has from a list.
pub open spec fn hits_from(list: Seq<(usize, u32)>, item: usize) -> nat
    decreases list.len(),
{
    if list.len() == 0 {
        0
    } else {
        hits_from(list.drop_last(), item) + (if list.last().0 == item { list.last().1 as nat } else { 0 })
    }
}

/// The items with the hits that each of them has from a list.
pub open spec fn with_list(items: Seq<CoverageItem>, list: Seq<(usize, u32)>) -> Seq<CoverageItem> {
    Seq::new(items.len(), |i: int| with_hits(items[i], hits_from(list, i as usize)))
}

/// The report is the one before with the hits of a contract's instructions: they were added to those of
/// its code, and to the items that they stand for.
pub open spec fn hit_map_added(
    new: CoverageReport,
    was: CoverageReport,
    contract_id: ContractId,
    map: HitMap,
    is_deployed_code: bool,
) -> bool {
    let own = contract_key(contract_id);
    let hits = new.bytecode_hits@[own].hits;
    let list = listed_hits(was, contract_id, map, is_deployed_code);
    &&& new.same_sources(&was)
    &&& new.anchors == was.anchors
    &&& new.executions == was.executions
    &&& new.source_maps == was.source_maps
    &&& forall|key: Seq<u64>| #[trigger]
        new.bytecode_hits@.contains_key(key) <==> was.bytecode_hits@.contains_key(key) || key == own
    &&& forall|key: Seq<u64>| key != own && was.bytecode_hits@.contains_key(key) ==> #[trigger]
        new.bytecode_hits@[key] == was.bytecode_hits@[key]
    &&& if was.bytecode_hits@.contains_key(own) {
        hits.is_sum(&was.bytecode_hits@[own].hits, &map)
    } else {
        hits.code() == map.code() && hits.same_hits(&map) && hits.same_calls(&map) && hits.creation_count()
            == map.creation_count()
    }
    &&& forall|b: Seq<char>| #[trigger]
        new.items_of(b) == (match was.items_of(b) {
            Some(items) => Some(
                if b == contract_id.build_id@ {
                    with_list(items, list)
                } else {
                    items
                },
            ),
            None => None,
        })
}

impl ExecutionEntry {
    /// Whether a function is there for the data of a call.
    fn has_selector(&self, data: CallData) -> (has: bool)
        ensures
            has == has_selector(self.function_selectors@, data),
    {
        let mut i: usize = 0;
        while i < self.function_selectors.len()
            invariant
                i <= self.function_selectors@.len(),
                forall|j: int| 0 <= j < i ==> call_data((#[trigger] self.function_selectors@[j])@) != data,
            decreases self.function_selectors@.len() - i,
        {
            if CallData::new(self.function_selectors[i].as_slice()) == data {
                assert(call_data(self.function_selectors@[i as int]@) == data);
                return true;
            }
            i += 1;
        }
        false
    }

    /// Whether a call ends up in the fallback function.
    pub fn is_fallback(&self, data: CallData, with_value: bool) -> (falls_back: bool)
        ensures
            falls_back == reaches_fallback(*self, data, with_value),
    {
        if with_value && !self.fallback_payable {
            return false;
        }
        match data {
            CallData::Empty => !self.has_receive,
            CallData::Short => true,
            CallData::Selector(_) => !self.has_selector(data),
        }
    }

    /// How often something happened to the contract.
    pub fn count(&self, kind: ExecutionKind, map: &HitMap, is_deployed_code: bool) -> (count: u32)
        requires
            map.wf(),
        ensures
            count == executions(*self, kind, *map, is_deployed_code),
    {
        match kind {
            ExecutionKind::Creation => if is_deployed_code { 0 } else { map.creations() },
            ExecutionKind::Receive => {
                if is_deployed_code && self.has_receive {
                    map.call_count(CallData::Empty, false).saturating_add(map.call_count(CallData::Empty, true))
                } else {
                    0
                }
            },
            ExecutionKind::Fallback => {
                if !is_deployed_code {
                    return 0;
                }
                let calls = map.calls();
                let mut total: u32 = 0;
                let mut n: usize = 0;
                while n < calls.len()
                    invariant
                        n <= calls@.len(),
                        total == (if fallback_total(*self, calls@, n as int) > u32::MAX {
                            u32::MAX as nat
                        } else {
                            fallback_total(*self, calls@, n as int)
                        }),
                    decreases calls@.len() - n,
                {
                    let call = &calls[n];
                    if self.is_fallback(call.data, call.with_value) {
                        total = total.saturating_add(call.count);
                    }
                    n += 1;
                }
                total
            },
        }
    }
}

impl CoverageReport {
    /// Sets the anchors of a contract.
    pub fn add_anchors(&mut self, contract_id: ContractId, creation: Vec<ItemAnchor>, runtime: Vec<ItemAnchor>)
        requires
            old(self).wf(),
        ensures
            final(self).wf(),
            final(self).same_sources(old(self)),
            final(self).analyses == old(self).analyses,
            final(self).source_maps == old(self).source_maps,
            final(self).bytecode_hits == old(self).bytecode_hits,
            final(self).executions == old(self).executions,
            final(self).anchors@ == old(self).anchors@.insert(
                contract_key(contract_id),
                (AnchorEntry { contract_id, creation, runtime }),
            ),
    {
        self.anchors.put(AnchorEntry { contract_id, creation, runtime });
    }

    /// Sets what is counted by what happens to a contract, and how it can be called.
    pub fn add_execution_anchors(&mut self, entry: ExecutionEntry)
        requires
            old(self).wf(),
        ensures
            final(self).wf(),
            final(self).same_sources(old(self)),
            final(self).analyses == old(self).analyses,
            final(self).anchors == old(self).anchors,
            final(self).source_maps == old(self).source_maps,
            final(self).bytecode_hits == old(self).bytecode_hits,
            final(self).executions@ == old(self).executions@.insert(contract_key(entry.contract_id), entry),
    {
        self.executions.put(entry);
    }

    /// Sets where the instructions of a contract come from.
    pub fn add_source_map(&mut self, entry: SourceMapEntry)
        requires
            old(self).wf(),
        ensures
            final(self).wf(),
            final(self).same_sources(old(self)),
            final(self).analyses == old(self).analyses,
            final(self).anchors == old(self).anchors,
            final(self).executions == old(self).executions,
            final(self).bytecode_hits == old(self).bytecode_hits,
            final(self).source_maps@ == old(self).source_maps@.insert(contract_key(entry.contract_id), entry),
    {
        self.source_maps.put(entry);
    }

    /// The hits of items that a contract's hit map stands for.
    pub fn hit_items_for_hit_map(&self, contract_id: &ContractId, map: &HitMap, is_deployed_code: bool) -> (hits: Vec<
        ItemHit,
    >)
        requires
            self.wf(),
            map.wf(),
        ensures
            all_of_build(hits@, contract_id.build_id@),
            plain_hits_list(hits@) == listed_hits(*self, *contract_id, *map, is_deployed_code),
    {
        let mut hits: Vec<ItemHit> = Vec::new();
        let key = contract_id.make_key();
        let build_key = make_text_key(contract_id.build_id.as_str());
        let items: usize = match self.analyses.find(&build_key) {
            Some(at) => self.analyses.entries[at].analysis.items.len(),
            None => 0,
        };
        let ghost all = self.items_of(contract_id.build_id@);
        assert(plain_hits_list(hits@) =~= Seq::empty());
        if let Some(at) = self.anchors.find(&key) {
            let anchors = if is_deployed_code {
                &self.anchors.entries[at].runtime
            } else {
                &self.anchors.entries[at].creation
            };
            let mut n: usize = 0;
            while n < anchors.len()
                invariant
                    n <= anchors@.len(),
                    all is Some ==> items == all->0.len(),
                    all is None ==> items == 0,
                    all_of_build(hits@, contract_id.build_id@),
                    plain_hits_list(hits@) == anchored(anchors@, n as int, *map, all),
                decreases anchors@.len() - n,
            {
                let anchor = anchors[n];
                if let Some(count) = map.get(anchor.instruction) {
                    if anchor.item_id < items {
                        let ghost before = hits@;
                        hits.push(
                            ItemHit { build_id: contract_id.build_id.clone(), item_id: anchor.item_id, hits: count },
                        );
                        assert(plain_hits_list(hits@) =~= plain_hits_list(before).push((anchor.item_id, count)));
                    }
                }
                n += 1;
            }
        }
        let ghost direct = plain_hits_list(hits@);
        if let Some(at) = self.executions.find(&key) {
            let entry = &self.executions.entries[at];
            let mut n: usize = 0;
            assert(direct =~= direct + executed(*entry, 0, *map, is_deployed_code, all));
            while n < entry.anchors.len()
                invariant
                    n <= entry.anchors@.len(),
                    map.wf(),
                    all is Some ==> items == all->0.len(),
                    all is None ==> items == 0,
                    all_of_build(hits@, contract_id.build_id@),
                    plain_hits_list(hits@) == direct + executed(*entry, n as int, *map, is_deployed_code, all),
                decreases entry.anchors@.len() - n,
            {
                let anchor = entry.anchors[n];
                let count: u32 = entry.count(anchor.kind, map, is_deployed_code);
                if count != 0 && anchor.item_id < items {
                    let ghost before = hits@;
                    hits.push(
                        ItemHit { build_id: contract_id.build_id.clone(), item_id: anchor.item_id, hits: count },
                    );
                    assert(plain_hits_list(hits@) =~= plain_hits_list(before).push((anchor.item_id, count)));
                    assert(plain_hits_list(hits@) =~= direct + executed(
                        *entry,
                        n + 1,
                        *map,
                        is_deployed_code,
                        all,
                    ));
                }
                n += 1;
            }
        } else {
            assert(direct =~= listed_hits(*self, *contract_id, *map, is_deployed_code));
        }
        hits
    }

    /// Adds the hits of a contract's instructions: to those of its code, and to the items that they
    /// stand for.
    pub fn add_hit_map(&mut self, contract_id: &ContractId, map: &HitMap, is_deployed_code: bool)
        requires
            old(self).wf(),
            map.wf(),
        ensures
            final(self).wf(),
            hit_map_added(*final(self), *old(self), *contract_id, *map, is_deployed_code),
    {
        let key = contract_id.make_key();
        let list = self.hit_items_for_hit_map(contract_id, map, is_deployed_code);
        let ghost start = *self;
        self.add_bytecode_hits(contract_id, map);
        let ghost mid = *self;
        let mut n: usize = 0;
        proof {
            assert forall|b: Seq<char>| #[trigger] self.items_of(b) == (match old(self).items_of(b) {
                Some(items) => Some(
                    if b == contract_id.build_id@ {
                        with_list(items, plain_hits_list(list@.take(0)))
                    } else {
                        items
                    },
                ),
                None => None,
            }) by {
                assert(plain_hits_list(list@.take(0)) =~= Seq::empty());
                if let Some(items) = old(self).items_of(b) {
                    assert forall|i: int| 0 <= i < items.len() implies #[trigger] with_hits(items[i], 0) == items[i] by {}
                    assert(with_list(items, Seq::empty()) =~= items);
                }
            }
        }
        while n < list.len()
            invariant
                n <= list@.len(),
                all_of_build(list@, contract_id.build_id@),
                self.wf(),
                self.same_sources(&start),
                start == *old(self),
                self.anchors == mid.anchors,
                self.executions == mid.executions,
                self.source_maps == mid.source_maps,
                self.bytecode_hits == mid.bytecode_hits,
                forall|b: Seq<char>| #[trigger]
                    self.items_of(b) == (match old(self).items_of(b) {
                        Some(items) => Some(
                            if b == contract_id.build_id@ {
                                with_list(items, plain_hits_list(list@.take(n as int)))
                            } else {
                                items
                            },
                        ),
                        None => None,
                    }),
            decreases list@.len() - n,
        {
            let hit = &list[n];
            let ghost before = *self;
            self.add_item_hits(hit.build_id.as_str(), hit.item_id, hit.hits);
            proof {
                let was = plain_hits_list(list@.take(n as int));
                let now = plain_hits_list(list@.take(n + 1));
                assert(now.drop_last() =~= was);
                assert(now.last() == (hit.item_id, hit.hits));
                assert(hit.build_id@ == contract_id.build_id@);
                assert forall|b: Seq<char>| #[trigger] self.items_of(b) == (match old(self).items_of(b) {
                    Some(items) => Some(
                        if b == contract_id.build_id@ {
                            with_list(items, now)
                        } else {
                            items
                        },
                    ),
                    None => None,
                }) by {
                    let middle = before.items_of(b);
                    if let Some(items) = old(self).items_of(b) {
                        if b == contract_id.build_id@ {
                            assert(old(self).analyses@[text_key(b)].analysis.items.len() <= usize::MAX);
                            assert(items.len() <= usize::MAX);
                            assert(middle->0 == with_list(items, was));
                            assert forall|i: int| 0 <= i < items.len() implies #[trigger] (self.items_of(b)->0)[i]
                                == with_hits(items[i], hits_from(now, i as usize)) by {
                                assert((middle->0)[i] == with_hits(items[i], hits_from(was, i as usize)));
                            }
                            assert(self.items_of(b)->0 =~= with_list(items, now));
                        }
                    }
                }
            }
            n += 1;
        }
        proof {
            assert(list@.take(n as int) =~= list@);
        }
    }

    /// Adds the hits of a contract's instructions to those of its code.
    fn add_bytecode_hits(&mut self, contract_id: &ContractId, map: &HitMap)
        requires
            old(self).wf(),
            map.wf(),
        ensures
            final(self).wf(),
            final(self).same_sources(old(self)),
            final(self).analyses == old(self).analyses,
            final(self).anchors == old(self).anchors,
            final(self).executions == old(self).executions,
            final(self).source_maps == old(self).source_maps,
            forall|key: Seq<u64>| #[trigger]
                final(self).bytecode_hits@.contains_key(key) <==> old(self).bytecode_hits@.contains_key(key) || key
                    == contract_key(*contract_id),
            forall|key: Seq<u64>| key != contract_key(*contract_id) && old(self).bytecode_hits@.contains_key(key)
                ==> #[trigger] final(self).bytecode_hits@[key] == old(self).bytecode_hits@[key],
            ({
                let key = contract_key(*contract_id);
                let new = final(self).bytecode_hits@[key].hits;
                if old(self).bytecode_hits@.contains_key(key) {
                    new.is_sum(&old(self).bytecode_hits@[key].hits, map)
                } else {
                    new.code() == map.code() && new.same_hits(map) && new.same_calls(map) && new.creation_count()
                        == map.creation_count()
                }
            }),
    {
        let key = contract_id.make_key();
        let ghost before = self.bytecode_hits.entries@;
        match self.bytecode_hits.find(&key) {
            Some(at) => {
                assert(self.bytecode_hits@.contains_key(key@));
                self.bytecode_hits.entries[at].hits.merge(map);
                proof {
                    let entry = self.bytecode_hits.entries@[at as int];
                    assert(self.bytecode_hits.entries@ =~= before.update(at as int, entry));
                    assert(entry.contract_id == before[at as int].contract_id);
                    update_is_with_entry(before, at as int, entry);
                    with_entry_by_key(before, entry);
                }
            },
            None => {
                let entry = BytecodeEntry { contract_id: contract_id.clone(), hits: map.clone() };
                self.bytecode_hits.put(entry);
            },
        }
    }
}

}
