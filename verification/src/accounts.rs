//! Where the hits of items come from.
use crate::anchors::{
    anchored, executed, executions, fallback_total, has_selector, hit_map_added, hits_from, listed_hits,
    reaches_fallback,
};
use crate::attribution::{
    attributed, credit, credited, hits_of_slot, item_key, key_in, key_tells_item, line_hits, reported, source_name,
    tests_up_to, touched, AttributionIndex, AttributionItem, AttributionKind, NamedResult, ResolvedHitMap, SuiteResult,
};
use crate::hit_maps::{call_data, CallCount, CallData, HitMap, HitMaps};
use crate::instrumented::{adds_to, decides, InstrumentedCoverageItemIds, InstrumentedRequireProbeRole};
use crate::item_hits::{
    adding, deciding, deciding_pair, excess, is_decided, is_sum, known_tags, raising, resolved_hits, total_hits,
    ItemHit,
};
use crate::items::{CoverageItem, CoverageItemKind};
use crate::order::Keyed;
use crate::report::{
    contract_key, ContractId, CoverageReport, ExecutionAnchor, ExecutionEntry, ExecutionKind, ItemAnchor,
};
use crate::sums::{joined_empty, joined_push, total, total_adds, total_push};
use crate::table::{by_key_of_entry, has_key};
use crate::tally::{max_over, max_over_is_max, sum_over, sum_over_same};
use vstd::prelude::*;

verus! {

/// The anchors are those of a contract: those of its deployed code or those of its creation code. A contract that
/// is not known has none.
pub open spec fn are_anchors_of(
    anchors: Seq<ItemAnchor>,
    report: CoverageReport,
    id: ContractId,
    is_deployed_code: bool,
) -> bool {
    let entries = report.anchors.entries@;
    ||| exists|e: int|
        0 <= e < entries.len() && contract_key((#[trigger] entries[e]).contract_id) == contract_key(id) && anchors == (
        if is_deployed_code { entries[e].runtime@ } else { entries[e].creation@ })
    ||| anchors.len() == 0 && forall|e: int|
        0 <= e < entries.len() ==> contract_key((#[trigger] entries[e]).contract_id) != contract_key(id)
}

/// The hits that an item has through anchors: those of every instruction that an anchor leads to it from.
pub open spec fn anchor_hits(anchors: Seq<ItemAnchor>, map: HitMap, item: int) -> nat {
    total(
        anchors.map_values(
            |anchor: ItemAnchor| if anchor.item_id == item { map.hits_at(anchor.instruction) as nat } else { 0 },
        ),
    )
}

/// What is counted by what happens to a contract; nothing for a contract that is not known.
pub open spec fn is_execution_entry_of(entry: Option<ExecutionEntry>, report: CoverageReport, id: ContractId) -> bool {
    let entries = report.executions.entries@;
    match entry {
        Some(entry) => exists|e: int|
            0 <= e < entries.len() && #[trigger] entries[e] == entry && contract_key(entries[e].contract_id)
                == contract_key(id),
        None => forall|e: int|
            0 <= e < entries.len() ==> contract_key((#[trigger] entries[e]).contract_id) != contract_key(id),
    }
}

/// A call that no function and no receive function of a contract is there for, and that is not refused.
pub open spec fn falls_back(entry: ExecutionEntry, call: CallCount) -> bool {
    &&& call.with_value ==> entry.fallback_payable
    &&& call.data is Empty ==> !entry.has_receive
    &&& call.data is Selector ==> forall|i: int|
        0 <= i < entry.function_selectors@.len() ==> call_data((#[trigger] entry.function_selectors@[i])@) != call.data
}

/// How often something happened to a contract: a creation while its creation code ran, a call while its deployed
/// code did.
pub open spec fn happenings(entry: ExecutionEntry, kind: ExecutionKind, map: HitMap, is_deployed_code: bool) -> nat {
    match (kind, is_deployed_code) {
        (ExecutionKind::Creation, false) => map.creation_count() as nat,
        (ExecutionKind::Receive, true) => if entry.has_receive {
            (map.calls_with(CallData::Empty, false) + map.calls_with(CallData::Empty, true)) as nat
        } else {
            0
        },
        (ExecutionKind::Fallback, true) => total(
            map.call_list().map_values(|call: CallCount| if falls_back(entry, call) { call.count as nat } else { 0 }),
        ),
        _ => 0,
    }
}

/// The largest count that can be held, or the number if it is smaller.
pub open spec fn at_most(n: nat) -> nat {
    if n <= 0xffff_ffff { n } else { 0xffff_ffff }
}

/// The hits that an item has through what happened to its contract.
pub open spec fn execution_hits(entry: Option<ExecutionEntry>, map: HitMap, is_deployed_code: bool, item: int) -> nat {
    match entry {
        Some(entry) => total(
            entry.anchors@.map_values(
                |anchor: ExecutionAnchor|
                    if anchor.item_id == item {
                        at_most(happenings(entry, anchor.kind, map, is_deployed_code))
                    } else {
                        0
                    },
            ),
        ),
        None => 0,
    }
}

proof fn hits_from_adds(a: Seq<(usize, u32)>, b: Seq<(usize, u32)>, item: usize)
    ensures
        hits_from(a + b, item) == hits_from(a, item) + hits_from(b, item),
    decreases b.len(),
{
    if b.len() == 0 {
        assert(a + b =~= a);
    } else {
        hits_from_adds(a, b.drop_last(), item);
        assert((a + b).drop_last() =~= a + b.drop_last());
        assert((a + b).last() == b.last());
    }
}

proof fn hits_from_push(a: Seq<(usize, u32)>, hit: (usize, u32), item: usize)
    ensures
        hits_from(a.push(hit), item) == hits_from(a, item) + (if hit.0 == item { hit.1 as nat } else { 0 }),
{
    assert(a.push(hit).drop_last() =~= a);
}

proof fn anchored_adds_up(anchors: Seq<ItemAnchor>, n: int, map: HitMap, items: Seq<CoverageItem>, item: usize)
    requires
        0 <= n <= anchors.len(),
        item < items.len(),
    ensures
        hits_from(anchored(anchors, n, map, Some(items)), item) == anchor_hits(anchors.take(n), map, item as int),
    decreases n,
{
    let f = |anchor: ItemAnchor|
        if anchor.item_id == item as int { map.hits_at(anchor.instruction) as nat } else { 0 };
    if n == 0 {
        assert(anchors.take(0).map_values(f) =~= Seq::empty());
    } else {
        anchored_adds_up(anchors, n - 1, map, items, item);
        let anchor = anchors[n - 1];
        let before = anchored(anchors, n - 1, map, Some(items));
        hits_from_push(before, (anchor.item_id, map.hits_at(anchor.instruction)), item);
        assert(anchors.take(n).map_values(f) =~= anchors.take(n - 1).map_values(f).push(f(anchor)));
        total_push(anchors.take(n - 1).map_values(f), f(anchor));
    }
}

proof fn fallbacks_add_up(entry: ExecutionEntry, calls: Seq<CallCount>, n: int)
    requires
        0 <= n <= calls.len(),
    ensures
        fallback_total(entry, calls, n) == total(
            calls.take(n).map_values(|call: CallCount| if falls_back(entry, call) { call.count as nat } else { 0 }),
        ),
    decreases n,
{
    let f = |call: CallCount| if falls_back(entry, call) { call.count as nat } else { 0 };
    if n == 0 {
        assert(calls.take(0).map_values(f) =~= Seq::empty());
    } else {
        fallbacks_add_up(entry, calls, n - 1);
        let call = calls[n - 1];
        assert(falls_back(entry, call) == reaches_fallback(entry, call.data, call.with_value)) by {
            let selectors = entry.function_selectors@;
            if has_selector(selectors, call.data) {
                let i = choose|i: int| 0 <= i < selectors.len() && call_data((#[trigger] selectors[i])@) == call.data;
                assert(call_data(entry.function_selectors@[i]@) == call.data);
            }
        }
        assert(calls.take(n).map_values(f) =~= calls.take(n - 1).map_values(f).push(f(call)));
        total_push(calls.take(n - 1).map_values(f), f(call));
    }
}

proof fn executions_happened(entry: ExecutionEntry, kind: ExecutionKind, map: HitMap, is_deployed_code: bool)
    ensures
        executions(entry, kind, map, is_deployed_code) == at_most(happenings(entry, kind, map, is_deployed_code)),
{
    let calls = map.call_list();
    fallbacks_add_up(entry, calls, calls.len() as int);
    assert(calls.take(calls.len() as int) =~= calls);
}

proof fn executed_adds_up(
    entry: ExecutionEntry,
    n: int,
    map: HitMap,
    is_deployed_code: bool,
    items: Seq<CoverageItem>,
    item: usize,
)
    requires
        0 <= n <= entry.anchors@.len(),
        item < items.len(),
    ensures
        hits_from(executed(entry, n, map, is_deployed_code, Some(items)), item) == total(
            entry.anchors@.take(n).map_values(
                |anchor: ExecutionAnchor|
                    if anchor.item_id == item as int {
                        at_most(happenings(entry, anchor.kind, map, is_deployed_code))
                    } else {
                        0
                    },
            ),
        ),
    decreases n,
{
    let f = |anchor: ExecutionAnchor|
        if anchor.item_id == item as int {
            at_most(happenings(entry, anchor.kind, map, is_deployed_code))
        } else {
            0
        };
    let anchors = entry.anchors@;
    if n == 0 {
        assert(anchors.take(0).map_values(f) =~= Seq::empty());
    } else {
        executed_adds_up(entry, n - 1, map, is_deployed_code, items, item);
        let anchor = anchors[n - 1];
        executions_happened(entry, anchor.kind, map, is_deployed_code);
        let before = executed(entry, n - 1, map, is_deployed_code, Some(items));
        hits_from_push(before, (anchor.item_id, executions(entry, anchor.kind, map, is_deployed_code)), item);
        assert(anchors.take(n).map_values(f) =~= anchors.take(n - 1).map_values(f).push(f(anchor)));
        total_push(anchors.take(n - 1).map_values(f), f(anchor));
    }
}

/// The hits that an item has from a list are those of its anchors and of what happened to its contract.
proof fn listed_adds_up(
    report: CoverageReport,
    id: ContractId,
    map: HitMap,
    is_deployed_code: bool,
    anchors: Seq<ItemAnchor>,
    entry: Option<ExecutionEntry>,
    item: usize,
)
    requires
        report.wf(),
        are_anchors_of(anchors, report, id, is_deployed_code),
        is_execution_entry_of(entry, report, id),
        report.items_of(id.build_id@) is Some,
        item < report.items_of(id.build_id@)->0.len(),
    ensures
        hits_from(listed_hits(report, id, map, is_deployed_code), item) == anchor_hits(anchors, map, item as int)
            + execution_hits(entry, map, is_deployed_code, item as int),
{
    let items = report.items_of(id.build_id@)->0;
    let key = contract_key(id);
    let entries = report.anchors.entries@;
    assert(report.anchors_of(id, is_deployed_code) =~= anchors) by {
        if exists|e: int| 0 <= e < entries.len() && contract_key((#[trigger] entries[e]).contract_id) == key {
            let e = choose|e: int|
                0 <= e < entries.len() && contract_key((#[trigger] entries[e]).contract_id) == key && anchors == (
                if is_deployed_code { entries[e].runtime@ } else { entries[e].creation@ });
            by_key_of_entry(entries, e);
            assert(entries[e].sort_key() == key);
        } else if has_key(entries, key) {
            let e = choose|e: int| 0 <= e < entries.len() && (#[trigger] entries[e]).sort_key() == key;
            assert(contract_key(entries[e].contract_id) == key);
        }
    }
    let known = report.executions.entries@;
    let first = anchored(anchors, anchors.len() as int, map, Some(items));
    anchored_adds_up(anchors, anchors.len() as int, map, items, item);
    assert(anchors.take(anchors.len() as int) =~= anchors);
    match entry {
        Some(entry) => {
            let e = choose|e: int|
                0 <= e < known.len() && #[trigger] known[e] == entry && contract_key(known[e].contract_id) == key;
            by_key_of_entry(known, e);
            assert(known[e].sort_key() == key);
            let all = entry.anchors@;
            let second = executed(entry, all.len() as int, map, is_deployed_code, Some(items));
            hits_from_adds(first, second, item);
            executed_adds_up(entry, all.len() as int, map, is_deployed_code, items, item);
            assert(all.take(all.len() as int) =~= all);
        },
        None => {
            if has_key(known, key) {
                let e = choose|e: int| 0 <= e < known.len() && (#[trigger] known[e]).sort_key() == key;
                assert(contract_key(known[e].contract_id) == key);
            }
            hits_from_adds(first, Seq::empty(), item);
        },
    }
}

/// Collecting a hit map adds to every item of the contract's build the hits of exactly those instructions from
/// which an anchor leads to the item, of the deployed code or of the creation code as the map is, and what happened
/// to the contract. All else about the items stays as it is.
pub proof fn collected_hits_come_from_anchors(
    new: CoverageReport,
    was: CoverageReport,
    id: ContractId,
    map: HitMap,
    is_deployed_code: bool,
    anchors: Seq<ItemAnchor>,
    entry: Option<ExecutionEntry>,
    item: usize,
)
    requires
        was.wf(),
        hit_map_added(new, was, id, map, is_deployed_code),
        are_anchors_of(anchors, was, id, is_deployed_code),
        is_execution_entry_of(entry, was, id),
        was.items_of(id.build_id@) is Some,
        item < was.items_of(id.build_id@)->0.len(),
    ensures
        ({
            let before = was.items_of(id.build_id@)->0;
            let more = anchor_hits(anchors, map, item as int) + execution_hits(entry, map, is_deployed_code, item as int);
            &&& new.items_of(id.build_id@) is Some
            &&& new.items_of(id.build_id@)->0.len() == before.len()
            &&& new.items_of(id.build_id@)->0[item as int].hits == at_most(before[item as int].hits as nat + more)
            &&& new.items_of(id.build_id@)->0[item as int].kind == before[item as int].kind
            &&& new.items_of(id.build_id@)->0[item as int].loc == before[item as int].loc
        }),
{
    listed_adds_up(was, id, map, is_deployed_code, anchors, entry, item);
}

/// The hits that an item of a build has from a list.
pub open spec fn hits_for(list: Seq<(Seq<char>, usize, u32)>, build: Seq<char>, item: usize) -> nat {
    total(list.map_values(own_hits(build, item)))
}

/// The hits of an entry of a list, if it is one for an item of a build.
pub open spec fn own_hits(build: Seq<char>, item: usize) -> spec_fn((Seq<char>, usize, u32)) -> nat {
    |hit: (Seq<char>, usize, u32)| if hit.0 == build && hit.1 == item { hit.2 as nat } else { 0 }
}

proof fn hits_for_adds(
    a: Seq<(Seq<char>, usize, u32)>,
    b: Seq<(Seq<char>, usize, u32)>,
    build: Seq<char>,
    item: usize,
)
    ensures
        hits_for(a + b, build, item) == hits_for(a, build, item) + hits_for(b, build, item),
{
    let f = own_hits(build, item);
    assert((a + b).map_values(f) =~= a.map_values(f) + b.map_values(f));
    total_adds(a.map_values(f), b.map_values(f));
}

proof fn hits_for_build(list: Seq<(usize, u32)>, build: Seq<char>, item: usize)
    ensures
        hits_for(list.map_values(|hit: (usize, u32)| (build, hit.0, hit.1)), build, item) == hits_from(list, item),
    decreases list.len(),
{
    let g = |hit: (usize, u32)| (build, hit.0, hit.1);
    let f = own_hits(build, item);
    if list.len() == 0 {
        assert(list.map_values(g).map_values(f) =~= Seq::empty());
    } else {
        hits_for_build(list.drop_last(), build, item);
        let front = list.drop_last().map_values(g).map_values(f);
        assert(list.map_values(g).map_values(f) =~= front.push(f(g(list.last()))));
        total_push(front, f(g(list.last())));
    }
}

/// What a test is credited with for a hit map comes from the anchors of the code that the map belongs to: for
/// deployed code from the anchors of the deployed code, for creation code from those of the creation code. It is what
/// collecting the map adds to the items of the report.
pub proof fn attributed_hits_come_from_anchors(
    report: CoverageReport,
    resolved: Map<Seq<u8>, ResolvedHitMap>,
    maps: HitMaps,
    slot: int,
    anchors: Seq<ItemAnchor>,
    entry: Option<ExecutionEntry>,
    item: usize,
)
    requires
        report.wf(),
        resolved.contains_key(maps.hash_at(slot)),
        ({
            let contract = resolved[maps.hash_at(slot)];
            let build = contract.contract_id.build_id@;
            &&& are_anchors_of(anchors, report, contract.contract_id, contract.is_deployed_code)
            &&& is_execution_entry_of(entry, report, contract.contract_id)
            &&& report.items_of(build) is Some
            &&& item < report.items_of(build)->0.len()
        }),
    ensures
        ({
            let contract = resolved[maps.hash_at(slot)];
            let build = contract.contract_id.build_id@;
            let map = maps.spec_at(slot);
            let credited = hits_for(hits_of_slot(report, resolved, maps, slot), build, item);
            &&& credited == anchor_hits(anchors, map, item as int) + execution_hits(
                entry,
                map,
                contract.is_deployed_code,
                item as int,
            )
            &&& forall|new: CoverageReport| #[trigger]
                hit_map_added(new, report, contract.contract_id, map, contract.is_deployed_code) ==> new.items_of(
                    build,
                ) is Some && new.items_of(build)->0[item as int].hits == at_most(
                    report.items_of(build)->0[item as int].hits as nat + credited,
                )
        }),
{
    let contract = resolved[maps.hash_at(slot)];
    let build = contract.contract_id.build_id@;
    let map = maps.spec_at(slot);
    listed_adds_up(report, contract.contract_id, map, contract.is_deployed_code, anchors, entry, item);
    hits_for_build(listed_hits(report, contract.contract_id, map, contract.is_deployed_code), build, item);
    assert forall|new: CoverageReport| #[trigger]
        hit_map_added(new, report, contract.contract_id, map, contract.is_deployed_code) implies new.items_of(
        build,
    ) is Some && new.items_of(build)->0[item as int].hits == at_most(
        report.items_of(build)->0[item as int].hits as nat + hits_for(
            hits_of_slot(report, resolved, maps, slot),
            build,
            item,
        ),
    ) by {
        collected_hits_come_from_anchors(
            new,
            report,
            contract.contract_id,
            map,
            contract.is_deployed_code,
            anchors,
            entry,
            item,
        );
    }
}

/// A test is credited with the hits of all its hit maps, and with none for a map that is not resolved or for items
/// of other builds.
pub proof fn every_hit_map_is_credited(
    report: CoverageReport,
    resolved: Map<Seq<u8>, ResolvedHitMap>,
    maps: HitMaps,
    n: int,
    build: Seq<char>,
    item: usize,
)
    requires
        0 <= n,
    ensures
        hits_for(line_hits(report, resolved, maps, n), build, item) == total(
            Seq::new(n as nat, |slot: int| hits_for(hits_of_slot(report, resolved, maps, slot), build, item)),
        ),
        forall|slot: int|
            !(resolved.contains_key(#[trigger] maps.hash_at(slot)) && resolved[maps.hash_at(
                slot,
            )].contract_id.build_id@ == build) ==> hits_for(hits_of_slot(report, resolved, maps, slot), build, item) == 0,
    decreases n,
{
    let f = own_hits(build, item);
    let all = Seq::new(n as nat, |slot: int| hits_for(hits_of_slot(report, resolved, maps, slot), build, item));
    if n == 0 {
        assert(all =~= Seq::empty());
        assert(line_hits(report, resolved, maps, 0).map_values(f) =~= Seq::empty());
    } else {
        every_hit_map_is_credited(report, resolved, maps, n - 1, build, item);
        let before = Seq::new(
            (n - 1) as nat,
            |slot: int| hits_for(hits_of_slot(report, resolved, maps, slot), build, item),
        );
        let own = hits_of_slot(report, resolved, maps, n - 1);
        hits_for_adds(line_hits(report, resolved, maps, n - 1), own, build, item);
        assert(all =~= before.push(hits_for(own, build, item)));
        total_push(before, hits_for(own, build, item));
    }
    assert forall|slot: int| !(resolved.contains_key(#[trigger] maps.hash_at(slot)) && resolved[maps.hash_at(
        slot,
    )].contract_id.build_id@ == build) implies hits_for(hits_of_slot(report, resolved, maps, slot), build, item) == 0 by {
        let list = hits_of_slot(report, resolved, maps, slot);
        assert forall|i: int| 0 <= i < list.len() implies #[trigger] list.map_values(f)[i] == 0 by {
            assert(list[i].0 != build);
        }
        crate::sums::total_of_zeros(list.map_values(f));
    }
}

/// The hit is one of an item of a registered source that the entry describes in every field.
pub open spec fn lands_on(report: CoverageReport, hit: ItemHit, entry: AttributionItem) -> bool {
    match report.items_of(hit.build_id@) {
        Some(items) => {
            let item = items[hit.item_id as int];
            let path = report.path_of(hit.build_id@, item.loc.source_id);
            &&& hit.item_id < items.len()
            &&& path is Some
            &&& entry.source@ == source_name(report, path->0)
            &&& entry.contract@ == item.loc.contract_name@
            &&& entry.line_start == item.loc.lines.start
            &&& entry.line_end == item.loc.lines.end
            &&& entry.byte_start == item.loc.bytes.start
            &&& entry.byte_end == item.loc.bytes.end
            &&& match item.kind {
                CoverageItemKind::Line => entry.kind == AttributionKind::Line,
                CoverageItemKind::Statement => entry.kind == AttributionKind::Statement,
                CoverageItemKind::Branch { branch_id, path_id, .. } => entry.kind == AttributionKind::Branch
                    && entry.branch_id == Some(branch_id) && entry.path_id == Some(path_id),
                CoverageItemKind::Function { name } => entry.kind == AttributionKind::Function && entry.function is Some
                    && entry.function->0@ == name@,
            }
            &&& entry.function is Some ==> item.kind is Function
            &&& entry.branch_id is Some ==> item.kind is Branch
            &&& entry.path_id is Some ==> item.kind is Branch
        },
        None => false,
    }
}

proof fn credited_lands(index: AttributionIndex, hit: ItemHit, id: int)
    requires
        index.wf(),
        0 <= id < index.items.entries@.len(),
    ensures
        credited(index, hit, id) == lands_on(*index.report, hit, index.items.entries@[id]),
{
    let entry = index.items.entries@[id];
    let report = *index.report;
    if report.items_of(hit.build_id@) is Some && hit.item_id < report.items_of(hit.build_id@)->0.len() {
        let item = report.items_of(hit.build_id@)->0[hit.item_id as int];
        let path = report.path_of(hit.build_id@, item.loc.source_id);
        if path is Some {
            let name = source_name(report, path->0);
            if credited(index, hit, id) {
                key_tells_item(entry, name, item);
            }
            if lands_on(report, hit, entry) {
                assert(entry.sort_key() =~= key_in(name, item));
            }
        }
    }
}

proof fn credit_is_total(index: AttributionIndex, list: Seq<ItemHit>, n: int, id: int)
    requires
        index.wf(),
        0 <= n <= list.len(),
        0 <= id < index.items.entries@.len(),
    ensures
        credit(index, list, n, id) == total(
            list.take(n).map_values(
                |hit: ItemHit|
                    if lands_on(*index.report, hit, index.items.entries@[id]) { hit.hits as nat } else { 0 },
            ),
        ),
    decreases n,
{
    let f = |hit: ItemHit| if lands_on(*index.report, hit, index.items.entries@[id]) { hit.hits as nat } else { 0 };
    if n == 0 {
        assert(list.take(0).map_values(f) =~= Seq::empty());
    } else {
        credit_is_total(index, list, n - 1, id);
        credited_lands(index, list[n - 1], id);
        assert(list.take(n).map_values(f) =~= list.take(n - 1).map_values(f).push(f(list[n - 1])));
        total_push(list.take(n - 1).map_values(f), f(list[n - 1]));
    }
}

/// An entry with other hits.
proof fn hits_do_not_matter(report: CoverageReport, list: Seq<ItemHit>, a: AttributionItem, b: AttributionItem)
    requires
        a.source == b.source,
        a.contract == b.contract,
        a.kind == b.kind,
        a.line_start == b.line_start,
        a.line_end == b.line_end,
        a.byte_start == b.byte_start,
        a.byte_end == b.byte_end,
        a.function == b.function,
        a.branch_id == b.branch_id,
        a.path_id == b.path_id,
    ensures
        forall|hit: ItemHit| #[trigger] lands_on(report, hit, a) == lands_on(report, hit, b),
        list.map_values(|hit: ItemHit| if lands_on(report, hit, a) { hit.hits as nat } else { 0 }) == list.map_values(
            |hit: ItemHit| if lands_on(report, hit, b) { hit.hits as nat } else { 0 },
        ),
{
    assert(list.map_values(|hit: ItemHit| if lands_on(report, hit, a) { hit.hits as nat } else { 0 })
        =~= list.map_values(|hit: ItemHit| if lands_on(report, hit, b) { hit.hits as nat } else { 0 }));
}

proof fn attributed_entries(index: AttributionIndex, list: Seq<ItemHit>, n: int)
    requires
        index.wf(),
        0 <= n <= index.items.entries@.len(),
    ensures
        forall|c: int|
            0 <= c < attributed(index, list, n).len() ==> {
                let entry = #[trigger] attributed(index, list, n)[c];
                &&& entry.hits == at_most(
                    total(
                        list.map_values(
                            |hit: ItemHit| if lands_on(*index.report, hit, entry) { hit.hits as nat } else { 0 },
                        ),
                    ),
                )
                &&& exists|k: int| 0 <= k < list.len() && lands_on(*index.report, #[trigger] list[k], entry)
            },
        forall|k: int, id: int|
            0 <= k < list.len() && 0 <= id < n && credited(index, #[trigger] list[k], id) && #[trigger] credited(
                index,
                list[k],
                id,
            ) ==> exists|c: int|
                0 <= c < attributed(index, list, n).len() && lands_on(
                    *index.report,
                    list[k],
                    #[trigger] attributed(index, list, n)[c],
                ),
    decreases n,
{
    if n > 0 {
        attributed_entries(index, list, n - 1);
        let before = attributed(index, list, n - 1);
        let now = attributed(index, list, n);
        let plain = index.items.entries@[n - 1];
        let report = *index.report;
        credit_is_total(index, list, list.len() as int, n - 1);
        assert(list.take(list.len() as int) =~= list);
        if touched(index, list, list.len() as int, n - 1) {
            let entry = now.last();
            hits_do_not_matter(report, list, entry, plain);
            let k = choose|k: int| 0 <= k < list.len() && credited(index, #[trigger] list[k], n - 1);
            credited_lands(index, list[k], n - 1);
            assert(lands_on(report, list[k], entry));
        }
        assert forall|c: int| 0 <= c < now.len() implies {
            let entry = #[trigger] now[c];
            &&& entry.hits == at_most(
                total(
                    list.map_values(
                        |hit: ItemHit| if lands_on(*index.report, hit, entry) { hit.hits as nat } else { 0 },
                    ),
                ),
            )
            &&& exists|k: int| 0 <= k < list.len() && lands_on(*index.report, #[trigger] list[k], entry)
        } by {
            if c < before.len() {
                assert(now[c] == before[c]);
            }
        }
        assert forall|k: int, id: int|
            0 <= k < list.len() && 0 <= id < n && credited(index, #[trigger] list[k], id) && #[trigger] credited(
                index,
                list[k],
                id,
            ) implies exists|c: int|
            0 <= c < now.len() && lands_on(report, list[k], #[trigger] now[c]) by {
            if id < n - 1 {
                let c = choose|c: int| 0 <= c < before.len() && lands_on(report, list[k], #[trigger] before[c]);
                assert(now[c] == before[c]);
            } else {
                assert(touched(index, list, list.len() as int, n - 1));
                credited_lands(index, list[k], n - 1);
                hits_do_not_matter(report, list, now.last(), plain);
                assert(lands_on(report, list[k], now[now.len() - 1]));
            }
        }
    }
}

/// Every entry that a test is credited with has, as far as it can be counted, the sum of the hits of the listed
/// items that it describes, and at least one of them is listed. Every listed hit of an item whose source is
/// registered is in an entry that describes the item.
pub proof fn entries_add_up_listed_hits(index: AttributionIndex, list: Seq<ItemHit>)
    requires
        index.wf(),
    ensures
        ({
            let covered = attributed(index, list, index.items.entries@.len() as int);
            let report = *index.report;
            &&& forall|c: int|
                0 <= c < covered.len() ==> (#[trigger] covered[c]).hits == at_most(
                    total(
                        list.map_values(
                            |hit: ItemHit| if lands_on(report, hit, covered[c]) { hit.hits as nat } else { 0 },
                        ),
                    ),
                )
            &&& forall|c: int|
                0 <= c < covered.len() ==> exists|k: int|
                    0 <= k < list.len() && lands_on(report, #[trigger] list[k], #[trigger] covered[c])
            &&& forall|k: int|
                0 <= k < list.len() && report.items_of((#[trigger] list[k]).build_id@) is Some && list[k].item_id
                    < report.items_of(list[k].build_id@)->0.len() && report.path_of(
                    list[k].build_id@,
                    report.items_of(list[k].build_id@)->0[list[k].item_id as int].loc.source_id,
                ) is Some ==> exists|c: int|
                    0 <= c < covered.len() && lands_on(report, list[k], #[trigger] covered[c])
        }),
{
    let m = index.items.entries@.len() as int;
    let covered = attributed(index, list, m);
    let report = *index.report;
    attributed_entries(index, list, m);
    assert forall|c: int| 0 <= c < covered.len() implies (#[trigger] covered[c]).hits == at_most(
        total(
            list.map_values(|hit: ItemHit| if lands_on(report, hit, covered[c]) { hit.hits as nat } else { 0 }),
        ),
    ) by {
        let entry = covered[c];
        hits_do_not_matter(report, list, entry, covered[c]);
        assert(list.map_values(|hit: ItemHit| if lands_on(*index.report, hit, entry) { hit.hits as nat } else { 0 })
            =~= list.map_values(|hit: ItemHit| if lands_on(report, hit, covered[c]) { hit.hits as nat } else { 0 }));
    }
    assert forall|k: int|
        0 <= k < list.len() && report.items_of((#[trigger] list[k]).build_id@) is Some && list[k].item_id
            < report.items_of(list[k].build_id@)->0.len() && report.path_of(
            list[k].build_id@,
            report.items_of(list[k].build_id@)->0[list[k].item_id as int].loc.source_id,
        ) is Some implies exists|c: int|
        0 <= c < covered.len() && lands_on(report, list[k], #[trigger] covered[c]) by {
        let id = entry_of_hit(index, list[k]);
        assert(credited(index, list[k], id));
    }
}

proof fn entry_of_hit(index: AttributionIndex, hit: ItemHit) -> (id: int)
    requires
        index.wf(),
        index.report.items_of(hit.build_id@) is Some,
        hit.item_id < index.report.items_of(hit.build_id@)->0.len(),
        index.report.path_of(
            hit.build_id@,
            index.report.items_of(hit.build_id@)->0[hit.item_id as int].loc.source_id,
        ) is Some,
    ensures
        0 <= id < index.items.entries@.len(),
        credited(index, hit, id),
{
    let report = *index.report;
    let build = hit.build_id@;
    let items = report.items_of(build)->0;
    let key = item_key(report, build, items[hit.item_id as int])->0;
    let analyses = report.analyses.entries@;
    let build_key = crate::text::text_key(build);
    let a = choose|a: int| 0 <= a < analyses.len() && (#[trigger] analyses[a]).sort_key() == build_key;
    by_key_of_entry(analyses, a);
    crate::report::build_key_injective(analyses[a].build_id@, build);
    assert(analyses[a].analysis.items@ == items);
    assert(item_key(report, analyses[a].build_id@, items[hit.item_id as int]) == Some(key));
    assert(reported(report, analyses.len() as int, key));
    assert(index.items@.contains_key(key));
    let entries = index.items.entries@;
    let id = choose|id: int| 0 <= id < entries.len() && (#[trigger] entries[id]).sort_key() == key;
    assert(index.id_of(build, items[hit.item_id as int], id));
    id
}

/// Every test of every suite has an entry, suite by suite and test by test, whatever became of it.
pub proof fn every_test_is_listed(suites: Seq<SuiteResult>, n: int)
    requires
        0 <= n <= suites.len(),
    ensures
        tests_up_to(suites, n, 0) == Seq::new(
            n as nat,
            |k: int|
                suites[k].test_results@.map_values(|test: NamedResult| (suites[k].name, test)),
        ).flatten(),
    decreases n,
{
    let all = Seq::new(
        n as nat,
        |k: int| suites[k].test_results@.map_values(|test: NamedResult| (suites[k].name, test)),
    );
    if n == 0 {
        assert(all =~= Seq::empty());
        joined_empty::<(String, NamedResult)>();
    } else {
        every_test_is_listed(suites, n - 1);
        let before = Seq::new(
            (n - 1) as nat,
            |k: int| suites[k].test_results@.map_values(|test: NamedResult| (suites[k].name, test)),
        );
        let own = suites[n - 1].test_results@.map_values(|test: NamedResult| (suites[n - 1].name, test));
        assert(all =~= before.push(own));
        joined_push(before, own);
        suite_is_listed(suites, n - 1, suites[n - 1].test_results@.len() as int);
        assert(suites[n - 1].test_results@.take(suites[n - 1].test_results@.len() as int)
            =~= suites[n - 1].test_results@);
    }
}

proof fn suite_is_listed(suites: Seq<SuiteResult>, n: int, m: int)
    requires
        0 <= n < suites.len(),
        0 <= m <= suites[n].test_results@.len(),
    ensures
        tests_up_to(suites, n, m) == tests_up_to(suites, n, 0) + suites[n].test_results@.take(m).map_values(
            |test: NamedResult| (suites[n].name, test),
        ),
    decreases m,
{
    let f = |test: NamedResult| (suites[n].name, test);
    let tests = suites[n].test_results@;
    if m == 0 {
        assert(tests.take(0).map_values(f) =~= Seq::empty());
        assert(tests_up_to(suites, n, 0) + tests.take(0).map_values(f) =~= tests_up_to(suites, n, 0));
    } else {
        suite_is_listed(suites, n, m - 1);
        assert(tests.take(m).map_values(f) =~= tests.take(m - 1).map_values(f).push(f(tests[m - 1])));
        assert(tests_up_to(suites, n, m) =~= tests_up_to(suites, n, 0) + tests.take(m).map_values(f));
    }
}

/// The hits of a tag over all maps are the sum of those in each.
pub proof fn tag_hits_add_up(maps: Seq<Map<Seq<u8>, u64>>, tag: Seq<u8>)
    ensures
        total_hits(maps, tag) == total(
            maps.map_values(
                |map: Map<Seq<u8>, u64>| if map.contains_key(tag) { map[tag] as nat } else { 0 },
            ),
        ),
    decreases maps.len(),
{
    let f = |map: Map<Seq<u8>, u64>| if map.contains_key(tag) { map[tag] as nat } else { 0 };
    if maps.len() == 0 {
        assert(maps.map_values(f) =~= Seq::empty());
    } else {
        tag_hits_add_up(maps.drop_last(), tag);
        assert(maps.map_values(f) =~= maps.drop_last().map_values(f).push(f(maps.last())));
        total_push(maps.drop_last().map_values(f), f(maps.last()));
    }
}

/// A tag whose probe is counted for the item as its statement or as its path of a branch.
pub open spec fn counts_for(ids: InstrumentedCoverageItemIds, build: Seq<char>, item: usize) -> bool {
    ids.build_id@ == build && (ids.statement_item_id == Some(item) || ids.branch_item_id == Some(item))
}

/// A tag whose probe stands on the line of the item or in its function.
pub open spec fn stands_on(ids: InstrumentedCoverageItemIds, build: Seq<char>, item: usize) -> bool {
    ids.build_id@ == build && (ids.line_item_id == item || ids.function_item_id == Some(item))
}

/// A tag whose probe is one of those of the requirement that the item is an outcome of.
pub open spec fn tests_for(ids: InstrumentedCoverageItemIds, build: Seq<char>, item: usize) -> bool {
    &&& ids.build_id@ == build
    &&& ids.require_branch is Some
    &&& ids.require_branch->0.true_item_id == item || ids.require_branch->0.false_item_id == item
}

/// What the items of an index are resolved to from the hits of tags:
///
/// - a statement or a path of a branch has the sum of the hits of its tags,
/// - a line or a function has the largest number of hits among its tags: it has the hits of one of them, and no
///   fewer than any,
/// - an item without a tag that was hit has none.
pub proof fn items_have_the_hits_of_their_tags(
    index: Map<Seq<u8>, InstrumentedCoverageItemIds>,
    maps: Seq<Map<Seq<u8>, u64>>,
    build: Seq<char>,
    item: usize,
)
    requires
        index.dom().finite(),
        forall|tag: Seq<u8>| #[trigger] index.contains_key(tag) ==> !tests_for(index[tag], build, item),
    ensures
        ({
            let hits = resolved_hits(index, known_tags(index, maps), maps, build, item);
            let sums = exists|tag: Seq<u8>| #[trigger] index.contains_key(tag) && counts_for(index[tag], build, item);
            &&& sums ==> hits == at_most(
                sum_over(
                    known_tags(index, maps),
                    |tag: Seq<u8>|
                        (if index[tag].build_id@ == build && index[tag].statement_item_id == Some(item) {
                            at_most(total_hits(maps, tag))
                        } else {
                            0
                        }) + (if index[tag].build_id@ == build && index[tag].branch_item_id == Some(item) {
                            at_most(total_hits(maps, tag))
                        } else {
                            0
                        }),
                ),
            )
            &&& !sums ==> forall|tag: Seq<u8>| #[trigger]
                index.contains_key(tag) && stands_on(index[tag], build, item) ==> at_most(total_hits(maps, tag)) <= hits
            &&& !sums ==> hits == 0 || exists|tag: Seq<u8>| #[trigger]
                index.contains_key(tag) && stands_on(index[tag], build, item) && hits == at_most(total_hits(maps, tag))
        }),
{
    let tags = known_tags(index, maps);
    assert(tags.subset_of(index.dom()));
    vstd::set_lib::lemma_set_subset_finite(index.dom(), tags);
    assert(!is_decided(index, tags, build, item)) by {
        if is_decided(index, tags, build, item) {
            let tag = choose|tag: Seq<u8>| #[trigger] tags.contains(tag) && decides(index[tag], build, item);
            assert(index.contains_key(tag));
        }
    }
    let sums = exists|tag: Seq<u8>| #[trigger] index.contains_key(tag) && counts_for(index[tag], build, item);
    assert(sums == is_sum(index, build, item)) by {
        if sums {
            let tag = choose|tag: Seq<u8>| #[trigger] index.contains_key(tag) && counts_for(index[tag], build, item);
            assert(adds_to(index[tag], build, item));
        }
        if is_sum(index, build, item) {
            let tag = choose|tag: Seq<u8>| #[trigger] index.contains_key(tag) && adds_to(index[tag], build, item);
            assert(counts_for(index[tag], build, item));
        }
    }
    let f = |tag: Seq<u8>|
        (if index[tag].build_id@ == build && index[tag].statement_item_id == Some(item) {
            at_most(total_hits(maps, tag))
        } else {
            0
        }) + (if index[tag].build_id@ == build && index[tag].branch_item_id == Some(item) {
            at_most(total_hits(maps, tag))
        } else {
            0
        });
    let g = raising(index, maps, build, item);
    let h = adding(index, maps, build, item);
    assert(forall|tag: Seq<u8>| #[trigger] h(tag) == f(tag));
    sum_over_same(tags, h, f);
    max_over_is_max(tags, g);
    if !sums {
        let hits = max_over(tags, g);
        assert forall|tag: Seq<u8>| #[trigger]
            index.contains_key(tag) && stands_on(index[tag], build, item) implies at_most(total_hits(maps, tag)) <= hits by {
            if tags.contains(tag) {
                assert(g(tag) == at_most(total_hits(maps, tag)));
            } else {
                unhit_tag_has_no_hits(maps, tag);
            }
        }
        if hits != 0 {
            let tag = choose|tag: Seq<u8>| tags.contains(tag) && #[trigger] g(tag) == max_over(tags, g);
            assert(index.contains_key(tag) && stands_on(index[tag], build, item));
        }
    }
}

proof fn unhit_tag_has_no_hits(maps: Seq<Map<Seq<u8>, u64>>, tag: Seq<u8>)
    requires
        !crate::item_hits::was_hit(maps, tag),
    ensures
        total_hits(maps, tag) == 0,
    decreases maps.len(),
{
    if maps.len() > 0 {
        let front = maps.drop_last();
        assert(!maps[maps.len() - 1].contains_key(tag));
        assert(!crate::item_hits::was_hit(front, tag)) by {
            if crate::item_hits::was_hit(front, tag) {
                let m = choose|m: int| 0 <= m < front.len() && (#[trigger] front[m]).contains_key(tag);
                assert(maps[m].contains_key(tag));
            }
        }
        unhit_tag_has_no_hits(front, tag);
    }
}

/// The outcomes of a requirement: it was met as often as the probe behind it was passed, and failed as often as the
/// probe before it was passed and the one behind it was not. Both together are as often as it was tested, unless the
/// probe behind it was passed more often.
pub proof fn requirements_fail_or_are_met(
    index: Map<Seq<u8>, InstrumentedCoverageItemIds>,
    maps: Seq<Map<Seq<u8>, u64>>,
    before: Seq<u8>,
    behind: Seq<u8>,
)
    requires
        index.dom().finite(),
        before != behind,
        index.contains_key(before),
        index.contains_key(behind),
        crate::item_hits::was_hit(maps, before) || crate::item_hits::was_hit(maps, behind),
        index[before].require_branch is Some,
        index[behind].require_branch is Some,
        ({
            let a = index[before].require_branch->0;
            let b = index[behind].require_branch->0;
            &&& index[before].build_id@ == index[behind].build_id@
            &&& a.role == InstrumentedRequireProbeRole::Pre
            &&& b.role == InstrumentedRequireProbeRole::Post
            &&& a.true_item_id == b.true_item_id
            &&& a.false_item_id == b.false_item_id
            &&& a.true_item_id != a.false_item_id
            &&& forall|tag: Seq<u8>| #[trigger]
                index.contains_key(tag) && tag != before && tag != behind ==> !tests_for(
                    index[tag],
                    index[before].build_id@,
                    a.true_item_id,
                ) && !tests_for(index[tag], index[before].build_id@, a.false_item_id)
        }),
    ensures
        ({
            let build = index[before].build_id@;
            let pair = index[before].require_branch->0;
            let tags = known_tags(index, maps);
            let met = resolved_hits(index, tags, maps, build, pair.true_item_id);
            let failed = resolved_hits(index, tags, maps, build, pair.false_item_id);
            let tested = at_most(total_hits(maps, before));
            let passed = at_most(total_hits(maps, behind));
            &&& met == passed
            &&& failed == (if tested > passed { (tested - passed) as nat } else { 0 })
            &&& tested >= passed ==> met + failed == tested
        }),
{
    let build = index[before].build_id@;
    let pair = index[before].require_branch->0;
    let tags = known_tags(index, maps);
    assert(tags.subset_of(index.dom()));
    vstd::set_lib::lemma_set_subset_finite(index.dom(), tags);
    outcome_of_two(index, maps, before, behind, pair.true_item_id);
    outcome_of_two(index, maps, before, behind, pair.false_item_id);
}

proof fn outcome_of_two(
    index: Map<Seq<u8>, InstrumentedCoverageItemIds>,
    maps: Seq<Map<Seq<u8>, u64>>,
    before: Seq<u8>,
    behind: Seq<u8>,
    item: usize,
)
    requires
        known_tags(index, maps).finite(),
        index.contains_key(before),
        index.contains_key(behind),
        known_tags(index, maps).contains(before) || known_tags(index, maps).contains(behind),
        before != behind,
        index[before].require_branch is Some,
        index[behind].require_branch is Some,
        ({
            let a = index[before].require_branch->0;
            let b = index[behind].require_branch->0;
            &&& index[before].build_id@ == index[behind].build_id@
            &&& a.role == InstrumentedRequireProbeRole::Pre
            &&& b.role == InstrumentedRequireProbeRole::Post
            &&& a.true_item_id == b.true_item_id
            &&& a.false_item_id == b.false_item_id
            &&& item == a.true_item_id || item == a.false_item_id
            &&& forall|tag: Seq<u8>| #[trigger]
                index.contains_key(tag) && tag != before && tag != behind ==> !tests_for(
                    index[tag],
                    index[before].build_id@,
                    a.true_item_id,
                ) && !tests_for(index[tag], index[before].build_id@, a.false_item_id)
        }),
    ensures
        ({
            let build = index[before].build_id@;
            let pair = index[before].require_branch->0;
            let tested = at_most(total_hits(maps, before));
            let passed = at_most(total_hits(maps, behind));
            resolved_hits(index, known_tags(index, maps), maps, build, item) == (if item == pair.true_item_id {
                passed
            } else {
                excess(tested, passed)
            })
        }),
{
    let build = index[before].build_id@;
    let tags = known_tags(index, maps);
    let a = index[before].require_branch->0;
    let b = index[behind].require_branch->0;
    assert(decides(index[before], build, item) && decides(index[behind], build, item));
    let some = choose|tag: Seq<u8>| #[trigger] tags.contains(tag) && decides(index[tag], build, item);
    assert(some == before || some == behind) by {
        assert(index.contains_key(some));
        if some != before && some != behind {
            assert(!tests_for(index[some], build, item));
        }
    }
    let pair = deciding_pair(index, tags, build, item);
    assert(pair.true_item_id == a.true_item_id && pair.false_item_id == a.false_item_id);
    sum_of_one(index, maps, before, behind, before);
    sum_of_one(index, maps, before, behind, behind);
}

proof fn sum_of_one(
    index: Map<Seq<u8>, InstrumentedCoverageItemIds>,
    maps: Seq<Map<Seq<u8>, u64>>,
    before: Seq<u8>,
    behind: Seq<u8>,
    one: Seq<u8>,
)
    requires
        known_tags(index, maps).finite(),
        index.contains_key(before),
        index.contains_key(behind),
        before != behind,
        one == before || one == behind,
        index[before].require_branch is Some,
        index[behind].require_branch is Some,
        index[before].build_id@ == index[behind].build_id@,
        index[before].require_branch->0.role != index[behind].require_branch->0.role,
        forall|tag: Seq<u8>| #[trigger]
            index.contains_key(tag) && tag != before && tag != behind ==> !tests_for(
                index[tag],
                index[before].build_id@,
                index[one].require_branch->0.true_item_id,
            ),
    ensures
        sum_over(
            known_tags(index, maps),
            deciding(index, maps, index[before].build_id@, index[one].require_branch->0),
        ) == at_most(total_hits(maps, one)),
{
    let tags = known_tags(index, maps);
    let f = deciding(index, maps, index[before].build_id@, index[one].require_branch->0);
    let rest = tags.remove(one);
    if tags.contains(one) {
        crate::tally::sum_over_remove(tags, f, one);
    } else {
        unhit_tag_has_no_hits(maps, one);
        assert(rest =~= tags);
    }
    assert forall|tag: Seq<u8>| rest.contains(tag) implies #[trigger] f(tag) == 0 by {
        assert(index.contains_key(tag));
        if tag != before && tag != behind {
            assert(!tests_for(index[tag], index[before].build_id@, index[one].require_branch->0.true_item_id));
        }
    }
    sum_of_nothing(rest, f);
}

proof fn sum_of_nothing(s: Set<Seq<u8>>, f: spec_fn(Seq<u8>) -> nat)
    requires
        s.finite(),
        forall|x: Seq<u8>| s.contains(x) ==> #[trigger] f(x) == 0,
    ensures
        sum_over(s, f) == 0,
    decreases s.len(),
{
    if s.len() > 0 {
        let x = s.choose();
        assert(s.contains(x));
        sum_of_nothing(s.remove(x), f);
    }
}

}
