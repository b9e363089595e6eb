//! How the probes of a project relate to its items.
use crate::instrumented::{
    build_items, find_slot, has_slot, ids_of, item_at, probe_items, probes_for, source_items, with_item, with_outcomes,
    with_probe, ListedSource,
};
use crate::items::{slot_of, CoverageItem, CoverageItemKind, ItemSlot};
use crate::order::{in_order, stable_sorted_is_sorted};
use crate::probes::{InstrumentedCoverageProbe, InstrumentedCoverageProbeKind};
use vstd::prelude::*;

verus! {

/// No two items have the same slot.
pub open spec fn slots_differ(items: Seq<CoverageItem>) -> bool {
    forall|i: int, j: int|
        0 <= i < j < items.len() ==> slot_of(#[trigger] items[i]) != slot_of(#[trigger] items[j])
}

/// All items belong to a source.
pub open spec fn all_in_source(items: Seq<CoverageItem>, source_id: u32) -> bool {
    forall|i: int| 0 <= i < items.len() ==> (#[trigger] items[i]).loc.source_id == source_id as usize
}

/// The slots of one list are slots of another.
pub open spec fn has_slots_of(new: Seq<CoverageItem>, was: Seq<CoverageItem>) -> bool {
    forall|slot: ItemSlot| #[trigger] has_slot(was, slot) ==> has_slot(new, slot)
}

proof fn with_item_facts(items: Seq<CoverageItem>, item: CoverageItem, source_id: u32)
    requires
        slots_differ(items),
        all_in_source(items, source_id),
        item.loc.source_id == source_id as usize,
    ensures
        slots_differ(with_item(items, item)),
        all_in_source(with_item(items, item), source_id),
        has_slots_of(with_item(items, item), items),
        has_slot(with_item(items, item), slot_of(item)),
{
    let new = with_item(items, item);
    assert forall|slot: ItemSlot| #[trigger] has_slot(items, slot) implies has_slot(new, slot) by {
        let i = choose|i: int| 0 <= i < items.len() && slot_of(#[trigger] items[i]) == slot;
        assert(new[i] == items[i]);
    }
    if !has_slot(items, slot_of(item)) {
        assert(slot_of(new[items.len() as int]) == slot_of(item));
        assert forall|i: int, j: int| 0 <= i < j < new.len() implies slot_of(#[trigger] new[i]) != slot_of(
            #[trigger] new[j],
        ) by {
            assert(new[i] == items[i]);
            if j < items.len() {
                assert(new[j] == items[j]);
            }
        }
    }
}

/// The slots that a probe needs: those of its lines, and of what it stands for.
pub open spec fn needs_slot(probe: InstrumentedCoverageProbe, slot: ItemSlot) -> bool {
    ||| slot == ItemSlot::Line { start: probe.lines.start, end: probe.lines.end }
    ||| match probe.kind {
        InstrumentedCoverageProbeKind::Statement => slot == ItemSlot::Statement {
            start: probe.bytes.start,
            end: probe.bytes.end,
        },
        InstrumentedCoverageProbeKind::Branch { branch_id, path_id } => slot == ItemSlot::Branch { branch_id, path_id },
        InstrumentedCoverageProbeKind::RequirePre { branch_id } => slot == ItemSlot::Statement {
            start: probe.bytes.start,
            end: probe.bytes.end,
        } || slot == ItemSlot::Branch { branch_id, path_id: 0 } || slot == ItemSlot::Branch { branch_id, path_id: 1 },
        InstrumentedCoverageProbeKind::RequirePost { branch_id } => slot == ItemSlot::Branch { branch_id, path_id: 0 }
            || slot == ItemSlot::Branch { branch_id, path_id: 1 },
        InstrumentedCoverageProbeKind::Function { .. } => slot == ItemSlot::Function {
            start: probe.bytes.start,
            end: probe.bytes.end,
        },
    }
}

proof fn with_probe_facts(items: Seq<CoverageItem>, source_id: u32, probe: InstrumentedCoverageProbe)
    requires
        slots_differ(items),
        all_in_source(items, source_id),
    ensures
        slots_differ(with_probe(items, source_id, probe)),
        all_in_source(with_probe(items, source_id, probe), source_id),
        has_slots_of(with_probe(items, source_id, probe), items),
        forall|slot: ItemSlot| needs_slot(probe, slot) ==> #[trigger] has_slot(
            with_probe(items, source_id, probe),
            slot,
        ),
{
    let a = item_at(source_id, probe, CoverageItemKind::Line);
    let line = with_item(items, a);
    with_item_facts(items, a, source_id);
    match probe.kind {
        InstrumentedCoverageProbeKind::Statement => {
            with_item_facts(line, item_at(source_id, probe, CoverageItemKind::Statement), source_id);
        },
        InstrumentedCoverageProbeKind::Branch { branch_id, path_id } => {
            let kind = CoverageItemKind::Branch { branch_id, path_id, is_first_opcode: true };
            with_item_facts(line, item_at(source_id, probe, kind), source_id);
        },
        InstrumentedCoverageProbeKind::RequirePre { branch_id } => {
            let b = item_at(source_id, probe, CoverageItemKind::Statement);
            with_item_facts(line, b, source_id);
            with_outcomes_facts(with_item(line, b), source_id, probe, branch_id);
        },
        InstrumentedCoverageProbeKind::RequirePost { branch_id } => {
            with_outcomes_facts(line, source_id, probe, branch_id);
        },
        InstrumentedCoverageProbeKind::Function { name } => {
            with_item_facts(line, item_at(source_id, probe, CoverageItemKind::Function { name }), source_id);
        },
    }
}

proof fn with_outcomes_facts(
    items: Seq<CoverageItem>,
    source_id: u32,
    probe: InstrumentedCoverageProbe,
    branch_id: u32,
)
    requires
        slots_differ(items),
        all_in_source(items, source_id),
    ensures
        slots_differ(with_outcomes(items, source_id, probe, branch_id)),
        all_in_source(with_outcomes(items, source_id, probe, branch_id), source_id),
        has_slots_of(with_outcomes(items, source_id, probe, branch_id), items),
        has_slot(with_outcomes(items, source_id, probe, branch_id), ItemSlot::Branch { branch_id, path_id: 0 }),
        has_slot(with_outcomes(items, source_id, probe, branch_id), ItemSlot::Branch { branch_id, path_id: 1 }),
{
    let fails = item_at(
        source_id,
        probe,
        CoverageItemKind::Branch { branch_id, path_id: 0, is_first_opcode: false },
    );
    let holds = item_at(
        source_id,
        probe,
        CoverageItemKind::Branch { branch_id, path_id: 1, is_first_opcode: false },
    );
    with_item_facts(items, fails, source_id);
    with_item_facts(with_item(items, fails), holds, source_id);
    assert(slot_of(fails) == ItemSlot::Branch { branch_id, path_id: 0 });
    assert(slot_of(holds) == ItemSlot::Branch { branch_id, path_id: 1 });
}

proof fn probe_items_facts(source_id: u32, probes: Seq<InstrumentedCoverageProbe>)
    ensures
        slots_differ(probe_items(source_id, probes)),
        all_in_source(probe_items(source_id, probes), source_id),
        forall|k: int, slot: ItemSlot|
            0 <= k < probes.len() && needs_slot(#[trigger] probes[k], slot) ==> #[trigger] has_slot(
                probe_items(source_id, probes),
                slot,
            ),
    decreases probes.len(),
{
    if probes.len() > 0 {
        let front = probes.drop_last();
        probe_items_facts(source_id, front);
        with_probe_facts(probe_items(source_id, front), source_id, probes.last());
        assert forall|k: int, slot: ItemSlot|
            0 <= k < probes.len() && needs_slot(#[trigger] probes[k], slot) implies #[trigger] has_slot(
            probe_items(source_id, probes),
            slot,
        ) by {
            if k < front.len() {
                assert(front[k] == probes[k]);
                assert(has_slot(probe_items(source_id, front), slot));
            }
        }
    }
}

/// The items of a source are in order, no two of them have the same slot, and there is one for
/// everything that a probe of the source stands for.
pub proof fn source_items_are_complete(source_id: u32, probes: Seq<InstrumentedCoverageProbe>)
    ensures
        in_order(source_items(source_id, probes)),
        slots_differ(source_items(source_id, probes)),
        all_in_source(source_items(source_id, probes), source_id),
        forall|k: int, slot: ItemSlot|
            0 <= k < probes.len() && needs_slot(#[trigger] probes[k], slot) ==> #[trigger] has_slot(
                source_items(source_id, probes),
                slot,
            ),
{
    let unsorted = probe_items(source_id, probes);
    let sorted = source_items(source_id, probes);
    probe_items_facts(source_id, probes);
    stable_sorted_is_sorted(unsorted);
    unsorted.to_multiset_ensures();
    sorted.to_multiset_ensures();
    assert forall|slot: ItemSlot| #[trigger] has_slot(unsorted, slot) implies has_slot(sorted, slot) by {
        let i = choose|i: int| 0 <= i < unsorted.len() && slot_of(#[trigger] unsorted[i]) == slot;
        assert(unsorted.contains(unsorted[i]));
        assert(sorted.to_multiset().count(unsorted[i]) > 0);
        assert(sorted.contains(unsorted[i]));
        let j = choose|j: int| 0 <= j < sorted.len() && sorted[j] == unsorted[i];
        assert(slot_of(sorted[j]) == slot);
    }
    assert forall|i: int| 0 <= i < sorted.len() implies (#[trigger] sorted[i]).loc.source_id == source_id as usize by {
        assert(sorted.contains(sorted[i]));
        assert(unsorted.to_multiset().count(sorted[i]) > 0);
        assert(unsorted.contains(sorted[i]));
        let j = choose|j: int| 0 <= j < unsorted.len() && unsorted[j] == sorted[i];
        assert(unsorted[j].loc.source_id == source_id as usize);
    }
    assert(unsorted.no_duplicates()) by {
        assert forall|i: int, j: int| 0 <= i < j < unsorted.len() implies unsorted[i] != unsorted[j] by {
            assert(slot_of(unsorted[i]) != slot_of(unsorted[j]));
        }
    }
    unsorted.lemma_multiset_has_no_duplicates();
    sorted.lemma_multiset_has_no_duplicates_conv();
    assert forall|i: int, j: int| 0 <= i < j < sorted.len() implies slot_of(#[trigger] sorted[i]) != slot_of(
        #[trigger] sorted[j],
    ) by {
        assert(sorted[i] != sorted[j]);
        assert(sorted.contains(sorted[i]) && sorted.contains(sorted[j]));
        assert(unsorted.to_multiset().count(sorted[i]) > 0);
        assert(unsorted.to_multiset().count(sorted[j]) > 0);
        assert(unsorted.contains(sorted[i]) && unsorted.contains(sorted[j]));
        let a = choose|a: int| 0 <= a < unsorted.len() && unsorted[a] == sorted[i];
        let b = choose|b: int| 0 <= b < unsorted.len() && unsorted[b] == sorted[j];
        if a < b {
            assert(slot_of(unsorted[a]) != slot_of(unsorted[b]));
        } else {
            assert(slot_of(unsorted[b]) != slot_of(unsorted[a]));
        }
    }
    assert forall|k: int, slot: ItemSlot|
        0 <= k < probes.len() && needs_slot(#[trigger] probes[k], slot) implies #[trigger] has_slot(sorted, slot) by {
        assert(has_slot(unsorted, slot));
    }
}

/// One of the items belongs to the source and has the slot.
pub open spec fn source_has_slot(items: Seq<CoverageItem>, source_id: u32, slot: ItemSlot) -> bool {
    exists|i: int|
        0 <= i < items.len() && (#[trigger] items[i]).loc.source_id == source_id as usize && slot_of(items[i]) == slot
}

proof fn slot_is_found(items: Seq<CoverageItem>, source_id: u32, slot: ItemSlot)
    requires
        source_has_slot(items, source_id, slot),
    ensures
        find_slot(items, source_id, slot) is Some,
    decreases items.len(),
{
    let i = choose|i: int|
        0 <= i < items.len() && (#[trigger] items[i]).loc.source_id == source_id as usize && slot_of(items[i]) == slot;
    if i < items.len() - 1 {
        assert(items.drop_last()[i] == items[i]);
        slot_is_found(items.drop_last(), source_id, slot);
    }
}

proof fn build_has_source_slots(
    sources: Seq<ListedSource>,
    n: int,
    probes: Seq<InstrumentedCoverageProbe>,
    k: int,
    slot: ItemSlot,
)
    requires
        0 <= k < n <= sources.len(),
        has_slot(source_items(sources[k].id, probes_for(probes, sources[k])), slot),
    ensures
        source_has_slot(build_items(sources, n, probes, sources[k].build_id@), sources[k].id, slot),
    decreases n,
{
    let build = sources[k].build_id@;
    let all = build_items(sources, n, probes, build);
    let before = build_items(sources, n - 1, probes, build);
    if k == n - 1 {
        let own = source_items(sources[k].id, probes_for(probes, sources[k]));
        source_items_are_complete(sources[k].id, probes_for(probes, sources[k]));
        let i = choose|i: int| 0 <= i < own.len() && slot_of(#[trigger] own[i]) == slot;
        assert(all[before.len() + i] == own[i]);
        assert(own[i].loc.source_id == sources[k].id as usize);
    } else {
        build_has_source_slots(sources, n - 1, probes, k, slot);
        let i = choose|i: int|
            0 <= i < before.len() && (#[trigger] before[i]).loc.source_id == sources[k].id as usize && slot_of(before[i])
                == slot;
        assert(all[i] == before[i]);
    }
}

/// The items are there that a probe of this kind counts for.
pub open spec fn is_resolved(
    ids: crate::instrumented::InstrumentedCoverageItemIds,
    kind: InstrumentedCoverageProbeKind,
) -> bool {
    match kind {
        InstrumentedCoverageProbeKind::Statement => ids.statement_item_id is Some,
        InstrumentedCoverageProbeKind::Branch { .. } => ids.branch_item_id is Some,
        InstrumentedCoverageProbeKind::RequirePre { .. } => ids.statement_item_id is Some && ids.require_branch is Some,
        InstrumentedCoverageProbeKind::RequirePost { .. } => ids.require_branch is Some,
        InstrumentedCoverageProbeKind::Function { .. } => ids.function_item_id is Some,
    }
}

/// No probe of a source that counts is lost: it counts for a line and for everything that it stands for.
pub proof fn every_probe_is_resolved(
    sources: Seq<ListedSource>,
    probes: Seq<InstrumentedCoverageProbe>,
    k: int,
    m: int,
)
    requires
        0 <= k < sources.len(),
        0 <= m < probes_for(probes, sources[k]).len(),
    ensures
        ({
            let probe = probes_for(probes, sources[k])[m];
            let items = build_items(sources, sources.len() as int, probes, sources[k].build_id@);
            let ids = ids_of(items, sources[k], probe);
            ids is Some && is_resolved(ids->0, probe.kind)
        }),
{
    let own = probes_for(probes, sources[k]);
    let probe = own[m];
    let n = sources.len() as int;
    let items = build_items(sources, n, probes, sources[k].build_id@);
    source_items_are_complete(sources[k].id, own);
    assert forall|slot: ItemSlot| needs_slot(probe, slot) implies #[trigger] find_slot(
        items,
        sources[k].id,
        slot,
    ) is Some by {
        assert(needs_slot(own[m], slot));
        assert(has_slot(source_items(sources[k].id, own), slot));
        build_has_source_slots(sources, n, probes, k, slot);
        slot_is_found(items, sources[k].id, slot);
    }
    assert(needs_slot(probe, ItemSlot::Line { start: probe.lines.start, end: probe.lines.end }));
}

}
