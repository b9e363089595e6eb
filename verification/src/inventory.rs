//! What is listed, counted and indexed of the sources and probes of a project.
use crate::instrumented::{
    build_items, counted, counts, find_slot, ids_of, index_probes, index_sources, is_vyper, item_at, listed, listing,
    probe_items, probes_for, registered_id, registered_path, source_items, with_file, with_item, with_outcomes,
    with_probe, with_source, CompiledSource, InstrumentedCoverageItemIds, InstrumentedRequireProbeRole, ListedSource,
    SourceFile,
};
use crate::items::{slot_of, CoverageItem, CoverageItemKind, ItemSlot};
use crate::order::{stable_sorted_is_sorted, Keyed};
use crate::paths::same_path;
use crate::probes::{InstrumentedCoverageProbe, InstrumentedCoverageProbeKind};
use crate::report::numbered_key_injective;
use crate::resolution::every_probe_is_resolved;
use crate::sums::{picked_empty, picked_push};
use crate::table::{by_key, by_key_of_entry, has_key, with_entry_by_key};
use crate::version::same_version;
use vstd::prelude::*;

verus! {

/// The listed source stands for a way in which a file was compiled.
pub open spec fn stands_for(source: ListedSource, file: SourceFile, way: CompiledSource) -> bool {
    &&& same_path(source.path@, file.path@)
    &&& same_version(source.version, way.version)
    &&& source.id == way.id
}

/// The listed source is a way in which a file was compiled, with all that is known of the file.
pub open spec fn comes_from(source: ListedSource, file: SourceFile, way: CompiledSource) -> bool {
    &&& source.path == file.path
    &&& source.in_library == file.in_library
    &&& source.is_test == file.is_test
    &&& source.build_id == way.build_id
    &&& source.version == way.version
    &&& source.id == way.id
}

/// Every way in which a file was compiled is listed, unless it is a Vyper file, and whether or not the file lies in a
/// library or holds tests. Nothing else is listed, and nothing twice.
pub proof fn every_way_is_listed_once(files: Seq<SourceFile>)
    ensures
        forall|k: int, j: int|
            0 <= k < files.len() && 0 <= j < (#[trigger] files[k]).sources@.len() && !is_vyper(files[k].path@)
                ==> exists|i: int|
                0 <= i < listed(files).len() && stands_for(
                    #[trigger] listed(files)[i],
                    files[k],
                    #[trigger] files[k].sources@[j],
                ),
        forall|i: int|
            0 <= i < listed(files).len() ==> exists|k: int, j: int|
                0 <= k < files.len() && 0 <= j < files[k].sources@.len() && !is_vyper(files[k].path@) && comes_from(
                    #[trigger] listed(files)[i],
                    files[k],
                    #[trigger] files[k].sources@[j],
                ),
        forall|a: int, b: int|
            0 <= a < b < listed(files).len() ==> !(same_path(
                (#[trigger] listed(files)[a]).path@,
                (#[trigger] listed(files)[b]).path@,
            ) && same_version(listed(files)[a].version, listed(files)[b].version) && listed(files)[a].id
                == listed(files)[b].id),
    decreases files.len(),
{
    let all = listed(files);
    if files.len() > 0 {
        let front = files.drop_last();
        let file = files.last();
        let before = listed(front);
        let m = file.sources@.len() as int;
        every_way_is_listed_once(front);
        if !is_vyper(file.path@) {
            file_is_listed(before, file, m);
        }
        assert forall|k: int, j: int|
            0 <= k < files.len() && 0 <= j < (#[trigger] files[k]).sources@.len() && !is_vyper(
                files[k].path@,
            ) implies exists|i: int|
            0 <= i < all.len() && stands_for(#[trigger] all[i], files[k], #[trigger] files[k].sources@[j]) by {
            if k < front.len() {
                assert(front[k] == files[k]);
                assert(front[k].sources@[j] == files[k].sources@[j]);
                let i = choose|i: int|
                    0 <= i < before.len() && stands_for(#[trigger] before[i], front[k], front[k].sources@[j]);
                assert(all[i] == before[i]);
            } else {
                let i = choose|i: int| 0 <= i < all.len() && stands_for(#[trigger] all[i], file, file.sources@[j]);
                assert(stands_for(all[i], files[k], files[k].sources@[j]));
            }
        }
        assert forall|i: int| 0 <= i < all.len() implies exists|k: int, j: int|
            0 <= k < files.len() && 0 <= j < files[k].sources@.len() && !is_vyper(files[k].path@) && comes_from(
                #[trigger] all[i],
                files[k],
                #[trigger] files[k].sources@[j],
            ) by {
            if i < before.len() {
                assert(all[i] == before[i]);
                let (k, j) = choose|k: int, j: int|
                    0 <= k < front.len() && 0 <= j < front[k].sources@.len() && !is_vyper(front[k].path@)
                        && comes_from(before[i], front[k], #[trigger] front[k].sources@[j]);
                assert(files[k] == front[k]);
                assert(comes_from(all[i], files[k], files[k].sources@[j]));
            } else {
                let j = choose|j: int| 0 <= j < m && comes_from(all[i], file, #[trigger] file.sources@[j]);
                let k = files.len() - 1;
                assert(comes_from(all[i], files[k], files[k].sources@[j]));
            }
        }
    }
}

proof fn file_is_listed(before: Seq<ListedSource>, file: SourceFile, n: int)
    requires
        0 <= n <= file.sources@.len(),
        forall|a: int, b: int|
            0 <= a < b < before.len() ==> !(same_path((#[trigger] before[a]).path@, (#[trigger] before[b]).path@)
                && same_version(before[a].version, before[b].version) && before[a].id == before[b].id),
    ensures
        ({
            let all = with_file(before, file, n);
            &&& before.len() <= all.len()
            &&& forall|i: int| 0 <= i < before.len() ==> #[trigger] all[i] == before[i]
            &&& forall|j: int|
                0 <= j < n ==> exists|i: int|
                    0 <= i < all.len() && stands_for(#[trigger] all[i], file, #[trigger] file.sources@[j])
            &&& forall|i: int|
                before.len() <= i < all.len() ==> exists|j: int|
                    0 <= j < n && comes_from(#[trigger] all[i], file, #[trigger] file.sources@[j])
            &&& forall|a: int, b: int|
                0 <= a < b < all.len() ==> !(same_path((#[trigger] all[a]).path@, (#[trigger] all[b]).path@)
                    && same_version(all[a].version, all[b].version) && all[a].id == all[b].id)
        }),
    decreases n,
{
    if n > 0 {
        let was = with_file(before, file, n - 1);
        let all = with_file(before, file, n);
        let own = listing(file, file.sources@[n - 1]);
        file_is_listed(before, file, n - 1);
        assert(all == with_source(was, own));
        assert forall|i: int| 0 <= i < was.len() implies #[trigger] all[i] == was[i] by {}
        assert forall|i: int| 0 <= i < before.len() implies #[trigger] all[i] == before[i] by {
            assert(all[i] == was[i]);
        }
        assert forall|j: int| 0 <= j < n implies exists|i: int|
            0 <= i < all.len() && stands_for(#[trigger] all[i], file, #[trigger] file.sources@[j]) by {
            if j < n - 1 {
                let i = choose|i: int| 0 <= i < was.len() && stands_for(#[trigger] was[i], file, file.sources@[j]);
                assert(all[i] == was[i]);
            } else if exists|i: int| 0 <= i < was.len() && crate::instrumented::same_source(#[trigger] was[i], own) {
                let i = choose|i: int| 0 <= i < was.len() && crate::instrumented::same_source(#[trigger] was[i], own);
                assert(stands_for(all[i], file, file.sources@[j]));
            } else {
                assert(all[was.len() as int] == own);
                assert(stands_for(all[was.len() as int], file, file.sources@[j]));
            }
        }
        assert forall|i: int| before.len() <= i < all.len() implies exists|j: int|
            0 <= j < n && comes_from(#[trigger] all[i], file, #[trigger] file.sources@[j]) by {
            if i < was.len() {
                let j = choose|j: int| 0 <= j < n - 1 && comes_from(was[i], file, #[trigger] file.sources@[j]);
                assert(all[i] == was[i]);
                assert(comes_from(all[i], file, file.sources@[j]));
            } else {
                assert(comes_from(all[i], file, file.sources@[n - 1]));
            }
        }
        assert forall|a: int, b: int| 0 <= a < b < all.len() implies !(same_path(
            (#[trigger] all[a]).path@,
            (#[trigger] all[b]).path@,
        ) && same_version(all[a].version, all[b].version) && all[a].id == all[b].id) by {
            assert(all[a] == was[a]);
            if b < was.len() {
                assert(all[b] == was[b]);
            } else {
                assert(all[b] == own);
                assert(!crate::instrumented::same_source(was[a], own));
            }
        }
    }
}

/// The probes of a source are those that were put into its path for its compiler version, all of them and in their
/// order.
pub proof fn probes_of_a_source(probes: Seq<InstrumentedCoverageProbe>, source: ListedSource)
    ensures
        probes_for(probes, source) == probes.filter(
            |probe: InstrumentedCoverageProbe|
                same_version(probe.version, source.version) && same_path(probe.path@, source.path@),
        ),
    decreases probes.len(),
{
    let is_own = |probe: InstrumentedCoverageProbe|
        same_version(probe.version, source.version) && same_path(probe.path@, source.path@);
    if probes.len() == 0 {
        assert(probes =~= Seq::empty());
        picked_empty(is_own);
    } else {
        probes_of_a_source(probes.drop_last(), source);
        assert(probes =~= probes.drop_last().push(probes.last()));
        picked_push(probes.drop_last(), probes.last(), is_own);
    }
}

/// The source is one whose items are asked for: no library file unless those are asked for, and no test where those
/// are left out; and it has a probe.
pub open spec fn is_asked_for(
    source: ListedSource,
    probes: Seq<InstrumentedCoverageProbe>,
    with_libs: bool,
    without_tests: bool,
) -> bool {
    &&& source.in_library ==> with_libs
    &&& source.is_test ==> !without_tests
    &&& exists|i: int|
        0 <= i < probes.len() && same_version((#[trigger] probes[i]).version, source.version) && same_path(
            probes[i].path@,
            source.path@,
        )
}

proof fn counts_if_asked_for(
    source: ListedSource,
    probes: Seq<InstrumentedCoverageProbe>,
    with_libs: bool,
    without_tests: bool,
)
    ensures
        counts(source, probes, with_libs, without_tests) == is_asked_for(source, probes, with_libs, without_tests),
{
    has_probes_if_one(probes, source);
}

proof fn has_probes_if_one(probes: Seq<InstrumentedCoverageProbe>, source: ListedSource)
    ensures
        probes_for(probes, source).len() > 0 <==> exists|i: int|
            0 <= i < probes.len() && same_version((#[trigger] probes[i]).version, source.version) && same_path(
                probes[i].path@,
                source.path@,
            ),
    decreases probes.len(),
{
    if probes.len() > 0 {
        let front = probes.drop_last();
        has_probes_if_one(front, source);
        let n = probes.len() - 1;
        if same_version(probes[n].version, source.version) && same_path(probes[n].path@, source.path@) {
            assert(probes_for(probes, source).len() > 0);
        } else {
            if exists|i: int|
                0 <= i < probes.len() && same_version((#[trigger] probes[i]).version, source.version) && same_path(
                    probes[i].path@,
                    source.path@,
                ) {
                let i = choose|i: int|
                    0 <= i < probes.len() && same_version((#[trigger] probes[i]).version, source.version) && same_path(
                        probes[i].path@,
                        source.path@,
                    );
                assert(front[i] == probes[i]);
            }
            if exists|i: int|
                0 <= i < front.len() && same_version((#[trigger] front[i]).version, source.version) && same_path(
                    front[i].path@,
                    source.path@,
                ) {
                let i = choose|i: int|
                    0 <= i < front.len() && same_version((#[trigger] front[i]).version, source.version) && same_path(
                        front[i].path@,
                        source.path@,
                    );
                assert(probes[i] == front[i]);
            }
        }
    }
}

/// The sources that count are those that are asked for: each that counts is listed and asked for, and for each that is
/// listed and asked for one with its build and id counts, the source itself if no later one has them.
pub proof fn asked_for_sources_count(
    list: Seq<ListedSource>,
    probes: Seq<InstrumentedCoverageProbe>,
    with_libs: bool,
    without_tests: bool,
)
    ensures
        ({
            let all = counted(list, list.len() as int, probes, with_libs, without_tests);
            &&& forall|k: int|
                0 <= k < all.len() ==> list.contains(#[trigger] all[k]) && is_asked_for(
                    all[k],
                    probes,
                    with_libs,
                    without_tests,
                )
            &&& forall|i: int|
                0 <= i < list.len() && is_asked_for(#[trigger] list[i], probes, with_libs, without_tests)
                    ==> exists|k: int|
                    0 <= k < all.len() && (#[trigger] all[k]).build_id@ == list[i].build_id@ && all[k].id == list[i].id
            &&& forall|i: int|
                0 <= i < list.len() && is_asked_for(#[trigger] list[i], probes, with_libs, without_tests) && (forall|
                    j: int,
                |
                    i < j < list.len() && is_asked_for(#[trigger] list[j], probes, with_libs, without_tests) ==> !(
                    list[j].build_id@ == list[i].build_id@ && list[j].id == list[i].id)) ==> all.contains(list[i])
        }),
{
    let n = list.len() as int;
    let all = counted(list, n, probes, with_libs, without_tests);
    counted_up_to(list, n, probes, with_libs, without_tests);
    assert forall|k: int| 0 <= k < all.len() implies list.contains(#[trigger] all[k]) && is_asked_for(
        all[k],
        probes,
        with_libs,
        without_tests,
    ) by {
        by_key_of_entry(all, k);
        let i = choose|i: int|
            0 <= i < n && #[trigger] list[i] == by_key(all)[all[k].sort_key()] && counts(
                list[i],
                probes,
                with_libs,
                without_tests,
            );
        counts_if_asked_for(list[i], probes, with_libs, without_tests);
    }
    assert forall|i: int|
        0 <= i < n && is_asked_for(#[trigger] list[i], probes, with_libs, without_tests) implies exists|k: int|
        0 <= k < all.len() && (#[trigger] all[k]).build_id@ == list[i].build_id@ && all[k].id == list[i].id by {
        counts_if_asked_for(list[i], probes, with_libs, without_tests);
        assert(has_key(all, list[i].sort_key()));
        let k = choose|k: int| 0 <= k < all.len() && (#[trigger] all[k]).sort_key() == list[i].sort_key();
        numbered_key_injective(all[k].build_id@, all[k].id as usize, list[i].build_id@, list[i].id as usize);
    }
    assert forall|i: int|
        0 <= i < n && is_asked_for(#[trigger] list[i], probes, with_libs, without_tests) && (forall|j: int|
            i < j < n && is_asked_for(#[trigger] list[j], probes, with_libs, without_tests) ==> !(list[j].build_id@
                == list[i].build_id@ && list[j].id == list[i].id)) implies all.contains(list[i]) by {
        counts_if_asked_for(list[i], probes, with_libs, without_tests);
        last_one_counts(list, n, probes, with_libs, without_tests, i);
        let k = choose|k: int| 0 <= k < all.len() && (#[trigger] all[k]).sort_key() == list[i].sort_key();
        by_key_of_entry(all, k);
        assert(all[k] == list[i]);
    }
}

proof fn counted_up_to(
    list: Seq<ListedSource>,
    n: int,
    probes: Seq<InstrumentedCoverageProbe>,
    with_libs: bool,
    without_tests: bool,
)
    requires
        0 <= n <= list.len(),
    ensures
        ({
            let all = counted(list, n, probes, with_libs, without_tests);
            &&& crate::table::ascending(all)
            &&& forall|key: Seq<u64>| #[trigger]
                by_key(all).contains_key(key) ==> exists|i: int|
                    0 <= i < n && #[trigger] list[i] == by_key(all)[key] && counts(
                        list[i],
                        probes,
                        with_libs,
                        without_tests,
                    )
            &&& forall|i: int|
                0 <= i < n && counts(#[trigger] list[i], probes, with_libs, without_tests) ==> has_key(
                    all,
                    list[i].sort_key(),
                )
        }),
    decreases n,
{
    if n > 0 {
        counted_up_to(list, n - 1, probes, with_libs, without_tests);
        let before = counted(list, n - 1, probes, with_libs, without_tests);
        let all = counted(list, n, probes, with_libs, without_tests);
        if counts(list[n - 1], probes, with_libs, without_tests) {
            with_entry_by_key(before, list[n - 1]);
        }
        assert forall|key: Seq<u64>| #[trigger] by_key(all).contains_key(key) implies exists|i: int|
            0 <= i < n && #[trigger] list[i] == by_key(all)[key] && counts(list[i], probes, with_libs, without_tests) by {
            if counts(list[n - 1], probes, with_libs, without_tests) && key == list[n - 1].sort_key() {
                assert(list[n - 1] == by_key(all)[key]);
            } else {
                assert(by_key(before).contains_key(key));
                let i = choose|i: int|
                    0 <= i < n - 1 && #[trigger] list[i] == by_key(before)[key] && counts(
                        list[i],
                        probes,
                        with_libs,
                        without_tests,
                    );
                assert(list[i] == by_key(all)[key]);
            }
        }
        assert forall|i: int| 0 <= i < n && counts(#[trigger] list[i], probes, with_libs, without_tests) implies has_key(
            all,
            list[i].sort_key(),
        ) by {
            if i < n - 1 {
                assert(by_key(before).contains_key(list[i].sort_key()));
            }
            assert(by_key(all).contains_key(list[i].sort_key()));
        }
    }
}

proof fn last_one_counts(
    list: Seq<ListedSource>,
    n: int,
    probes: Seq<InstrumentedCoverageProbe>,
    with_libs: bool,
    without_tests: bool,
    i: int,
)
    requires
        0 <= i < n <= list.len(),
        counts(list[i], probes, with_libs, without_tests),
        forall|j: int|
            i < j < n && is_asked_for(#[trigger] list[j], probes, with_libs, without_tests) ==> !(list[j].build_id@
                == list[i].build_id@ && list[j].id == list[i].id),
    ensures
        ({
            let all = by_key(counted(list, n, probes, with_libs, without_tests));
            all.contains_key(list[i].sort_key()) && all[list[i].sort_key()] == list[i]
        }),
    decreases n,
{
    let before = counted(list, n - 1, probes, with_libs, without_tests);
    counted_up_to(list, n - 1, probes, with_libs, without_tests);
    counts_if_asked_for(list[n - 1], probes, with_libs, without_tests);
    if counts(list[n - 1], probes, with_libs, without_tests) {
        with_entry_by_key(before, list[n - 1]);
    }
    if i < n - 1 {
        last_one_counts(list, n - 1, probes, with_libs, without_tests, i);
        if counts(list[n - 1], probes, with_libs, without_tests) && list[n - 1].sort_key() == list[i].sort_key() {
            numbered_key_injective(
                list[n - 1].build_id@,
                list[n - 1].id as usize,
                list[i].build_id@,
                list[i].id as usize,
            );
        }
    }
}

/// The item stands where a probe stands, has not been hit, and is the probe's line or what the probe stands for.
pub open spec fn is_item_of_probe(item: CoverageItem, source_id: u32, probe: InstrumentedCoverageProbe) -> bool {
    &&& item.hits == 0
    &&& item.loc.source_id == source_id as usize
    &&& item.loc.contract_name == probe.contract_name
    &&& item.loc.bytes == probe.bytes
    &&& item.loc.lines == probe.lines
    &&& match item.kind {
        CoverageItemKind::Line => true,
        CoverageItemKind::Statement => probe.kind is Statement || probe.kind is RequirePre,
        CoverageItemKind::Branch { branch_id, path_id, is_first_opcode } => match probe.kind {
            InstrumentedCoverageProbeKind::Branch { branch_id: b, path_id: p } => is_first_opcode && branch_id == b
                && path_id == p,
            InstrumentedCoverageProbeKind::RequirePre { branch_id: b } => !is_first_opcode && branch_id == b && path_id <= 1,
            InstrumentedCoverageProbeKind::RequirePost { branch_id: b } => !is_first_opcode && branch_id == b && path_id
                <= 1,
            _ => false,
        },
        CoverageItemKind::Function { name } => probe.kind == (InstrumentedCoverageProbeKind::Function { name }),
    }
}

/// Every item of a source stands where one of its probes stands and has the kind that the probe gives it.
pub proof fn items_stand_where_probes_stand(source_id: u32, probes: Seq<InstrumentedCoverageProbe>, i: int) -> (k: int)
    requires
        0 <= i < source_items(source_id, probes).len(),
    ensures
        0 <= k < probes.len(),
        is_item_of_probe(source_items(source_id, probes)[i], source_id, probes[k]),
{
    let unsorted = probe_items(source_id, probes);
    let sorted = source_items(source_id, probes);
    stable_sorted_is_sorted(unsorted);
    unsorted.to_multiset_ensures();
    sorted.to_multiset_ensures();
    assert(sorted.contains(sorted[i]));
    assert(sorted.to_multiset().count(sorted[i]) > 0);
    assert(unsorted.contains(sorted[i]));
    let j = choose|j: int| 0 <= j < unsorted.len() && unsorted[j] == sorted[i];
    unsorted_item_has_probe(source_id, probes, j)
}

proof fn unsorted_item_has_probe(source_id: u32, probes: Seq<InstrumentedCoverageProbe>, i: int) -> (k: int)
    requires
        0 <= i < probe_items(source_id, probes).len(),
    ensures
        0 <= k < probes.len(),
        is_item_of_probe(probe_items(source_id, probes)[i], source_id, probes[k]),
    decreases probes.len(),
{
    let before = probe_items(source_id, probes.drop_last());
    if i < before.len() {
        probe_keeps_items(before, source_id, probes.last());
        unsorted_item_has_probe(source_id, probes.drop_last(), i)
    } else {
        probe_keeps_items(before, source_id, probes.last());
        probes.len() - 1
    }
}

proof fn probe_keeps_items(items: Seq<CoverageItem>, source_id: u32, probe: InstrumentedCoverageProbe)
    ensures
        ({
            let all = with_probe(items, source_id, probe);
            &&& items.len() <= all.len()
            &&& forall|i: int| 0 <= i < items.len() ==> #[trigger] all[i] == items[i]
            &&& forall|i: int| items.len() <= i < all.len() ==> is_item_of_probe(#[trigger] all[i], source_id, probe)
        }),
{
    let line = with_item(items, item_at(source_id, probe, CoverageItemKind::Line));
    let all = with_probe(items, source_id, probe);
    match probe.kind {
        InstrumentedCoverageProbeKind::RequirePre { branch_id } => {
            let stmt = with_item(line, item_at(source_id, probe, CoverageItemKind::Statement));
            outcomes_keep_items(stmt, source_id, probe, branch_id);
            assert forall|i: int| items.len() <= i < all.len() implies is_item_of_probe(
                #[trigger] all[i],
                source_id,
                probe,
            ) by {
                if i < stmt.len() {
                    assert(all[i] == stmt[i]);
                }
            }
        },
        InstrumentedCoverageProbeKind::RequirePost { branch_id } => {
            outcomes_keep_items(line, source_id, probe, branch_id);
            assert forall|i: int| items.len() <= i < all.len() implies is_item_of_probe(
                #[trigger] all[i],
                source_id,
                probe,
            ) by {
                if i < line.len() {
                    assert(all[i] == line[i]);
                }
            }
        },
        _ => {},
    }
}

proof fn outcomes_keep_items(
    items: Seq<CoverageItem>,
    source_id: u32,
    probe: InstrumentedCoverageProbe,
    branch_id: u32,
)
    requires
        probe.kind == (InstrumentedCoverageProbeKind::RequirePre { branch_id }) || probe.kind == (
        InstrumentedCoverageProbeKind::RequirePost { branch_id }),
    ensures
        ({
            let all = with_outcomes(items, source_id, probe, branch_id);
            &&& items.len() <= all.len()
            &&& forall|i: int| 0 <= i < items.len() ==> #[trigger] all[i] == items[i]
            &&& forall|i: int| items.len() <= i < all.len() ==> is_item_of_probe(#[trigger] all[i], source_id, probe)
        }),
{
}

/// The item is a line item with the lines of a probe.
pub open spec fn is_line_of(item: CoverageItem, source: ListedSource, probe: InstrumentedCoverageProbe) -> bool {
    item.kind is Line && item.loc.source_id == source.id as usize && item.loc.lines.start == probe.lines.start
        && item.loc.lines.end == probe.lines.end
}

/// The item is that of a path of a branch.
pub open spec fn is_path_item(item: CoverageItem, source: ListedSource, branch: u32, path: u32) -> bool {
    item.loc.source_id == source.id as usize && match item.kind {
        CoverageItemKind::Branch { branch_id, path_id, .. } => branch_id == branch && path_id == path,
        _ => false,
    }
}

/// The item covers the bytes of a probe.
pub open spec fn is_place_of(item: CoverageItem, source: ListedSource, probe: InstrumentedCoverageProbe) -> bool {
    item.loc.source_id == source.id as usize && item.loc.bytes.start == probe.bytes.start && item.loc.bytes.end
        == probe.bytes.end
}

/// The items that a probe counts for are its own: the line with its lines, the statement or the function with its
/// bytes, the path with its numbers. A requirement fails on the first path and is met on the second, and its probes
/// stand before it and behind it.
pub open spec fn counts_for_own_items(
    items: Seq<CoverageItem>,
    ids: InstrumentedCoverageItemIds,
    source: ListedSource,
    probe: InstrumentedCoverageProbe,
) -> bool {
    &&& ids.build_id == source.build_id
    &&& ids.line_item_id < items.len() && is_line_of(items[ids.line_item_id as int], source, probe)
    &&& ids.statement_item_id is Some <==> probe.kind is Statement || probe.kind is RequirePre
    &&& ids.statement_item_id is Some ==> ids.statement_item_id->0 < items.len()
        && items[ids.statement_item_id->0 as int].kind is Statement && is_place_of(
        items[ids.statement_item_id->0 as int],
        source,
        probe,
    )
    &&& ids.function_item_id is Some <==> probe.kind is Function
    &&& ids.function_item_id is Some ==> ids.function_item_id->0 < items.len()
        && items[ids.function_item_id->0 as int].kind is Function && is_place_of(
        items[ids.function_item_id->0 as int],
        source,
        probe,
    )
    &&& ids.branch_item_id is Some <==> probe.kind is Branch
    &&& match probe.kind {
        InstrumentedCoverageProbeKind::Branch { branch_id, path_id } => ids.branch_item_id->0 < items.len()
            && is_path_item(items[ids.branch_item_id->0 as int], source, branch_id, path_id),
        _ => true,
    }
    &&& ids.require_branch is Some <==> probe.kind is RequirePre || probe.kind is RequirePost
    &&& match probe.kind {
        InstrumentedCoverageProbeKind::RequirePre { branch_id } => ids.require_branch->0.role
            == InstrumentedRequireProbeRole::Pre && are_outcomes(items, ids, source, branch_id),
        InstrumentedCoverageProbeKind::RequirePost { branch_id } => ids.require_branch->0.role
            == InstrumentedRequireProbeRole::Post && are_outcomes(items, ids, source, branch_id),
        _ => true,
    }
}

/// The two items of a requirement are those of the first path and of the second path of its branch.
pub open spec fn are_outcomes(
    items: Seq<CoverageItem>,
    ids: InstrumentedCoverageItemIds,
    source: ListedSource,
    branch_id: u32,
) -> bool {
    let pair = ids.require_branch->0;
    &&& pair.false_item_id < items.len() && is_path_item(items[pair.false_item_id as int], source, branch_id, 0)
    &&& pair.true_item_id < items.len() && is_path_item(items[pair.true_item_id as int], source, branch_id, 1)
}

proof fn found_item_has_slot(items: Seq<CoverageItem>, source_id: u32, slot: ItemSlot)
    requires
        items.len() <= usize::MAX,
    ensures
        find_slot(items, source_id, slot) is Some ==> {
            let i = find_slot(items, source_id, slot)->0;
            i < items.len() && slot_of(items[i as int]) == slot && items[i as int].loc.source_id == source_id as usize
        },
    decreases items.len(),
{
    if items.len() > 0 {
        found_item_has_slot(items.drop_last(), source_id, slot);
    }
}

/// Every probe of a source that counts is counted for its own items.
pub proof fn probes_count_for_their_own_items(
    sources: Seq<ListedSource>,
    probes: Seq<InstrumentedCoverageProbe>,
    k: int,
    m: int,
)
    requires
        0 <= k < sources.len(),
        0 <= m < probes_for(probes, sources[k]).len(),
        build_items(sources, sources.len() as int, probes, sources[k].build_id@).len() <= usize::MAX,
    ensures
        ({
            let probe = probes_for(probes, sources[k])[m];
            let items = build_items(sources, sources.len() as int, probes, sources[k].build_id@);
            let ids = ids_of(items, sources[k], probe);
            ids is Some && counts_for_own_items(items, ids->0, sources[k], probe)
        }),
{
    let source = sources[k];
    let probe = probes_for(probes, source)[m];
    let items = build_items(sources, sources.len() as int, probes, source.build_id@);
    every_probe_is_resolved(sources, probes, k, m);
    let id = source.id;
    found_item_has_slot(items, id, ItemSlot::Line { start: probe.lines.start, end: probe.lines.end });
    found_item_has_slot(items, id, ItemSlot::Statement { start: probe.bytes.start, end: probe.bytes.end });
    found_item_has_slot(items, id, ItemSlot::Function { start: probe.bytes.start, end: probe.bytes.end });
    match probe.kind {
        InstrumentedCoverageProbeKind::Branch { branch_id, path_id } => {
            found_item_has_slot(items, id, ItemSlot::Branch { branch_id, path_id });
        },
        InstrumentedCoverageProbeKind::RequirePre { branch_id } => {
            found_item_has_slot(items, id, ItemSlot::Branch { branch_id, path_id: 0 });
            found_item_has_slot(items, id, ItemSlot::Branch { branch_id, path_id: 1 });
        },
        InstrumentedCoverageProbeKind::RequirePost { branch_id } => {
            found_item_has_slot(items, id, ItemSlot::Branch { branch_id, path_id: 0 });
            found_item_has_slot(items, id, ItemSlot::Branch { branch_id, path_id: 1 });
        },
        _ => {},
    }
}

/// The tag of every probe of a source that counts is in the index, and if no other probe of a source that counts has
/// the tag, it leads to the probe's own items.
pub proof fn every_tag_is_indexed(
    sources: Seq<ListedSource>,
    probes: Seq<InstrumentedCoverageProbe>,
    k: int,
    m: int,
)
    requires
        0 <= k < sources.len(),
        0 <= m < probes_for(probes, sources[k]).len(),
        build_items(sources, sources.len() as int, probes, sources[k].build_id@).len() <= usize::MAX,
    ensures
        ({
            let index = index_sources(sources, sources.len() as int, probes);
            let probe = probes_for(probes, sources[k])[m];
            let items = build_items(sources, sources.len() as int, probes, sources[k].build_id@);
            &&& index.contains_key(probe.tag@)
            &&& (forall|a: int, b: int|
                0 <= a < sources.len() && 0 <= b < (#[trigger] probes_for(probes, sources[a])).len() && (a, b) != (k, m)
                    ==> (#[trigger] probes_for(probes, sources[a])[b]).tag@ != probe.tag@) ==> counts_for_own_items(
                items,
                index[probe.tag@],
                sources[k],
                probe,
            )
        }),
{
    let n = sources.len() as int;
    let index = index_sources(sources, n, probes);
    let probe = probes_for(probes, sources[k])[m];
    let items = build_items(sources, n, probes, sources[k].build_id@);
    probes_count_for_their_own_items(sources, probes, k, m);
    tag_is_indexed(sources, n, probes, k, m);
    if forall|a: int, b: int|
        0 <= a < sources.len() && 0 <= b < (#[trigger] probes_for(probes, sources[a])).len() && (a, b) != (k, m) ==> (
        #[trigger] probes_for(probes, sources[a])[b]).tag@ != probe.tag@ {
        only_tag_stays(sources, n, probes, k, m);
    }
}

proof fn tag_is_in_probes(
    index: Map<Seq<u8>, InstrumentedCoverageItemIds>,
    items: Seq<CoverageItem>,
    source: ListedSource,
    probes: Seq<InstrumentedCoverageProbe>,
    n: int,
    tag: Seq<u8>,
)
    requires
        0 <= n <= probes.len(),
        index.contains_key(tag) || exists|m: int|
            0 <= m < n && (#[trigger] probes[m]).tag@ == tag && ids_of(items, source, probes[m]) is Some,
    ensures
        index_probes(index, items, source, probes, n).contains_key(tag),
    decreases n,
{
    if n > 0 {
        if !(probes[n - 1].tag@ == tag && ids_of(items, source, probes[n - 1]) is Some) {
            tag_is_in_probes(index, items, source, probes, n - 1, tag);
        }
    }
}

proof fn tag_is_indexed(
    sources: Seq<ListedSource>,
    n: int,
    probes: Seq<InstrumentedCoverageProbe>,
    k: int,
    m: int,
)
    requires
        0 <= k < n <= sources.len(),
        0 <= m < probes_for(probes, sources[k]).len(),
    ensures
        index_sources(sources, n, probes).contains_key(probes_for(probes, sources[k])[m].tag@),
    decreases n,
{
    let source = sources[n - 1];
    let own = probes_for(probes, source);
    let items = build_items(sources, sources.len() as int, probes, source.build_id@);
    let before = index_sources(sources, n - 1, probes);
    let tag = probes_for(probes, sources[k])[m].tag@;
    if k < n - 1 {
        tag_is_indexed(sources, n - 1, probes, k, m);
    } else {
        every_probe_is_resolved(sources, probes, k, m);
        assert(own[m].tag@ == tag && ids_of(items, source, own[m]) is Some);
    }
    tag_is_in_probes(before, items, source, own, own.len() as int, tag);
}

proof fn other_probes_leave(
    index: Map<Seq<u8>, InstrumentedCoverageItemIds>,
    items: Seq<CoverageItem>,
    source: ListedSource,
    probes: Seq<InstrumentedCoverageProbe>,
    n: int,
    tag: Seq<u8>,
)
    requires
        0 <= n <= probes.len(),
        forall|m: int| 0 <= m < n ==> (#[trigger] probes[m]).tag@ != tag,
    ensures
        index_probes(index, items, source, probes, n).contains_key(tag) == index.contains_key(tag),
        index.contains_key(tag) ==> index_probes(index, items, source, probes, n)[tag] == index[tag],
    decreases n,
{
    if n > 0 {
        other_probes_leave(index, items, source, probes, n - 1, tag);
        assert(probes[n - 1].tag@ != tag);
    }
}

proof fn only_probe_stays(
    index: Map<Seq<u8>, InstrumentedCoverageItemIds>,
    items: Seq<CoverageItem>,
    source: ListedSource,
    probes: Seq<InstrumentedCoverageProbe>,
    n: int,
    m: int,
)
    requires
        0 <= m < n <= probes.len(),
        forall|j: int| m < j < n ==> (#[trigger] probes[j]).tag@ != probes[m].tag@,
        ids_of(items, source, probes[m]) is Some,
    ensures
        index_probes(index, items, source, probes, n)[probes[m].tag@] == ids_of(items, source, probes[m])->0,
    decreases n,
{
    if m < n - 1 {
        only_probe_stays(index, items, source, probes, n - 1, m);
        assert(probes[n - 1].tag@ != probes[m].tag@);
    }
}

proof fn only_tag_stays(
    sources: Seq<ListedSource>,
    n: int,
    probes: Seq<InstrumentedCoverageProbe>,
    k: int,
    m: int,
)
    requires
        0 <= k < n <= sources.len(),
        0 <= m < probes_for(probes, sources[k]).len(),
        forall|a: int, b: int|
            0 <= a < sources.len() && 0 <= b < (#[trigger] probes_for(probes, sources[a])).len() && (a, b) != (k, m)
                ==> (#[trigger] probes_for(probes, sources[a])[b]).tag@ != probes_for(probes, sources[k])[m].tag@,
    ensures
        ({
            let probe = probes_for(probes, sources[k])[m];
            let items = build_items(sources, sources.len() as int, probes, sources[k].build_id@);
            index_sources(sources, n, probes)[probe.tag@] == ids_of(items, sources[k], probe)->0
        }),
    decreases n,
{
    let source = sources[n - 1];
    let own = probes_for(probes, source);
    let items = build_items(sources, sources.len() as int, probes, source.build_id@);
    let before = index_sources(sources, n - 1, probes);
    let tag = probes_for(probes, sources[k])[m].tag@;
    if k < n - 1 {
        only_tag_stays(sources, n - 1, probes, k, m);
        tag_is_indexed(sources, n - 1, probes, k, m);
        assert forall|j: int| 0 <= j < own.len() implies (#[trigger] own[j]).tag@ != tag by {
            assert(probes_for(probes, sources[n - 1])[j].tag@ != tag);
        }
        other_probes_leave(before, items, source, own, own.len() as int, tag);
    } else {
        every_probe_is_resolved(sources, probes, k, m);
        assert forall|j: int| m < j < own.len() implies (#[trigger] own[j]).tag@ != own[m].tag@ by {
            assert(probes_for(probes, sources[k])[j].tag@ != tag);
        }
        only_probe_stays(before, items, source, own, own.len() as int, m);
    }
}

/// The items of a build are those of its sources, source by source, and no others.
pub proof fn build_has_the_items_of_its_sources(
    sources: Seq<ListedSource>,
    probes: Seq<InstrumentedCoverageProbe>,
    build: Seq<char>,
)
    ensures
        build_items(sources, sources.len() as int, probes, build) == sources.filter(
            |source: ListedSource| source.build_id@ == build,
        ).map_values(|source: ListedSource| source_items(source.id, probes_for(probes, source))).flatten(),
{
    build_items_up_to(sources, sources.len() as int, probes, build);
    assert(sources.take(sources.len() as int) =~= sources);
}

proof fn build_items_up_to(
    sources: Seq<ListedSource>,
    n: int,
    probes: Seq<InstrumentedCoverageProbe>,
    build: Seq<char>,
)
    requires
        0 <= n <= sources.len(),
    ensures
        build_items(sources, n, probes, build) == sources.take(n).filter(
            |source: ListedSource| source.build_id@ == build,
        ).map_values(|source: ListedSource| source_items(source.id, probes_for(probes, source))).flatten(),
    decreases n,
{
    let p = |source: ListedSource| source.build_id@ == build;
    let f = |source: ListedSource| source_items(source.id, probes_for(probes, source));
    if n == 0 {
        assert(sources.take(0) =~= Seq::empty());
        picked_empty(p);
        assert(Seq::<ListedSource>::empty().map_values(f) =~= Seq::empty());
        crate::sums::joined_empty::<CoverageItem>();
    } else {
        build_items_up_to(sources, n - 1, probes, build);
        let last = sources[n - 1];
        assert(sources.take(n) =~= sources.take(n - 1).push(last));
        picked_push(sources.take(n - 1), last, p);
        let picked = sources.take(n - 1).filter(p);
        assert(picked.push(last).map_values(f) =~= picked.map_values(f).push(f(last)));
        crate::sums::joined_push(picked.map_values(f), f(last));
    }
}

/// Every listed source is registered in its build, by its id and by its path. If the build has no other
/// path for the id, the id leads to the path of the source, and if it has no other id for the path, the path leads to
/// the id.
pub proof fn listed_sources_are_registered(list: Seq<ListedSource>, k: int)
    requires
        0 <= k < list.len(),
    ensures
        ({
            let n = list.len() as int;
            let source = list[k];
            let build = source.build_id@;
            let path = registered_path(list, n, build, source.id as usize);
            let id = registered_id(list, n, build, source.path@);
            &&& path is Some
            &&& id is Some
            &&& (forall|j: int|
                0 <= j < n && (#[trigger] list[j]).build_id@ == build && list[j].id == source.id ==> list[j].path@
                    == source.path@) ==> path == Some(source.path@)
            &&& (forall|j: int|
                0 <= j < n && (#[trigger] list[j]).build_id@ == build && same_path(list[j].path@, source.path@)
                    ==> list[j].id == source.id) ==> id == Some(source.id as usize)
        }),
{
    path_is_registered(list, list.len() as int, list[k].build_id@, list[k].id as usize);
    id_is_registered(list, list.len() as int, list[k].build_id@, list[k].path@);
    assert(same_path(list[k].path@, list[k].path@));
}

proof fn path_is_registered(list: Seq<ListedSource>, n: int, build: Seq<char>, id: usize)
    requires
        0 <= n <= list.len(),
    ensures
        match registered_path(list, n, build, id) {
            Some(path) => exists|j: int|
                0 <= j < n && (#[trigger] list[j]).build_id@ == build && list[j].id as usize == id && list[j].path@
                    == path,
            None => forall|j: int| 0 <= j < n ==> !((#[trigger] list[j]).build_id@ == build && list[j].id as usize == id),
        },
    decreases n,
{
    if n > 0 {
        path_is_registered(list, n - 1, build, id);
        if list[n - 1].build_id@ == build && list[n - 1].id as usize == id {
            assert(list[n - 1].path@ == registered_path(list, n, build, id)->0);
        }
    }
}

proof fn id_is_registered(list: Seq<ListedSource>, n: int, build: Seq<char>, path: Seq<char>)
    requires
        0 <= n <= list.len(),
    ensures
        match registered_id(list, n, build, path) {
            Some(id) => exists|j: int|
                0 <= j < n && (#[trigger] list[j]).build_id@ == build && same_path(list[j].path@, path)
                    && list[j].id as usize == id,
            None => forall|j: int|
                0 <= j < n ==> !((#[trigger] list[j]).build_id@ == build && same_path(list[j].path@, path)),
        },
    decreases n,
{
    if n > 0 {
        id_is_registered(list, n - 1, build, path);
        if list[n - 1].build_id@ == build && same_path(list[n - 1].path@, path) {
            assert(list[n - 1].id as usize == registered_id(list, n, build, path)->0);
        }
    }
}

}
