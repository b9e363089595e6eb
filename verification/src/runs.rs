//! What is collected of the runs of tests.
use crate::accounts::tag_hits_add_up;
use crate::attribution::{
    are_hits_of, attributed, is_entry_of, line_hits, AttributionIndex, AttributionTest, NamedResult, ResolvedHitMap,
    SuiteResult, TestResult,
};
use crate::collect::{
    hits_added, hits_up_to, is_aggregate, maps_of, maps_of_test, maps_up_to, resolution, tag_up_to, KnownCode,
};
use crate::hit_maps::{HitMap, HitMaps};
use crate::instrumented::{InstrumentedCoverageItemIds, InstrumentedCoverageTagIndex};
use crate::item_hits::{hits_at, known_tags, resolved_hits, total_hits, was_hit, ItemHit};
use crate::order::Keyed;
use crate::report::{numbered_key, numbered_key_injective, CoverageReport};
use crate::sums::{joined_empty, joined_push, total, total_adds, total_empty, total_push};
use crate::table::{by_key, by_key_of_entry};
use crate::tags::{count_of, InstrumentedHitMaps};
use vstd::prelude::*;

verus! {

/// The results of all tests, suite by suite and test by test, whatever became of them.
pub open spec fn results(suites: Seq<SuiteResult>) -> Seq<TestResult> {
    suites.map_values(
        |suite: SuiteResult| suite.test_results@.map_values(|test: NamedResult| test.result),
    ).flatten()
}

/// The results of one suite.
spec fn results_of(suite: SuiteResult) -> Seq<TestResult> {
    suite.test_results@.map_values(|test: NamedResult| test.result)
}

/// How often a map has a tag.
pub open spec fn times(map: Option<InstrumentedHitMaps>, tag: Seq<u8>) -> nat {
    match map {
        Some(map) => if map@.contains_key(tag) { map@[tag] as nat } else { 0 },
        None => 0,
    }
}

/// How often a tag was hit in a test, and in the setup before it.
spec fn times_in_test(tag: Seq<u8>) -> spec_fn(TestResult) -> nat {
    |result: TestResult| times(result.setup_instrumented_coverage, tag) + times(result.instrumented_coverage, tag)
}

proof fn results_next(suites: Seq<SuiteResult>, n: int)
    requires
        0 < n <= suites.len(),
    ensures
        results(suites.take(n)) == results(suites.take(n - 1)) + results_of(suites[n - 1]),
{
    let f = |suite: SuiteResult| suite.test_results@.map_values(|test: NamedResult| test.result);
    assert(suites.take(n).map_values(f) =~= suites.take(n - 1).map_values(f).push(f(suites[n - 1])));
    joined_push(suites.take(n - 1).map_values(f), f(suites[n - 1]));
}

proof fn results_of_none(suites: Seq<SuiteResult>)
    ensures
        results(suites.take(0)) == Seq::<TestResult>::empty(),
{
    let f = |suite: SuiteResult| suite.test_results@.map_values(|test: NamedResult| test.result);
    assert(suites.take(0).map_values(f) =~= Seq::empty());
    joined_empty::<TestResult>();
}

/// The hits of all tests together are the sum, over every test of every suite, of the hits in the test and of those in
/// the setup before it. A tag is there if one of them has it.
pub proof fn aggregate_adds_up_all_tests(hits: Map<Seq<u8>, u64>, suites: Seq<SuiteResult>, tag: Seq<u8>)
    requires
        is_aggregate(hits, suites),
    ensures
        (if hits.contains_key(tag) { hits[tag] as nat } else { 0 }) == total(
            results(suites).map_values(
                |result: TestResult|
                    times(result.setup_instrumented_coverage, tag) + times(result.instrumented_coverage, tag),
            ),
        ),
        hits.contains_key(tag) <==> exists|i: int|
            0 <= i < results(suites).len() && has_tag(#[trigger] results(suites)[i], tag),
{
    let n = suites.len() as int;
    assert(suites.take(n) =~= suites);
    hits_are_total(suites, n, tag);
    tag_is_somewhere(suites, n, tag);
    assert(count_of(hits, tag) == hits_up_to(suites, n, 0, tag));
    assert(results(suites).map_values(times_in_test(tag)) =~= results(suites).map_values(
        |result: TestResult| times(result.setup_instrumented_coverage, tag) + times(result.instrumented_coverage, tag),
    ));
}

/// A test or the setup before it has a tag.
pub open spec fn has_tag(result: TestResult, tag: Seq<u8>) -> bool {
    ||| result.setup_instrumented_coverage is Some && result.setup_instrumented_coverage->0@.contains_key(tag)
    ||| result.instrumented_coverage is Some && result.instrumented_coverage->0@.contains_key(tag)
}

proof fn hits_are_total(suites: Seq<SuiteResult>, n: int, tag: Seq<u8>)
    requires
        0 <= n <= suites.len(),
    ensures
        hits_up_to(suites, n, 0, tag) == total(results(suites.take(n)).map_values(times_in_test(tag))),
    decreases n,
{
    let f = times_in_test(tag);
    if n == 0 {
        results_of_none(suites);
        assert(results(suites.take(0)).map_values(f) =~= Seq::empty());
        total_empty();
    } else {
        hits_are_total(suites, n - 1, tag);
        results_next(suites, n);
        let before = results(suites.take(n - 1));
        let own = results_of(suites[n - 1]);
        assert((before + own).map_values(f) =~= before.map_values(f) + own.map_values(f));
        total_adds(before.map_values(f), own.map_values(f));
        suite_hits_are_total(suites, n - 1, own.len() as int, tag);
        assert(own.take(own.len() as int) =~= own);
    }
}

proof fn suite_hits_are_total(suites: Seq<SuiteResult>, n: int, m: int, tag: Seq<u8>)
    requires
        0 <= n < suites.len(),
        0 <= m <= suites[n].test_results@.len(),
    ensures
        hits_up_to(suites, n, m, tag) == hits_up_to(suites, n, 0, tag) + total(
            results_of(suites[n]).take(m).map_values(times_in_test(tag)),
        ),
    decreases m,
{
    let f = times_in_test(tag);
    let own = results_of(suites[n]);
    if m == 0 {
        assert(own.take(0).map_values(f) =~= Seq::empty());
        total_empty();
    } else {
        suite_hits_are_total(suites, n, m - 1, tag);
        assert(own.take(m).map_values(f) =~= own.take(m - 1).map_values(f).push(f(own[m - 1])));
        total_push(own.take(m - 1).map_values(f), f(own[m - 1]));
        assert(own[m - 1] == suites[n].test_results@[m - 1].result);
    }
}

proof fn tag_is_somewhere(suites: Seq<SuiteResult>, n: int, tag: Seq<u8>)
    requires
        0 <= n <= suites.len(),
    ensures
        tag_up_to(suites, n, 0, tag) <==> exists|i: int|
            0 <= i < results(suites.take(n)).len() && has_tag(#[trigger] results(suites.take(n))[i], tag),
    decreases n,
{
    if n == 0 {
        results_of_none(suites);
    } else {
        tag_is_somewhere(suites, n - 1, tag);
        results_next(suites, n);
        let before = results(suites.take(n - 1));
        let own = results_of(suites[n - 1]);
        let all = results(suites.take(n));
        tag_is_in_suite(suites, n - 1, own.len() as int, tag);
        if exists|i: int| 0 <= i < before.len() && has_tag(#[trigger] before[i], tag) {
            let i = choose|i: int| 0 <= i < before.len() && has_tag(#[trigger] before[i], tag);
            assert(all[i] == before[i]);
        }
        if exists|i: int| 0 <= i < own.len() && has_tag(#[trigger] own[i], tag) {
            let i = choose|i: int| 0 <= i < own.len() && has_tag(#[trigger] own[i], tag);
            assert(all[before.len() + i] == own[i]);
        }
        if exists|i: int| 0 <= i < all.len() && has_tag(#[trigger] all[i], tag) {
            let i = choose|i: int| 0 <= i < all.len() && has_tag(#[trigger] all[i], tag);
            if i < before.len() {
                assert(before[i] == all[i]);
            } else {
                assert(own[i - before.len()] == all[i]);
            }
        }
    }
}

proof fn tag_is_in_suite(suites: Seq<SuiteResult>, n: int, m: int, tag: Seq<u8>)
    requires
        0 <= n < suites.len(),
        0 <= m <= suites[n].test_results@.len(),
    ensures
        tag_up_to(suites, n, m, tag) <==> tag_up_to(suites, n, 0, tag) || exists|i: int|
            0 <= i < m && has_tag(#[trigger] results_of(suites[n])[i], tag),
    decreases m,
{
    if m > 0 {
        tag_is_in_suite(suites, n, m - 1, tag);
        assert(results_of(suites[n])[m - 1] == suites[n].test_results@[m - 1].result);
    }
}

/// The items of the report get the hits of their tags besides those that they had, as far as they can be counted; all
/// else about them stays, and no item comes or goes.
pub proof fn items_get_the_hits_of_their_tags(
    new: CoverageReport,
    was: CoverageReport,
    index: InstrumentedCoverageTagIndex,
    hits: Map<Seq<u8>, u64>,
    build: Seq<char>,
    item: usize,
)
    requires
        hits_added(new, was, &index, hits),
        was.items_of(build) is Some,
        item < was.items_of(build)->0.len(),
    ensures
        new.items_of(build) is Some,
        new.items_of(build)->0.len() == was.items_of(build)->0.len(),
        ({
            let before = was.items_of(build)->0[item as int];
            let after = new.items_of(build)->0[item as int];
            let more = resolved_hits(index@, known_tags(index@, seq![hits]), seq![hits], build, item);
            &&& after.kind == before.kind
            &&& after.loc == before.loc
            &&& before.hits + more <= u32::MAX ==> after.hits == before.hits + more
            &&& before.hits + more >= u32::MAX ==> after.hits == u32::MAX
        }),
{
    assert(new.items_of(build) is Some);
}

/// A test is credited with the hits of its setup and with its own, and with those of no other test: a tag was hit as
/// often as in both together, and it was hit if either has it.
pub proof fn setup_counts_for_its_test(result: TestResult, tag: Seq<u8>)
    ensures
        total_hits(result.views(), tag) == times(result.setup_instrumented_coverage, tag) + times(
            result.instrumented_coverage,
            tag,
        ),
        was_hit(result.views(), tag) <==> has_tag(result, tag),
{
    let maps = result.views();
    tag_hits_add_up(maps, tag);
    let f = |map: Map<Seq<u8>, u64>| if map.contains_key(tag) { map[tag] as nat } else { 0 };
    total_empty();
    match (result.setup_instrumented_coverage, result.instrumented_coverage) {
        (Some(a), Some(b)) => {
            assert(maps =~= seq![a@, b@]);
            assert(maps.map_values(f) =~= Seq::empty().push(f(a@)).push(f(b@)));
            total_push(Seq::empty(), f(a@));
            total_push(Seq::empty().push(f(a@)), f(b@));
            assert(maps[0] == a@ && maps[1] == b@);
        },
        (Some(a), None) => {
            assert(maps =~= seq![a@]);
            assert(maps.map_values(f) =~= Seq::empty().push(f(a@)));
            total_push(Seq::empty(), f(a@));
            assert(maps[0] == a@);
        },
        (None, Some(b)) => {
            assert(maps =~= seq![b@]);
            assert(maps.map_values(f) =~= Seq::empty().push(f(b@)));
            total_push(Seq::empty(), f(b@));
            assert(maps[0] == b@);
        },
        (None, None) => {
            assert(maps =~= Seq::empty());
            assert(maps.map_values(f) =~= Seq::empty());
        },
    }
}

/// The entry of a test names the suite and the test, says how it ended and of what kind it is, whatever it covered. What
/// it covered comes from a list of hits: with probes, of those of its setup and its own, else of those of its hit maps.
pub proof fn entries_tell_their_tests<'a>(
    entry: AttributionTest<'a>,
    suite: String,
    test: NamedResult,
    index: AttributionIndex<'a>,
    resolved: Map<Seq<u8>, ResolvedHitMap>,
    tags: Option<Map<Seq<u8>, InstrumentedCoverageItemIds>>,
) -> (list: Seq<ItemHit>)
    requires
        is_entry_of(entry, (suite, test), index, resolved, tags),
    ensures
        entry.suite@ == suite@,
        entry.test@ == test.name@,
        entry.status == test.result.status,
        entry.kind == test.result.kind,
        entry.covered@ == attributed(index, list, index.items.entries@.len() as int),
        are_hits_of(list, *index.report, resolved, tags, test.result),
        tags is None && test.result.line_coverage is Some ==> list.map_values(
            |hit: ItemHit| (hit.build_id@, hit.item_id, hit.hits),
        ) == line_hits(*index.report, resolved, test.result.line_coverage->0, test.result.line_coverage->0.count() as int),
        tags is None && test.result.line_coverage is None ==> list.len() == 0,
{
    choose|list: Seq<ItemHit>| #[trigger]
        are_hits_of(list, *index.report, resolved, tags, test.result) && entry.covered@ == attributed(
            index,
            list,
            index.items.entries@.len() as int,
        )
}

/// With probes, the listed hits of a test are those that its items are resolved to, each item once, and no item with
/// hits is missing.
pub proof fn listed_hits_are_resolved(
    list: Seq<ItemHit>,
    report: CoverageReport,
    resolved: Map<Seq<u8>, ResolvedHitMap>,
    tags: Map<Seq<u8>, InstrumentedCoverageItemIds>,
    result: TestResult,
)
    requires
        are_hits_of(list, report, resolved, Some(tags), result),
    ensures
        ({
            let maps = result.views();
            &&& forall|k: int|
                0 <= k < list.len() ==> (#[trigger] list[k]).hits == resolved_hits(
                    tags,
                    known_tags(tags, maps),
                    maps,
                    list[k].build_id@,
                    list[k].item_id,
                )
            &&& forall|build: Seq<char>, item: usize|
                #[trigger] resolved_hits(tags, known_tags(tags, maps), maps, build, item) != 0 ==> exists|k: int|
                    0 <= k < list.len() && (#[trigger] list[k]).build_id@ == build && list[k].item_id == item
        }),
{
    let maps = result.views();
    assert forall|k: int| 0 <= k < list.len() implies (#[trigger] list[k]).hits == resolved_hits(
        tags,
        known_tags(tags, maps),
        maps,
        list[k].build_id@,
        list[k].item_id,
    ) by {
        by_key_of_entry(list, k);
        assert(list[k].sort_key() == numbered_key(list[k].build_id@, list[k].item_id));
        assert(hits_at(by_key(list), list[k].build_id@, list[k].item_id) == list[k].hits);
    }
    assert forall|build: Seq<char>, item: usize|
        #[trigger] resolved_hits(tags, known_tags(tags, maps), maps, build, item) != 0 implies exists|k: int|
        0 <= k < list.len() && (#[trigger] list[k]).build_id@ == build && list[k].item_id == item by {
        assert(hits_at(by_key(list), build, item) != 0);
        let key = numbered_key(build, item);
        let k = choose|k: int| 0 <= k < list.len() && (#[trigger] list[k]).sort_key() == key;
        numbered_key_injective(list[k].build_id@, list[k].item_id, build, item);
    }
}

/// The hit maps of a test, in their order.
pub open spec fn slots_of(result: TestResult) -> Seq<(Seq<u8>, HitMap)> {
    match result.line_coverage {
        Some(maps) => Seq::new(maps.count(), |slot: int| (maps.hash_at(slot), maps.spec_at(slot))),
        None => Seq::empty(),
    }
}

/// The hit maps that are collected are all those of all tests, test by test.
pub proof fn every_hit_map_is_collected(suites: Seq<SuiteResult>)
    ensures
        maps_up_to(suites, suites.len() as int, 0) == results(suites).map_values(
            |result: TestResult| slots_of(result),
        ).flatten(),
{
    let n = suites.len() as int;
    assert(suites.take(n) =~= suites);
    maps_are_collected(suites, n);
    assert(results(suites).map_values(slots()) =~= results(suites).map_values(|result: TestResult| slots_of(result)));
}

spec fn slots() -> spec_fn(TestResult) -> Seq<(Seq<u8>, HitMap)> {
    |result: TestResult| slots_of(result)
}

proof fn maps_are_collected(suites: Seq<SuiteResult>, n: int)
    requires
        0 <= n <= suites.len(),
    ensures
        maps_up_to(suites, n, 0) == results(suites.take(n)).map_values(slots()).flatten(),
    decreases n,
{
    if n == 0 {
        results_of_none(suites);
        assert(results(suites.take(0)).map_values(slots()) =~= Seq::empty());
        joined_empty::<(Seq<u8>, HitMap)>();
    } else {
        maps_are_collected(suites, n - 1);
        results_next(suites, n);
        let before = results(suites.take(n - 1));
        let own = results_of(suites[n - 1]);
        assert((before + own).map_values(slots()) =~= before.map_values(slots()) + own.map_values(slots()));
        suite_maps_are_collected(suites, n - 1, own.len() as int, before);
        assert(own.take(own.len() as int) =~= own);
    }
}

proof fn suite_maps_are_collected(suites: Seq<SuiteResult>, n: int, m: int, before: Seq<TestResult>)
    requires
        0 <= n < suites.len(),
        0 <= m <= suites[n].test_results@.len(),
        maps_up_to(suites, n, 0) == before.map_values(slots()).flatten(),
    ensures
        maps_up_to(suites, n, m) == (before.map_values(slots()) + results_of(suites[n]).take(m).map_values(
            slots(),
        )).flatten(),
    decreases m,
{
    let own = results_of(suites[n]);
    let first = before.map_values(slots());
    if m == 0 {
        assert(first + own.take(0).map_values(slots()) =~= first);
    } else {
        suite_maps_are_collected(suites, n, m - 1, before);
        let last = slots_of(own[m - 1]);
        assert(first + own.take(m).map_values(slots()) =~= (first + own.take(m - 1).map_values(slots())).push(last));
        joined_push(first + own.take(m - 1).map_values(slots()), last);
        assert(own[m - 1] == suites[n].test_results@[m - 1].result);
        match own[m - 1].line_coverage {
            Some(maps) => maps_are_slots(maps, maps.count() as int),
            None => {},
        }
        assert(maps_of_test(own[m - 1]) =~= last);
    }
}

proof fn maps_are_slots(maps: HitMaps, n: int)
    requires
        0 <= n,
    ensures
        maps_of(maps, n) == Seq::new(n as nat, |slot: int| (maps.hash_at(slot), maps.spec_at(slot))),
    decreases n,
{
    let all = Seq::new(n as nat, |slot: int| (maps.hash_at(slot), maps.spec_at(slot)));
    if n > 0 {
        maps_are_slots(maps, n - 1);
    }
    assert(maps_of(maps, n) =~= all);
}

/// Code that is known as the deployed code of a contract counts for the deployed code, also where it is known as
/// creation code; code that is known as creation code only counts for that. Code that is not known, or whose contract
/// has no registered source, counts for nothing.
pub proof fn code_counts_for_its_contract(
    report: CoverageReport,
    resolved: Map<Seq<u8>, ResolvedHitMap>,
    known: Map<Seq<u8>, KnownCode>,
    hash: Seq<u8>,
)
    requires
        !resolved.contains_key(hash),
    ensures
        ({
            let found = resolution(report, resolved, known, hash);
            &&& !known.contains_key(hash) ==> found is None
            &&& known.contains_key(hash) && known[hash].deployed is Some ==> {
                let artifact = known[hash].deployed->0;
                &&& found is Some <==> report.id_of(artifact.build_id@, artifact.source@) is Some
                &&& found is Some ==> found->0.is_deployed_code && found->0.contract_id.build_id == artifact.build_id
                    && found->0.contract_id.version == artifact.version && found->0.contract_id.contract_name
                    == artifact.name && report.id_of(artifact.build_id@, artifact.source@) == Some(
                    found->0.contract_id.source_id,
                )
            }
            &&& known.contains_key(hash) && known[hash].deployed is None && known[hash].creation is Some ==> {
                let artifact = known[hash].creation->0;
                &&& found is Some <==> report.id_of(artifact.build_id@, artifact.source@) is Some
                &&& found is Some ==> !found->0.is_deployed_code && found->0.contract_id.build_id == artifact.build_id
                    && found->0.contract_id.version == artifact.version && found->0.contract_id.contract_name
                    == artifact.name && report.id_of(artifact.build_id@, artifact.source@) == Some(
                    found->0.contract_id.source_id,
                )
            }
            &&& known.contains_key(hash) && known[hash].deployed is None && known[hash].creation is None ==> found is None
        }),
{
}

}
