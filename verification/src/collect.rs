//! Collects the hits of test runs into a report.
use crate::anchors::hit_map_added;
use crate::args::CoverageArgs;
use crate::artifacts::{
    all_ways, file_at, last_analysed, last_id, last_path, opt_joined, register_sources, ArtifactId, BuildSource,
};
use crate::attribution::{ResolvedHitMap, ResolvedHitMaps, SuiteResult, TestResult};
use crate::hit_maps::{HitMap, HitMaps};
use crate::instrumented::{consistent, is_prepared, prepare, InstrumentedCoverageTagIndex, SourceFile};
use crate::item_hits::{add_hits, hits_of_map, with_all_hits};
use crate::probes::InstrumentedCoverageMetadata;
use crate::report::{ContractId, CoverageReport};
use crate::table::Table;
use crate::tag_table::TagTable;
use crate::tags::{can_add, count_of, InstrumentedHitMaps};
use vstd::prelude::*;

verus! {

/// The contract that some code belongs to, as deployed code and as creation code.
#[derive(Debug)]
pub struct KnownCode {
    pub deployed: Option<ArtifactId>,
    pub creation: Option<ArtifactId>,
}

/// A contract whose source is registered under its path, if it is.
pub open spec fn contract_of(report: CoverageReport, artifact: ArtifactId, is_deployed_code: bool) -> Option<
    ResolvedHitMap,
> {
    match report.id_of(artifact.build_id@, artifact.source@) {
        Some(source_id) => Some(
            ResolvedHitMap {
                contract_id: ContractId {
                    version: artifact.version,
                    build_id: artifact.build_id,
                    source_id,
                    contract_name: artifact.name,
                },
                is_deployed_code,
            },
        ),
        None => None,
    }
}

/// The contract that a hit map belongs to: the one that was found before, else the one with this deployed
/// code, else the one with this creation code.
pub open spec fn resolution(
    report: CoverageReport,
    resolved: Map<Seq<u8>, ResolvedHitMap>,
    known: Map<Seq<u8>, KnownCode>,
    hash: Seq<u8>,
) -> Option<ResolvedHitMap> {
    if resolved.contains_key(hash) {
        Some(resolved[hash])
    } else if known.contains_key(hash) {
        match known[hash].deployed {
            Some(artifact) => contract_of(report, artifact, true),
            None => match known[hash].creation {
                Some(artifact) => contract_of(report, artifact, false),
                None => None,
            },
        }
    } else {
        None
    }
}

/// The report and the resolved hit maps after a hit map: a map that cannot be resolved changes nothing.
pub open spec fn map_collected(
    new: (CoverageReport, Map<Seq<u8>, ResolvedHitMap>),
    was: (CoverageReport, Map<Seq<u8>, ResolvedHitMap>),
    known: Map<Seq<u8>, KnownCode>,
    hash: Seq<u8>,
    map: HitMap,
) -> bool {
    match resolution(was.0, was.1, known, hash) {
        Some(contract) => {
            &&& hit_map_added(new.0, was.0, contract.contract_id, map, contract.is_deployed_code)
            &&& new.1 == was.1.insert(hash, contract)
        },
        None => new == was,
    }
}

/// Each state follows from the one before it by one of the maps.
pub open spec fn maps_collected(
    states: Seq<(CoverageReport, Map<Seq<u8>, ResolvedHitMap>)>,
    maps: Seq<(Seq<u8>, HitMap)>,
    known: Map<Seq<u8>, KnownCode>,
) -> bool {
    &&& states.len() == maps.len() + 1
    &&& forall|i: int|
        0 <= i < maps.len() ==> map_collected(states[i + 1], states[i], known, (#[trigger] maps[i]).0, maps[i].1)
}

/// The first `n` hit maps of a test.
pub open spec fn maps_of(maps: HitMaps, n: int) -> Seq<(Seq<u8>, HitMap)>
    decreases n,
{
    if n <= 0 {
        Seq::empty()
    } else {
        maps_of(maps, n - 1).push((maps.hash_at(n - 1), maps.spec_at(n - 1)))
    }
}

/// The hit maps of a test.
pub open spec fn maps_of_test(result: TestResult) -> Seq<(Seq<u8>, HitMap)> {
    match result.line_coverage {
        Some(maps) => maps_of(maps, maps.count() as int),
        None => Seq::empty(),
    }
}

/// The hit maps of the first `m` tests of the suite at a position, behind those of the suites before it.
pub open spec fn maps_up_to(suites: Seq<SuiteResult>, n: int, m: int) -> Seq<(Seq<u8>, HitMap)>
    decreases n, m,
{
    if n < 0 {
        Seq::empty()
    } else if m <= 0 {
        if n == 0 {
            Seq::empty()
        } else {
            maps_up_to(suites, n - 1, suites[n - 1].test_results@.len() as int)
        }
    } else {
        maps_up_to(suites, n, m - 1) + maps_of_test(suites[n].test_results@[m - 1].result)
    }
}

/// The hit maps of all tests are well formed.
pub open spec fn tests_wf(suites: Seq<SuiteResult>) -> bool {
    forall|n: int, m: int|
        0 <= n < suites.len() && 0 <= m < (#[trigger] suites[n]).test_results@.len() ==> test_wf(
            #[trigger] suites[n].test_results@[m].result,
        )
}

/// The hit maps of a test are well formed.
pub open spec fn test_wf(result: TestResult) -> bool {
    result.line_coverage is Some ==> result.line_coverage->0.wf()
}

/// Finds the contract that some code belongs to, if its source is registered.
fn resolve_artifact(report: &CoverageReport, artifact: &ArtifactId, is_deployed_code: bool) -> (resolved: Option<
    ResolvedHitMap,
>)
    requires
        report.wf(),
    ensures
        resolved == contract_of(*report, *artifact, is_deployed_code),
{
    match report.get_source_id(artifact.build_id.as_str(), artifact.source.as_str()) {
        Some(source_id) => Some(
            ResolvedHitMap {
                contract_id: ContractId {
                    version: artifact.version.clone(),
                    build_id: artifact.build_id.clone(),
                    source_id,
                    contract_name: artifact.name.clone(),
                },
                is_deployed_code,
            },
        ),
        None => None,
    }
}

/// Adds a hit map to the report, if the contract that it belongs to can be found.
pub fn collect_map(
    report: &mut CoverageReport,
    resolved: &mut ResolvedHitMaps,
    known: &TagTable<KnownCode>,
    hash: [u8; 32],
    map: &HitMap,
)
    requires
        old(report).wf(),
        old(resolved).wf(),
        known.wf(),
        map.wf(),
    ensures
        final(report).wf(),
        final(resolved).wf(),
        map_collected(
            (*final(report), final(resolved)@),
            (*old(report), old(resolved)@),
            known@,
            hash@,
            *map,
        ),
{
    if let Some(contract) = resolved.get(&hash) {
        report.add_hit_map(&contract.contract_id, map, contract.is_deployed_code);
        assert(resolved@.insert(hash@, *contract) =~= resolved@);
        return ;
    }
    let found = match known.get(&hash) {
        Some(code) => match &code.deployed {
            Some(artifact) => resolve_artifact(report, artifact, true),
            None => match &code.creation {
                Some(artifact) => resolve_artifact(report, artifact, false),
                None => None,
            },
        },
        None => None,
    };
    if let Some(contract) = found {
        report.add_hit_map(&contract.contract_id, map, contract.is_deployed_code);
        resolved.insert(hash, contract);
    }
}

/// Adds the hit maps of all tests to the report, and gives the contracts that they belong to.
pub fn collect_line_coverage(
    report: &mut CoverageReport,
    outcome: &Vec<SuiteResult>,
    known: &TagTable<KnownCode>,
) -> (resolved: ResolvedHitMaps)
    requires
        old(report).wf(),
        known.wf(),
        tests_wf(outcome@),
    ensures
        final(report).wf(),
        resolved.wf(),
        exists|states: Seq<(CoverageReport, Map<Seq<u8>, ResolvedHitMap>)>| #[trigger]
            maps_collected(states, maps_up_to(outcome@, outcome@.len() as int, 0), known@) && states[0] == (
            *old(report),
            Map::<Seq<u8>, ResolvedHitMap>::empty(),
            ) && states.last() == (*final(report), resolved@),
{
    let mut resolved = ResolvedHitMaps::new();
    let ghost start = (*report, resolved@);
    let ghost mut states = seq![start];
    let mut n: usize = 0;
    while n < outcome.len()
        invariant
            known.wf(),
            tests_wf(outcome@),
            n <= outcome@.len(),
            report.wf(),
            resolved.wf(),
            maps_collected(states, maps_up_to(outcome@, n as int, 0), known@),
            states[0] == start,
            states.last() == (*report, resolved@),
        decreases outcome@.len() - n,
    {
        let suite = &outcome[n];
        let mut m: usize = 0;
        while m < suite.test_results.len()
            invariant
                known.wf(),
                tests_wf(outcome@),
                n < outcome@.len(),
                *suite == outcome@[n as int],
                m <= suite.test_results@.len(),
                report.wf(),
                resolved.wf(),
                maps_collected(states, maps_up_to(outcome@, n as int, m as int), known@),
                states[0] == start,
                states.last() == (*report, resolved@),
            decreases suite.test_results@.len() - m,
        {
            let result = &suite.test_results[m].result;
            let ghost before = maps_up_to(outcome@, n as int, m as int);
            assert(test_wf(outcome@[n as int].test_results@[m as int].result));
            if let Some(maps) = &result.line_coverage {
                let mut slot: usize = 0;
                assert(before + maps_of(*maps, 0) =~= before);
                while slot < maps.len()
                    invariant
                        known.wf(),
                        maps.wf(),
                        slot <= maps.count(),
                        report.wf(),
                        resolved.wf(),
                        maps_collected(states, before + maps_of(*maps, slot as int), known@),
                        states[0] == start,
                        states.last() == (*report, resolved@),
                    decreases maps.count() - slot,
                {
                    let hash = maps.hash(slot);
                    proof {
                        maps.slots_match();
                        let h = maps.hash_at(slot as int);
                    }
                    collect_map(report, &mut resolved, known, hash, maps.at(slot));
                    proof {
                        let was = before + maps_of(*maps, slot as int);
                        let now = before + maps_of(*maps, slot + 1);
                        let next = states.push((*report, resolved@));
                        assert(now =~= was.push((hash@, maps.spec_at(slot as int))));
                        assert forall|i: int| 0 <= i < now.len() implies map_collected(
                            next[i + 1],
                            next[i],
                            known@,
                            (#[trigger] now[i]).0,
                            now[i].1,
                        ) by {
                            if i < was.len() {
                                assert(now[i] == was[i]);
                            }
                        }
                        states = next;
                    }
                    slot += 1;
                }
            } else {
                assert(before + maps_of_test(*result) =~= before);
            }
            m += 1;
        }
        n += 1;
    }
    resolved
}

/// The hits of a map, where there is one.
pub open spec fn hits_in(map: Option<InstrumentedHitMaps>) -> Map<Seq<u8>, u64> {
    match map {
        Some(hits) => hits@,
        None => Map::empty(),
    }
}

/// The hits of a tag in a test and in the setup before it.
pub open spec fn test_hits(result: TestResult, tag: Seq<u8>) -> nat {
    count_of(hits_in(result.setup_instrumented_coverage), tag) + count_of(hits_in(result.instrumented_coverage), tag)
}

/// A tag was hit in a test or in the setup before it.
pub open spec fn test_has(result: TestResult, tag: Seq<u8>) -> bool {
    hits_in(result.setup_instrumented_coverage).contains_key(tag) || hits_in(
        result.instrumented_coverage,
    ).contains_key(tag)
}

/// The hits of a tag in the first `m` tests of the suite at a position and all tests of the suites before.
/// A setup counts for each test that it was made for.
pub open spec fn hits_up_to(suites: Seq<SuiteResult>, n: int, m: int, tag: Seq<u8>) -> nat
    decreases n, m,
{
    if n < 0 {
        0
    } else if m <= 0 {
        if n == 0 {
            0
        } else {
            hits_up_to(suites, n - 1, suites[n - 1].test_results@.len() as int, tag)
        }
    } else {
        hits_up_to(suites, n, m - 1, tag) + test_hits(suites[n].test_results@[m - 1].result, tag)
    }
}

/// A tag was hit in one of these tests.
pub open spec fn tag_up_to(suites: Seq<SuiteResult>, n: int, m: int, tag: Seq<u8>) -> bool
    decreases n, m,
{
    if n < 0 {
        false
    } else if m <= 0 {
        n != 0 && tag_up_to(suites, n - 1, suites[n - 1].test_results@.len() as int, tag)
    } else {
        tag_up_to(suites, n, m - 1, tag) || test_has(suites[n].test_results@[m - 1].result, tag)
    }
}

proof fn hits_up_to_grows(suites: Seq<SuiteResult>, n: int, m: int, last: int, tag: Seq<u8>)
    requires
        0 <= n <= last <= suites.len(),
        0 <= m,
        n < last ==> m <= suites[n].test_results@.len(),
        n == last ==> m == 0,
    ensures
        hits_up_to(suites, n, m, tag) <= hits_up_to(suites, last, 0, tag),
    decreases last - n, (if n < last { suites[n].test_results@.len() - m } else { 0 }),
{
    if n < last {
        if m < suites[n].test_results@.len() {
            hits_up_to_grows(suites, n, m + 1, last, tag);
        } else {
            hits_up_to_grows(suites, n + 1, 0, last, tag);
        }
    }
}

/// Adds the hits of a map, where there is one.
fn add_opt(hits: &mut InstrumentedHitMaps, more: &Option<InstrumentedHitMaps>)
    requires
        can_add(old(hits)@, hits_in(*more)),
    ensures
        forall|tag: Seq<u8>| #[trigger]
            final(hits)@.contains_key(tag) <==> old(hits)@.contains_key(tag) || hits_in(*more).contains_key(tag),
        forall|tag: Seq<u8>| #[trigger]
            count_of(final(hits)@, tag) == count_of(old(hits)@, tag) + count_of(hits_in(*more), tag),
{
    if let Some(more) = more {
        hits.merge_ref(more);
        assert forall|tag: Seq<u8>| #[trigger] count_of(hits@, tag) == count_of(old(hits)@, tag) + count_of(
            more@,
            tag,
        ) by {
            assert(count_of(old(hits)@, tag) + count_of(more@, tag) <= u64::MAX);
        }
    }
}

/// Adds up the hits of all tests, each with its setup.
pub fn aggregate_hits(outcome: &Vec<SuiteResult>) -> (hits: InstrumentedHitMaps)
    requires
        forall|tag: Seq<u8>| #[trigger] hits_up_to(outcome@, outcome@.len() as int, 0, tag) <= u64::MAX,
    ensures
        forall|tag: Seq<u8>| #[trigger]
            hits@.contains_key(tag) <==> tag_up_to(outcome@, outcome@.len() as int, 0, tag),
        forall|tag: Seq<u8>| #[trigger]
            count_of(hits@, tag) == hits_up_to(outcome@, outcome@.len() as int, 0, tag),
{
    let mut hits = InstrumentedHitMaps::new();
    let mut n: usize = 0;
    while n < outcome.len()
        invariant
            forall|tag: Seq<u8>| #[trigger] hits_up_to(outcome@, outcome@.len() as int, 0, tag) <= u64::MAX,
            n <= outcome@.len(),
            forall|tag: Seq<u8>| #[trigger] hits@.contains_key(tag) <==> tag_up_to(outcome@, n as int, 0, tag),
            forall|tag: Seq<u8>| #[trigger] count_of(hits@, tag) == hits_up_to(outcome@, n as int, 0, tag),
        decreases outcome@.len() - n,
    {
        let suite = &outcome[n];
        let mut m: usize = 0;
        while m < suite.test_results.len()
            invariant
                forall|tag: Seq<u8>| #[trigger] hits_up_to(outcome@, outcome@.len() as int, 0, tag) <= u64::MAX,
                n < outcome@.len(),
                *suite == outcome@[n as int],
                m <= suite.test_results@.len(),
                forall|tag: Seq<u8>| #[trigger]
                    hits@.contains_key(tag) <==> tag_up_to(outcome@, n as int, m as int, tag),
                forall|tag: Seq<u8>| #[trigger]
                    count_of(hits@, tag) == hits_up_to(outcome@, n as int, m as int, tag),
            decreases suite.test_results@.len() - m,
        {
            let result = &suite.test_results[m].result;
            let ghost before = hits@;
            proof {
                assert forall|tag: Seq<u8>| count_of(before, tag) + #[trigger] test_hits(*result, tag)
                    <= u64::MAX by {
                    hits_up_to_grows(outcome@, n as int, m + 1, outcome@.len() as int, tag);
                    assert(hits_up_to(outcome@, n as int, m + 1, tag) == count_of(before, tag) + test_hits(
                        *result,
                        tag,
                    ));
                }
                assert forall|tag: Seq<u8>| count_of(before, tag) + #[trigger] count_of(
                    hits_in(result.setup_instrumented_coverage),
                    tag,
                ) <= u64::MAX by {
                    assert(count_of(before, tag) + test_hits(*result, tag) <= u64::MAX);
                }
            }
            add_opt(&mut hits, &result.setup_instrumented_coverage);
            let ghost between = hits@;
            proof {
                assert forall|tag: Seq<u8>| count_of(between, tag) + #[trigger] count_of(
                    hits_in(result.instrumented_coverage),
                    tag,
                ) <= u64::MAX by {
                    assert(count_of(before, tag) + test_hits(*result, tag) <= u64::MAX);
                    assert(count_of(between, tag) == count_of(before, tag) + count_of(
                        hits_in(result.setup_instrumented_coverage),
                        tag,
                    ));
                }
            }
            add_opt(&mut hits, &result.instrumented_coverage);
            proof {
                assert forall|tag: Seq<u8>| #[trigger] hits@.contains_key(tag) <==> tag_up_to(
                    outcome@,
                    n as int,
                    m + 1,
                    tag,
                ) by {
                    assert(between.contains_key(tag) <==> before.contains_key(tag) || hits_in(
                        result.setup_instrumented_coverage,
                    ).contains_key(tag));
                    assert(before.contains_key(tag) <==> tag_up_to(outcome@, n as int, m as int, tag));
                }
                assert forall|tag: Seq<u8>| #[trigger] count_of(hits@, tag) == hits_up_to(
                    outcome@,
                    n as int,
                    m + 1,
                    tag,
                ) by {
                    assert(count_of(between, tag) == count_of(before, tag) + count_of(
                        hits_in(result.setup_instrumented_coverage),
                        tag,
                    ));
                    assert(count_of(before, tag) == hits_up_to(outcome@, n as int, m as int, tag));
                }
            }
            m += 1;
        }
        n += 1;
    }
    hits
}

/// What a run starts from.
pub enum Prepared {
    /// With probes: the items of all builds, and the index of the tags.
    Instrumented(CoverageReport, InstrumentedCoverageTagIndex),
    /// Without probes: the registered sources, and the files to be analysed for each build.
    Sources(CoverageReport, Table<BuildSource>),
}

/// The report has the registered sources of the project, no items and no contracts, and the table the files
/// to be analysed.
pub open spec fn is_registered(
    report: CoverageReport,
    analysed: Map<Seq<u64>, BuildSource>,
    files: Seq<SourceFile>,
    with_libs: bool,
    without_tests: bool,
    root: Seq<char>,
) -> bool {
    let list = all_ways(files, files.len() as int);
    &&& forall|b: Seq<char>, i: usize| #[trigger] report.path_of(b, i) == last_path(list, b, i)
    &&& forall|b: Seq<char>, p: Seq<char>| #[trigger] report.id_of(b, p) == last_id(list, b, p)
    &&& forall|b: Seq<char>| (#[trigger] report.items_of(b)) is None
    &&& report.has_no_contracts()
    &&& forall|b: Seq<char>, i: usize| #[trigger]
        file_at(analysed, b, i) == opt_joined(root, last_analysed(list, with_libs, without_tests, b, i))
}

impl CoverageArgs {
    /// Prepares a run with probes.
    pub fn prepare_instrumented(&self, files: &Vec<SourceFile>, instrumentation: &InstrumentedCoverageMetadata) -> (
        prepared: (CoverageReport, InstrumentedCoverageTagIndex))
        ensures
            prepared.0.wf(),
            prepared.1.wf(),
            consistent(prepared.1@),
            is_prepared(
                prepared.0,
                prepared.1@,
                files@,
                instrumentation.probes@,
                self.include_libs,
                self.exclude_tests,
            ),
    {
        prepare(files, instrumentation, self.include_libs, self.exclude_tests)
    }

    /// Prepares a run: with the probes that were put into the sources, if there are any.
    pub fn prepare(
        &self,
        files: &Vec<SourceFile>,
        instrumentation: Option<&InstrumentedCoverageMetadata>,
        root: &str,
    ) -> (prepared: Prepared)
        ensures
            match instrumentation {
                Some(metadata) => match prepared {
                    Prepared::Instrumented(report, index) => report.wf() && index.wf() && consistent(index@)
                        && is_prepared(
                        report,
                        index@,
                        files@,
                        metadata.probes@,
                        self.include_libs,
                        self.exclude_tests,
                    ),
                    Prepared::Sources(..) => false,
                },
                None => match prepared {
                    Prepared::Instrumented(..) => false,
                    Prepared::Sources(report, analysed) => report.wf() && analysed.wf() && is_registered(
                        report,
                        analysed@,
                        files@,
                        self.include_libs,
                        self.exclude_tests,
                        root@,
                    ),
                },
            },
    {
        match instrumentation {
            Some(metadata) => {
                let (report, index) = self.prepare_instrumented(files, metadata);
                Prepared::Instrumented(report, index)
            },
            None => {
                let (report, analysed) = register_sources(files, self.include_libs, self.exclude_tests, root);
                Prepared::Sources(report, analysed)
            },
        }
    }

    /// Adds the hits of all tests to the report: those of the probes where there is an index of them, else
    /// those of the instructions. Gives the contracts that the hit maps of instructions belong to.
    pub fn collect(
        report: &mut CoverageReport,
        instrumented_index: Option<&InstrumentedCoverageTagIndex>,
        outcome: &Vec<SuiteResult>,
        known: &TagTable<KnownCode>,
    ) -> (resolved: ResolvedHitMaps)
        requires
            old(report).wf(),
            known.wf(),
            tests_wf(outcome@),
            instrumented_index is Some ==> instrumented_index->0.wf() && consistent(instrumented_index->0@) && forall|
                tag: Seq<u8>,
            | #[trigger]
                hits_up_to(outcome@, outcome@.len() as int, 0, tag) <= u64::MAX,
        ensures
            final(report).wf(),
            resolved.wf(),
            match instrumented_index {
                Some(index) => {
                    &&& resolved@ == Map::<Seq<u8>, ResolvedHitMap>::empty()
                    &&& final(report).same_sources(old(report))
                    &&& final(report).same_contracts(old(report))
                    &&& exists|hits: Map<Seq<u8>, u64>| #[trigger]
                        is_aggregate(hits, outcome@) && hits_added(*final(report), *old(report), index, hits)
                },
                None => exists|states: Seq<(CoverageReport, Map<Seq<u8>, ResolvedHitMap>)>| #[trigger]
                    maps_collected(states, maps_up_to(outcome@, outcome@.len() as int, 0), known@) && states[0] == (
                    *old(report),
                    Map::<Seq<u8>, ResolvedHitMap>::empty(),
                    ) && states.last() == (*final(report), resolved@),
            },
    {
        match instrumented_index {
            Some(index) => {
                let hits = aggregate_hits(outcome);
                add_hits(report, index, &hits);
                assert(is_aggregate(hits@, outcome@));
                assert(hits_added(*report, *old(report), index, hits@));
                ResolvedHitMaps::new()
            },
            None => collect_line_coverage(report, outcome, known),
        }
    }
}

/// The map holds the hits of all tests together.
pub open spec fn is_aggregate(hits: Map<Seq<u8>, u64>, outcome: Seq<SuiteResult>) -> bool {
    &&& forall|tag: Seq<u8>| #[trigger] hits.contains_key(tag) <==> tag_up_to(outcome, outcome.len() as int, 0, tag)
    &&& forall|tag: Seq<u8>| #[trigger] count_of(hits, tag) == hits_up_to(outcome, outcome.len() as int, 0, tag)
}

/// The items of the report have the hits of the map besides those they had.
pub open spec fn hits_added(
    new: CoverageReport,
    was: CoverageReport,
    index: &InstrumentedCoverageTagIndex,
    hits: Map<Seq<u8>, u64>,
) -> bool {
    forall|build: Seq<char>| #[trigger]
        new.items_of(build) == (match was.items_of(build) {
            Some(items) => Some(with_all_hits(items, build, hits_of_map(index@, hits))),
            None => None,
        })
}

}
