use alloy_primitives::B256;
use forge_coverage::attribution::{attributed_items, AttributionIndex, ResolvedHitMaps, TestKind, TestResult, TestStatus};
use forge_coverage::instrumented::{
    build_source_items, list_sources, prepare, CompiledSource, InstrumentedCoverageItemIds, InstrumentedCoverageTagIndex,
    InstrumentedRequireBranchIds, InstrumentedRequireProbeRole, SourceFile,
};
use forge_coverage::item_hits::{add_hits, item_hits};
use forge_coverage::items::{CoverageItem, CoverageItemKind, SourceLocation};
use forge_coverage::probes::{
    InstrumentedCoverageMetadata, InstrumentedCoverageProbe, InstrumentedCoverageProbeKind,
};
use forge_coverage::report::{CoverageReport, SourceAnalysis};
use forge_coverage::tags::InstrumentedHitMaps;
use forge_coverage::version::Version;

fn tag(byte: u8) -> [u8; 32] {
    B256::repeat_byte(byte).0
}

fn hits(counts: &[(u8, u64)]) -> InstrumentedHitMaps {
    InstrumentedHitMaps(counts.iter().map(|(byte, count)| (B256::repeat_byte(*byte), *count)).collect())
}

fn items_of<'a>(report: &'a CoverageReport, build_id: &str) -> &'a Vec<CoverageItem> {
    let entry = report.analyses.entries.iter().find(|entry| entry.build_id == build_id).unwrap();
    &entry.analysis.items
}

fn probe(version: u64, path: &str, tag_byte: u8, line: u32) -> InstrumentedCoverageProbe {
    InstrumentedCoverageProbe {
        version: Version::new(0, 8, version),
        path: path.into(),
        contract_name: "Counter".into(),
        tag: tag(tag_byte),
        kind: InstrumentedCoverageProbeKind::Statement,
        bytes: line * 10..line * 10 + 5,
        lines: line..line + 1,
    }
}

fn file(path: &str, sources: &[(u64, &str, u32)]) -> SourceFile {
    SourceFile {
        path: path.into(),
        in_library: path.starts_with("lib/"),
        is_test: path.ends_with(".t.sol"),
        sources: sources
            .iter()
            .map(|(version, build_id, id)| CompiledSource {
                build_id: build_id.to_string(),
                version: Version::new(0, 8, *version),
                id: *id,
            })
            .collect(),
    }
}

#[test]
fn prepare_preserves_sources_versions_and_probe_order() {
    let files = vec![
        file("src/Counter.sol", &[(20, "older", 4), (21, "newer", 1), (21, "duplicate", 1)]),
        file("src/Empty.sol", &[(21, "newer", 3)]),
        file("src/Other.sol", &[(21, "newer", 2)]),
    ];
    let mut first = probe(21, "src/Counter.sol", 1, 2);
    first.contract_name = "First".into();
    let mut duplicate = first.clone();
    duplicate.contract_name = "Second".into();
    duplicate.tag = tag(2);
    let metadata = InstrumentedCoverageMetadata {
        probes: vec![
            first,
            probe(20, "src/Counter.sol", 3, 4),
            probe(21, "src/Other.sol", 4, 3),
            duplicate,
            probe(22, "src/Counter.sol", 5, 5),
            probe(21, "src/Unknown.sol", 6, 6),
        ],
    };
    let (report, index) = prepare(&files, &metadata, true, false);
    assert_eq!(report.analyses.entries.len(), 2);
    let in_build = |build: &str| report.sources.entries.iter().filter(|entry| entry.build_id == build).count();
    assert_eq!(in_build("newer"), 3);
    assert_eq!(in_build("duplicate"), 0);
    let newer = items_of(&report, "newer");
    assert_eq!(newer.len(), 4);
    assert_eq!(newer[0].loc.contract_name, "First");
    assert_eq!(newer[1].loc.contract_name, "First");
    assert_eq!(newer[2].loc.source_id, 2);
    assert_eq!(items_of(&report, "older")[0].loc.lines, 4..5);
    assert_eq!(index.0.len(), 4);
    assert_eq!(index.get(&tag(1)).unwrap().statement_item_id, Some(1));
    assert_eq!(index.get(&tag(2)).unwrap().statement_item_id, Some(1));
    assert_eq!(index.get(&tag(4)).unwrap().statement_item_id, Some(3));
}

#[test]
fn libraries_tests_and_vyper_are_left_out() {
    let files = vec![
        file("lib/L.sol", &[(21, "b", 1)]),
        file("src/A.sol", &[(21, "b", 2)]),
        file("src/V.vy", &[(21, "b", 3)]),
        file("test/A.t.sol", &[(21, "b", 4)]),
    ];
    assert_eq!(list_sources(&files).len(), 3);
    let metadata = InstrumentedCoverageMetadata {
        probes: vec![probe(21, "lib/L.sol", 1, 1), probe(21, "src/A.sol", 2, 1), probe(21, "test/A.t.sol", 3, 1)],
    };
    for (libs, no_tests, wanted) in [(false, false, 2), (true, false, 3), (false, true, 1), (true, true, 2)] {
        let (report, index) = prepare(&files, &metadata, libs, no_tests);
        assert_eq!(report.sources.entries.len(), 3);
        assert_eq!(index.0.len(), wanted);
        assert_eq!(items_of(&report, "b").len(), 2 * wanted);
    }
}

#[test]
fn items_are_unique_and_sorted() {
    let with = |tag_byte: u8, line: u32, kind: InstrumentedCoverageProbeKind| {
        let mut probe = probe(21, "src/A.sol", tag_byte, line);
        probe.kind = kind;
        probe
    };
    let probes = vec![
        with(1, 5, InstrumentedCoverageProbeKind::RequirePre { branch_id: 1 }),
        with(2, 5, InstrumentedCoverageProbeKind::RequirePost { branch_id: 1 }),
        with(3, 2, InstrumentedCoverageProbeKind::Function { name: "f".into() }),
        with(4, 2, InstrumentedCoverageProbeKind::Branch { branch_id: 0, path_id: 1 }),
        with(5, 2, InstrumentedCoverageProbeKind::Branch { branch_id: 0, path_id: 1 }),
    ];
    let items = build_source_items(7, &probes);
    let shown: Vec<String> = items.iter().map(|item| format!("{} {:?}", item.loc.lines.start, item.kind)).collect();
    assert_eq!(
        shown,
        vec![
            "2 Line",
            "2 Branch { branch_id: 0, path_id: 1, is_first_opcode: true }",
            "2 Function { name: \"f\" }",
            "5 Line",
            "5 Statement",
            "5 Branch { branch_id: 1, path_id: 0, is_first_opcode: false }",
            "5 Branch { branch_id: 1, path_id: 1, is_first_opcode: false }",
        ]
    );
    assert!(items.iter().all(|item| item.loc.source_id == 7 && item.hits == 0));
}

fn index() -> InstrumentedCoverageTagIndex {
    let mut index = InstrumentedCoverageTagIndex::new();
    for (tag_byte, require_branch) in [
        (1, Some(InstrumentedRequireProbeRole::Pre)),
        (2, Some(InstrumentedRequireProbeRole::Post)),
        (3, None),
    ] {
        index.insert(
            tag(tag_byte),
            InstrumentedCoverageItemIds {
                build_id: "build".into(),
                line_item_id: 0,
                statement_item_id: (tag_byte == 3).then_some(1),
                branch_item_id: None,
                require_branch: require_branch.map(|role| InstrumentedRequireBranchIds {
                    role,
                    false_item_id: 2,
                    true_item_id: 3,
                }),
                function_item_id: None,
            },
        );
    }
    index
}

fn resolved(index: &InstrumentedCoverageTagIndex, maps: &[&InstrumentedHitMaps]) -> Vec<(String, usize, u32)> {
    item_hits(index, maps).entries.iter().map(|hit| (hit.build_id.clone(), hit.item_id, hit.hits)).collect()
}

fn report_with_items() -> CoverageReport {
    let mut report = CoverageReport::new();
    report.add_source("build".into(), 0, "src/Counter.sol".into());
    let items = [
        CoverageItemKind::Line,
        CoverageItemKind::Statement,
        CoverageItemKind::Branch { branch_id: 0, path_id: 0, is_first_opcode: false },
        CoverageItemKind::Branch { branch_id: 0, path_id: 1, is_first_opcode: false },
    ]
    .into_iter()
    .map(|kind| CoverageItem {
        kind,
        loc: SourceLocation { source_id: 0, contract_name: "Counter".into(), bytes: 10..15, lines: 2..3 },
        hits: 0,
    })
    .collect();
    report.add_analysis("build".into(), SourceAnalysis { items });
    report
}

#[test]
fn item_hits_resolves_combined_tags_before_lines_and_require_branches() {
    let index = index();
    let setup = hits(&[(1, 2), (2, 1), (3, 4)]);
    let delta = hits(&[(1, 3), (2, 4), (3, 2)]);
    let mut merged = hits(&[(1, 2), (2, 1), (3, 4)]);
    merged.merge_ref(&delta);
    assert_eq!(resolved(&index, &[&setup, &delta]), resolved(&index, &[&merged]));
    assert_eq!(
        resolved(&index, &[&merged]),
        vec![("build".to_string(), 0, 6), ("build".to_string(), 1, 6), ("build".to_string(), 3, 5)]
    );
    let report = report_with_items();
    let result = TestResult {
        status: TestStatus::Success,
        kind: TestKind::Unit,
        line_coverage: None,
        setup_instrumented_coverage: Some(setup),
        instrumented_coverage: Some(delta),
    };
    assert_eq!(AttributionIndex::source_paths(&report).entries.len(), 1);
    let metadata = AttributionIndex::new(&report);
    let attributed = attributed_items(&metadata, &ResolvedHitMaps::new(), Some(&index), &result);
    assert_eq!(
        attributed.iter().map(|item| (item.kind.name(), item.path_id, item.hits)).collect::<Vec<_>>(),
        vec![("branch", Some(1), 5), ("line", None, 6), ("statement", None, 6)]
    );
}

#[test]
fn failed_requirements_and_large_counts() {
    let index = index();
    assert_eq!(
        resolved(&index, &[&hits(&[(1, 5), (2, 2), (9, 1)])]),
        vec![("build".to_string(), 0, 5), ("build".to_string(), 2, 3), ("build".to_string(), 3, 2)]
    );
    assert_eq!(
        resolved(&index, &[&hits(&[(3, u64::MAX)])]),
        vec![("build".to_string(), 0, u32::MAX), ("build".to_string(), 1, u32::MAX)]
    );
    assert!(resolved(&index, &[]).is_empty());
    assert!(resolved(&index, &[&hits(&[(3, 0)])]).is_empty());
}

#[test]
fn hits_are_added_to_items() {
    let index = index();
    let mut report = report_with_items();
    add_hits(&mut report, &index, &hits(&[(1, 5), (2, 2), (3, 1)]));
    add_hits(&mut report, &index, &hits(&[(3, u64::MAX)]));
    let counts: Vec<u32> = items_of(&report, "build").iter().map(|item| item.hits).collect();
    assert_eq!(counts, vec![u32::MAX, u32::MAX, 3, 2]);
}

#[test]
fn sources_are_found_by_the_components_of_their_paths() {
    let compiled = |build_id: &str, id: u32| CompiledSource {
        build_id: build_id.into(),
        version: Version::new(0, 8, 21),
        id,
    };
    let file = |path: &str, build_id: &str, id: u32| SourceFile {
        path: path.into(),
        in_library: false,
        is_test: false,
        sources: vec![compiled(build_id, id)],
    };
    // The second file is the first one again, and the third is it in another build under another id.
    let files = vec![file("src//Counter.sol", "b", 1), file("src/Counter.sol", "b", 1), file("./src/Counter.sol", "c", 2)];
    let metadata = InstrumentedCoverageMetadata {
        probes: vec![probe(21, "src/./Counter.sol", 1, 2), probe(21, "src/Other.sol", 2, 3)],
    };
    let (report, index) = prepare(&files, &metadata, true, false);
    assert_eq!(report.sources.entries.len(), 2);
    assert_eq!(report.get_source_id("b", "src/Counter.sol/"), Some(1));
    assert_eq!(report.get_source_id("c", "src/Counter.sol"), None);
    assert_eq!(report.analyses.entries.len(), 1);
    assert!(index.get(&B256::repeat_byte(1).0).is_some());
    assert!(index.get(&B256::repeat_byte(2).0).is_none());
}
