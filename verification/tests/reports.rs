use alloy_primitives::B256;
use forge_coverage::attribution::{
    attributed_items, test_kind_name, test_status_name, AttributionIndex, CoverageAttributionReporter, NamedResult,
    ResolvedHitMap, ResolvedHitMaps, SuiteResult, TestKind, TestResult, TestStatus,
};
use forge_coverage::bytecode::{list_code, BytecodeReporter, Instruction, LineNumberCache};
use forge_coverage::debug::DebugReporter;
use forge_coverage::files::FileItems;
use forge_coverage::hit_maps::{CallData, HitMap, HitMaps};
use forge_coverage::istanbul::JsonReporter;
use forge_coverage::items::{CoverageItem, CoverageItemKind, SourceLocation};
use forge_coverage::lcov::{parse_lcov_version, LcovReporter};
use forge_coverage::positions::{join_path, line_offsets, position, IstanbulPosition, SourcePositionCache};
use forge_coverage::report::{
    ContractId, CoverageReport, ExecutionAnchor, ExecutionEntry, ExecutionKind, ItemAnchor, SourceAnalysis, SourceElement, SourceMapEntry,
};
use forge_coverage::summary::{format_cell, CellColor, CoverageSummary, CoverageSummaryReporter};
use forge_coverage::version::Version;

fn item(kind: CoverageItemKind, contract: &str, lines: std::ops::Range<u32>, hits: u32) -> CoverageItem {
    CoverageItem {
        kind,
        loc: SourceLocation { source_id: 1, contract_name: contract.into(), bytes: 10..15, lines },
        hits,
    }
}

fn branch(branch_id: u32, path_id: u32) -> CoverageItemKind {
    CoverageItemKind::Branch { branch_id, path_id, is_first_opcode: true }
}

fn function(name: &str) -> CoverageItemKind {
    CoverageItemKind::Function { name: name.into() }
}

fn contract(build_id: &str, source_id: usize, patch: u64) -> ContractId {
    ContractId {
        version: Version::new(0, 8, patch),
        build_id: build_id.into(),
        source_id,
        contract_name: "Counter".into(),
    }
}

fn sample() -> CoverageReport {
    let mut report = CoverageReport::new();
    report.add_source("b".into(), 1, "src/A.sol".into());
    report.add_analysis(
        "b".into(),
        SourceAnalysis {
            items: vec![
                item(CoverageItemKind::Line, "C", 3..6, 2),
                item(function("f"), "C", 3..6, 2),
                item(CoverageItemKind::Line, "C", 4..5, 2),
                item(CoverageItemKind::Statement, "C", 4..5, 3),
                item(branch(0, 0), "C", 4..5, 2),
                item(branch(0, 1), "C", 4..5, 0),
                item(function("free"), "", 8..9, 0),
                item(branch(1, 0), "C", 8..9, 0),
            ],
        },
    );
    report
}

#[test]
fn lcov_report_by_version() {
    let report = sample();
    let tail = "FNF:2\nFNH:1\nLF:2\nLH:2\nBRF:3\nBRH:1\nend_of_record\n";
    let text = |major: u64, minor: u64| {
        LcovReporter::new("lcov.info".into(), Version::new(major, minor, 0)).report(&report)
    };
    assert_eq!(
        text(1, 0),
        format!(
            "TN:\nSF:src/A.sol\nDA:3,2\nFN:3,C.f\nFNDA:2,C.f\nDA:4,2\nBRDA:4,0,0,2\nBRDA:4,0,1,0\nFN:8,free\nFNDA:0,free\nBRDA:8,1,0,-\n{tail}"
        )
    );
    assert_eq!(
        text(2, 0),
        format!(
            "TN:\nSF:src/A.sol\nDA:3,2\nFN:3,5,C.f\nFNDA:2,C.f\nDA:4,2\nBRDA:4,0,0,2\nBRDA:4,0,1,0\nFN:8,8,free\nFNDA:0,free\nBRDA:8,1,0,-\n{tail}"
        )
    );
    assert_eq!(
        text(2, 2),
        format!(
            "TN:\nSF:src/A.sol\nDA:3,2\nFNL:0,3,5\nFNA:0,2,C.f\nDA:4,2\nBRDA:4,0,0,2\nBRDA:4,0,1,0\nFNL:1,8,8\nFNA:1,0,free\nBRDA:8,1,0,-\n{tail}"
        )
    );
}

#[test]
fn lcov_numbers_functions_over_all_files() {
    let file = |path: &str| FileItems { path: path.into(), items: vec![item(function("f"), "", 1..2, 0)] };
    let text = LcovReporter::new("x".into(), Version::new(2, 2, 0)).report_files(&vec![file("a"), file("b")]);
    assert!(text.contains("SF:a\nFNL:0,1,1\n") && text.contains("SF:b\nFNL:1,1,1\n"));
}

#[test]
fn lcov_version() {
    let parse = |text: &str| {
        let version = parse_lcov_version(text).unwrap();
        (version.major, version.minor, version.patch)
    };
    assert_eq!(parse("0"), (0, 0, 0));
    assert_eq!(parse("1"), (1, 0, 0));
    assert_eq!(parse("1.0"), (1, 0, 0));
    assert_eq!(parse("1.1"), (1, 1, 0));
    assert_eq!(parse("1.11"), (1, 11, 0));
    for text in ["", ".", "1.", ".1", "01", "1.01", "a", "1.0.a", "18446744073709551616"] {
        assert!(parse_lcov_version(text).is_none());
    }
    assert_eq!(parse("18446744073709551615"), (u64::MAX, 0, 0));
}

#[test]
fn empty_summary_cell_is_not_applicable() {
    let cell = format_cell(0, 0);
    assert_eq!(cell.text, "N/A (0/0)");
    assert_eq!(cell.color, CellColor::Grey);
    assert!(cell.dim);
}

#[test]
fn summary_cells_and_rows() {
    for (hits, color) in [(0, CellColor::Red), (1, CellColor::Red), (2, CellColor::Yellow), (3, CellColor::Green)] {
        let cell = format_cell(hits, 4);
        assert_eq!((cell.color, cell.dim, cell.text), (color, false, format!("({hits}/4)")));
    }
    let mut reporter = CoverageSummaryReporter::new();
    assert_eq!(reporter.header, ["File", "% Lines", "% Statements", "% Branches", "% Funcs"]);
    assert_eq!((reporter.rows.len(), reporter.total), (0, CoverageSummary::new()));
    reporter.report(&sample());
    let rows = &reporter.rows;
    assert_eq!(rows.len(), 2);
    assert_eq!((rows[0].name.as_str(), rows[1].name.as_str()), ("src/A.sol", "Total"));
    assert_eq!(rows[0].summary, rows[1].summary);
    assert_eq!(
        rows[0].summary,
        CoverageSummary {
            line_count: 2,
            line_hits: 2,
            statement_count: 1,
            statement_hits: 1,
            branch_count: 3,
            branch_hits: 1,
            function_count: 2,
            function_hits: 1,
        }
    );
    // A second report adds to the rows and to the total.
    reporter.report(&sample());
    assert_eq!(reporter.rows.len(), 4);
    assert_eq!(reporter.rows[2].summary, reporter.rows[0].summary);
    assert_eq!((reporter.rows[3].summary.line_count, reporter.total.branch_count), (4, 6));
}

#[test]
fn files_are_ordered_by_component() {
    let mut report = CoverageReport::new();
    let mut items = Vec::new();
    for (id, path) in ["src/b.sol", "src/a/z.sol", "src/a.sol", "src/a/b.sol"].into_iter().enumerate() {
        report.add_source("b".into(), id, path.into());
        let mut line = item(CoverageItemKind::Line, "C", 1..2, 0);
        line.loc.source_id = id;
        items.push(line);
    }
    items.push(item(CoverageItemKind::Line, "C", 1..2, 0));
    items.last_mut().unwrap().loc.source_id = 9;
    report.add_analysis("b".into(), SourceAnalysis { items });
    let files = report.items_by_file();
    let paths: Vec<&str> = files.entries.iter().map(|file| file.path.as_str()).collect();
    assert_eq!(paths, vec!["src/a/b.sol", "src/a/z.sol", "src/a.sol", "src/b.sol"]);
}

#[test]
fn positions_of_offsets() {
    let offsets = line_offsets("ab\ncd\n");
    assert_eq!(offsets, vec![0, 3, 6]);
    let at = |offset: u32| position(&offsets, offset, 7);
    assert_eq!(at(0), IstanbulPosition { line: 1, column: 0 });
    assert_eq!(at(2), IstanbulPosition { line: 1, column: 2 });
    assert_eq!(at(3), IstanbulPosition { line: 2, column: 0 });
    assert_eq!(at(9), IstanbulPosition { line: 3, column: 3 });
    assert_eq!(position(&vec![], 4, 7), IstanbulPosition { line: 7, column: 0 });
    assert_eq!(position(&vec![], 4, 0), IstanbulPosition { line: 1, column: 0 });
    assert_eq!(join_path("/p", "src/A.sol"), "/p/src/A.sol");
    assert_eq!(join_path("/p/", "src/A.sol"), "/p/src/A.sol");
    assert_eq!(join_path("/p", "/q/A.sol"), "/q/A.sol");
}

#[test]
fn istanbul_report() {
    let mut report = sample();
    report.add_source("c".into(), 1, "src/Lines.sol".into());
    report.add_analysis("c".into(), SourceAnalysis { items: vec![item(CoverageItemKind::Line, "C", 3..6, 2)] });
    let reporter = JsonReporter::new("/p".into(), "coverage-final.json".into());
    let mut cache = SourcePositionCache::new("/p".into());
    assert_eq!(reporter.report(&report, &cache).err(), Some("src/A.sol".to_string()));
    cache.add_text("src/A.sol".into(), "01234567\n01234567\n");
    let coverage = reporter.report(&report, &cache).unwrap();
    assert_eq!(coverage.len(), 2);
    let file = &coverage[0];
    assert_eq!(file.path, "src/A.sol");
    assert_eq!(file.statements, vec![3]);
    assert_eq!(file.statement_map[0].start, IstanbulPosition { line: 2, column: 1 });
    assert_eq!(file.statement_map[0].end, IstanbulPosition { line: 2, column: 6 });
    assert_eq!(file.functions, vec![2, 0]);
    assert_eq!((file.function_map[0].name.as_str(), file.function_map[0].line), ("f", 3));
    assert_eq!(file.branches, vec![vec![2, 0], vec![0]]);
    assert_eq!(file.branch_map[0].locations.len(), 2);
    assert_eq!(coverage[1].path, "src/Lines.sol");
    assert!(coverage[1].statements.is_empty() && coverage[1].branches.is_empty());
}

#[test]
fn istanbul_branches_are_sorted_by_number_and_path() {
    let file = FileItems {
        path: "a".into(),
        items: vec![
            item(branch(2, 1), "C", 1..2, 21),
            item(branch(1, 1), "C", 1..2, 11),
            item(branch(2, 0), "C", 1..2, 20),
            item(branch(1, 0), "C", 1..2, 10),
        ],
    };
    let coverage = forge_coverage::istanbul::file_coverage(&file, &vec![0]);
    assert_eq!(coverage.branches, vec![vec![10, 11], vec![20, 21]]);
}

#[test]
fn attribution_merges_builds_preserving_metadata_order_and_saturation() {
    let mut report = CoverageReport::new();
    let mut resolved = ResolvedHitMaps::new();
    let mut hit_maps = HitMaps::new();
    for (build_id, source_id, tag, count) in [("older", 4, 1, u32::MAX), ("newer", 1, 2, 3)] {
        report.add_source(build_id.into(), source_id, "src/Counter.sol".into());
        let kinds = [
            CoverageItemKind::Statement,
            function("z()"),
            CoverageItemKind::Branch { branch_id: 7, path_id: 1, is_first_opcode: true },
            CoverageItemKind::Branch { branch_id: 7, path_id: 0, is_first_opcode: false },
            function("a()"),
        ];
        let items = kinds
            .into_iter()
            .map(|kind| CoverageItem {
                kind,
                loc: SourceLocation { source_id, contract_name: "Counter".into(), bytes: 10..15, lines: 2..3 },
                hits: 0,
            })
            .collect();
        report.add_analysis(build_id.into(), SourceAnalysis { items });
        let contract_id = contract(build_id, source_id, 20 + tag);
        report.add_anchors(
            contract_id.clone(),
            (0..5).map(|item_id| ItemAnchor { instruction: item_id as u32, item_id }).collect(),
            Vec::new(),
        );
        let mut hits = HitMap::new(Vec::new());
        for instruction in 0..5 {
            hits.hits(instruction, count);
        }
        let hash = B256::repeat_byte(tag as u8).0;
        hit_maps.insert(hash, hits);
        resolved.insert(hash, ResolvedHitMap { contract_id, is_deployed_code: false });
    }
    let metadata = AttributionIndex::new(&report);
    assert_eq!(AttributionIndex::source_paths(&report).entries.len(), 1);
    assert_eq!(metadata.items.entries.len(), 5);
    let result = TestResult {
        status: TestStatus::Success,
        kind: TestKind::Unit,
        line_coverage: Some(hit_maps),
        setup_instrumented_coverage: None,
        instrumented_coverage: None,
    };
    let attributed = attributed_items(&metadata, &resolved, None, &result);
    let shown: Vec<_> = attributed
        .iter()
        .map(|item| (item.kind.name(), item.function, item.branch_id, item.path_id, item.hits))
        .collect();
    assert_eq!(
        shown,
        vec![
            ("branch", None, Some(7), Some(0), u32::MAX),
            ("branch", None, Some(7), Some(1), u32::MAX),
            ("function", Some("a()"), None, None, u32::MAX),
            ("function", Some("z()"), None, None, u32::MAX),
            ("statement", None, None, None, u32::MAX),
        ]
    );
    for item in &attributed {
        assert_eq!((item.source, item.contract), ("src/Counter.sol", "Counter"));
        assert_eq!((item.line_start, item.line_end, item.byte_start, item.byte_end), (2, 3, 10, 15));
        let candidates = || report.analyses.entries.iter().flat_map(|entry| entry.analysis.items.iter());
        assert!(
            candidates().any(|candidate| {
                format!("{:p}", candidate.loc.contract_name.as_str()) == format!("{:p}", item.contract)
            }),
            "attribution must borrow canonical contract metadata"
        );
        if let Some(function) = &item.function {
            assert!(
                candidates().any(|candidate| {
                    matches!(&candidate.kind, CoverageItemKind::Function { name }
                        if format!("{:p}", name.as_str()) == format!("{:p}", *function))
                }),
                "attribution must borrow canonical function metadata"
            );
        }
    }
}

#[test]
fn attribution_lists_all_tests() {
    let report = sample();
    let named = |name: &str, status: TestStatus, kind: TestKind| NamedResult {
        name: name.into(),
        result: TestResult {
            status,
            kind,
            line_coverage: None,
            setup_instrumented_coverage: None,
            instrumented_coverage: None,
        },
    };
    let outcome = vec![
        SuiteResult { name: "empty".into(), test_results: vec![] },
        SuiteResult {
            name: "suite".into(),
            test_results: vec![
                named("a", TestStatus::Success, TestKind::Fuzz),
                named("b", TestStatus::Skipped, TestKind::Symbolic),
            ],
        },
    ];
    let reporter = CoverageAttributionReporter::new("coverage-attribution.json".into());
    let tests = reporter.report(&report, &outcome, &ResolvedHitMaps::new(), None);
    let shown: Vec<_> = tests
        .iter()
        .map(|test| (test.suite, test.test, test_status_name(test.status), test_kind_name(&test.kind), test.covered.len()))
        .collect();
    assert_eq!(shown, vec![("suite", "a", "success", "fuzz", 0), ("suite", "b", "skipped", "symbolic", 0)]);
    assert_eq!(test_status_name(TestStatus::Failure), "failure");
    assert_eq!(
        [TestKind::Unit, TestKind::Invariant, TestKind::Table, TestKind::Replay].map(|kind| test_kind_name(&kind)),
        ["unit", "invariant", "table", "replay"]
    );
}

#[test]
fn bytecode_listing() {
    let mut report = sample();
    let id = contract("b", 1, 20);
    let mut map = HitMap::new(vec![0x60, 0x2a, 0x50, 0x00, 0x00]);
    map.hits(0, 7);
    map.hits(2, 1234);
    report.add_hit_map(&id, &map, true);
    let element = |offset: u32, length: u32, index: Option<u32>| SourceElement { offset, length, index };
    report.add_source_map(SourceMapEntry {
        contract_id: id,
        creation: vec![],
        runtime: vec![element(0, 4, Some(1)), element(5, 1, Some(8)), element(0, 0, None)],
    });
    let reporter = BytecodeReporter::new("/p".into(), "/p/bytecode-coverage".into());
    let mut cache = LineNumberCache::new("/p".into());
    assert_eq!(reporter.report(&report, &cache).err(), Some(0));
    cache.add_text("src/A.sol".into(), "ab\ncd\n");
    let listings = reporter.report(&report, &cache).unwrap();
    assert_eq!(listings.len(), 1);
    assert_eq!(listings[0].contract_name, "Counter");
    let ops = evm_disassembler::disassemble_bytes(vec![0x60, 0x2a, 0x50, 0x00]).unwrap();
    let expected = format!(
        "[007] {:40} // src/A.sol: 1:1-2:2 (0-4)\n[1234] {:40} // SRCID8: (5-6)\n      {:40}\n",
        format!("{:?}", ops[0]),
        format!("{:?}", ops[1]),
        format!("{:?}", ops[2]),
    );
    assert_eq!(listings[0].text, expected);
}

#[test]
fn listing_of_given_instructions() {
    let report = CoverageReport::new();
    let mut map = HitMap::new(vec![]);
    map.hits(2, 1);
    let ops = vec![Instruction { offset: 2, text: "X".into() }, Instruction { offset: 3, text: "Y".into() }];
    let elements = vec![SourceElement { offset: 0, length: 0, index: None }];
    let text = list_code(&report, &LineNumberCache::new("".into()), "b", &map, &ops, &elements).unwrap();
    assert_eq!(text, format!("[001] X{}\n", " ".repeat(39)));
}

#[test]
fn line_numbers() {
    let mut cache = LineNumberCache::new("/p".into());
    cache.add_text("a".into(), "ab\n\ncd\n");
    cache.add_text("empty".into(), "");
    assert_eq!(cache.get_position("a", 1), Some((1, 2)));
    assert_eq!(cache.get_position("a", 3), Some((2, 1)));
    assert_eq!(cache.get_position("a", 4), Some((3, 1)));
    assert_eq!(cache.get_position("a", 7), Some((3, 4)));
    assert_eq!(cache.get_position("empty", 2), Some((0, 3)));
    assert_eq!(cache.get_position("missing", 0), None);
}

#[test]
fn hit_maps_count_for_anchored_items() {
    let mut report = sample();
    let id = contract("b", 1, 20);
    let anchor = |instruction: u32, item_id: usize| ItemAnchor { instruction, item_id };
    report.add_anchors(id.clone(), vec![anchor(1, 0)], vec![anchor(1, 3), anchor(2, 3), anchor(3, 99)]);
    let mut map = HitMap::new(vec![]);
    map.hits(1, 5);
    map.hits(2, 6);
    map.hits(3, 7);
    report.add_hit_map(&id, &map, true);
    let items = &report.analyses.entries[0].analysis.items;
    assert_eq!((items[0].hits, items[3].hits), (2, 14));
    let hits = report.hit_items_for_hit_map(&id, &map, false);
    assert_eq!(hits.iter().map(|hit| (hit.item_id, hit.hits)).collect::<Vec<_>>(), vec![(0, 5)]);
    let shown = DebugReporter.anchors(&report, &report.anchors.entries[0]);
    assert_eq!(shown.iter().map(|anchor| anchor.is_runtime).collect::<Vec<_>>(), vec![false, true, true]);
    assert_eq!((DebugReporter::place_name(true), DebugReporter::place_name(false)), (" runtime", "creation"));
}

/// The hits of a constructor, a receive function and a fallback function without instructions of their own.
fn special_hits(
    selectors: Vec<[u8; 4]>,
    has_receive: bool,
    fallback_payable: bool,
    calls: &[(&[u8], bool)],
) -> (u32, u32, u32) {
    let mut report = CoverageReport::new();
    report.add_source("b".into(), 1, "src/A.sol".into());
    let names = ["constructor", "receive", "fallback"];
    let items = names.iter().map(|name| item(function(name), "C", 5..6, 0)).collect();
    report.add_analysis("b".into(), SourceAnalysis { items });
    let kinds = [ExecutionKind::Creation, ExecutionKind::Receive, ExecutionKind::Fallback];
    let id = contract("b", 1, 20);
    report.add_execution_anchors(ExecutionEntry {
        contract_id: id.clone(),
        anchors: kinds.into_iter().enumerate().map(|(item_id, kind)| ExecutionAnchor { kind, item_id }).collect(),
        function_selectors: selectors,
        has_receive,
        fallback_payable,
    });
    let mut creation = HitMap::new(vec![]);
    creation.creation();
    report.add_hit_map(&id, &creation, false);
    let mut runtime = HitMap::new(vec![]);
    for (input, with_value) in calls {
        runtime.call(CallData::new(input), *with_value);
    }
    report.add_hit_map(&id, &runtime, true);
    let items = &report.analyses.entries[0].analysis.items;
    (items[0].hits, items[1].hits, items[2].hits)
}

#[test]
fn empty_functions() {
    let increment = [0xd0, 0x9d, 0xe0, 0x8a];
    let calls: [(&[u8], bool); 3] = [(&increment, false), (&[], true), (&[0xde, 0xad, 0xbe, 0xef], false)];
    assert_eq!(special_hits(vec![increment], true, false, &calls), (1, 1, 1));
}

#[test]
fn empty_special_functions_are_distinct() {
    assert_eq!(special_hits(vec![[1, 2, 3, 4]], true, false, &[(&[], true)]), (1, 1, 0));
}

#[test]
fn empty_fallback_without_receive() {
    let calls: [(&[u8], bool); 3] = [(&[], true), (&[1], false), (&[0xde, 0xad, 0xbe, 0xef], false)];
    assert_eq!(special_hits(vec![], false, true, &calls), (1, 0, 3));
}

#[test]
fn empty_nonpayable_fallback_rejects_value() {
    assert_eq!(special_hits(vec![], false, false, &[(&[0xde, 0xad, 0xbe, 0xef], true)]), (1, 0, 0));
}

#[test]
fn builds_that_write_a_path_differently_share_its_file() {
    let mut report = CoverageReport::new();
    for (build, path) in [("a", "src//A.sol"), ("b", "src/A.sol")] {
        report.add_source(build.into(), 1, path.into());
        report.add_analysis(build.into(), SourceAnalysis { items: vec![item(function("f"), "C", 1..2, 3)] });
    }
    let files = report.items_by_file();
    assert_eq!(files.entries.len(), 1);
    assert_eq!((files.entries[0].path.as_str(), files.entries[0].items.len()), ("src//A.sol", 2));
    let index = AttributionIndex::new(&report);
    assert_eq!(AttributionIndex::source_paths(&report).entries.len(), 1);
    assert_eq!(index.items.entries.len(), 1);
    assert_eq!(index.items.entries[0].source, "src//A.sol");
    let items = &report.analyses.entries[1].analysis.items;
    assert_eq!(index.item_id("b", &items[0]), Some(0));
    let mut cache = SourcePositionCache::new("/p".into());
    cache.add_text("src/A.sol".into(), "x");
    assert!(cache.find("src//A.sol").is_some());
}
