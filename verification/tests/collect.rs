use alloy_primitives::B256;
use forge_coverage::args::{
    BuildPlan, BuildWarning, CoverageArgs, CoverageConfig, CoverageReportKind, CoverageReporter, Reporter, RunError, TestFile,
};
use forge_coverage::artifacts::{
    add_build, add_source_maps, artifacts_of_build, ic_pc_map, register_sources, AbiInfo, ArtifactData, ArtifactId,
    ArtifactParts, BuildAnalysis,
};
use forge_coverage::attribution::{NamedResult, SuiteResult, TestKind, TestResult, TestStatus};
use forge_coverage::collect::{aggregate_hits, KnownCode, Prepared};
use forge_coverage::filters::SkipError;
use forge_coverage::hit_maps::HitMaps;
use forge_coverage::instrumented::{
    CompiledSource, InstrumentedCoverageItemIds, InstrumentedCoverageTagIndex, SourceFile,
};
use forge_coverage::items::{CoverageItem, CoverageItemKind, SourceLocation};
use forge_coverage::probes::InstrumentedCoverageMetadata;
use forge_coverage::report::{AnchorEntry, ContractId, CoverageReport, ItemAnchor, SourceAnalysis, SourceElement};
use forge_coverage::tag_table::TagTable;
use forge_coverage::tags::InstrumentedHitMaps;
use forge_coverage::version::Version;

fn args() -> CoverageArgs {
    CoverageArgs {
        report: vec![],
        lcov_version_cli: None,
        lcov_version: Version::new(1, 0, 0),
        ir_minimum: false,
        instrumented: false,
        report_file: None,
        include_libs: false,
        exclude_tests: false,
        reporters: vec![],
        skip_files: vec![],
        watch: false,
    }
}

fn config() -> CoverageConfig {
    CoverageConfig {
        report: vec![CoverageReportKind::Summary],
        lcov_version: Version::new(2, 2, 0),
        ir_minimum: false,
        report_file: None,
        include_libs: false,
        exclude_tests: false,
        skip_files: vec![],
    }
}

fn resolved_version(cli: Option<&str>) -> (u64, u64, u64) {
    let mut args = args();
    args.lcov_version_cli = cli.map(|text| forge_coverage::lcov::parse_lcov_version(text).unwrap());
    args.resolve_with(&config());
    (args.lcov_version.major, args.lcov_version.minor, args.lcov_version.patch)
}

#[test]
fn resolve_lcov_version_uses_config_when_cli_absent() {
    assert_eq!(resolved_version(None), (2, 2, 0));
}

#[test]
fn resolve_lcov_version_keeps_explicit_cli_default() {
    assert_eq!(resolved_version(Some("1")), (1, 0, 0));
}

#[test]
fn resolve_lcov_version_keeps_explicit_cli_value() {
    assert_eq!(resolved_version(Some("2")), (2, 0, 0));
}

#[test]
fn arguments_win_over_settings() {
    let mut settings = config();
    settings.include_libs = true;
    settings.report_file = Some("settings.info".into());
    settings.skip_files = vec!["src/*".into()];
    let mut args = args();
    args.exclude_tests = true;
    args.resolve_with(&settings);
    assert_eq!(args.report, vec![CoverageReportKind::Summary]);
    assert!(args.include_libs && args.exclude_tests && !args.ir_minimum && !args.is_watch());
    assert_eq!(args.report_file.as_deref(), Some("settings.info"));
    assert_eq!(args.skip_files, vec!["src/*".to_string()]);
    args.report_file = Some("mine.info".into());
    args.report = vec![CoverageReportKind::Lcov];
    args.resolve_with(&settings);
    assert_eq!(args.report_file.as_deref(), Some("mine.info"));
    assert_eq!(args.report, vec![CoverageReportKind::Lcov]);
}

#[test]
fn there_is_always_a_report() {
    let mut settings = config();
    settings.report = vec![];
    settings.skip_files = vec!["src/*".into()];
    let mut args = args();
    for _ in 0..2 {
        args.resolve_with(&settings);
        assert_eq!(args.report, vec![CoverageReportKind::Summary]);
        assert_eq!(args.skip_files, vec!["src/*".to_string()]);
    }
}

#[test]
fn one_file_report_goes_to_the_file_that_was_asked_for() {
    let mut args = args();
    args.report_file = Some("out.info".into());
    args.report = vec![CoverageReportKind::Lcov, CoverageReportKind::Lcov, CoverageReportKind::Summary];
    assert_eq!(args.file_report_count(), 1);
    assert_eq!(args.report_path("/p", "lcov.info"), "/p/out.info");
    assert_eq!(args.check(), Ok(false));
    args.report.push(CoverageReportKind::Attribution);
    assert_eq!(args.file_report_count(), 2);
    assert_eq!(args.report_path("/p", "lcov.info"), "/p/lcov.info");
    assert_eq!(args.check(), Ok(true));
    args.report.push(CoverageReportKind::Json);
    assert_eq!(args.file_report_count(), 3);
    args.report.push(CoverageReportKind::Bytecode);
    args.instrumented = true;
    assert_eq!(args.check(), Err(RunError::InstrumentedBytecode));
}

#[test]
fn reporters_follow_the_kinds() {
    let mut args = args();
    args.report = vec![
        CoverageReportKind::Attribution,
        CoverageReportKind::Summary,
        CoverageReportKind::Lcov,
        CoverageReportKind::Json,
        CoverageReportKind::Debug,
    ];
    args.populate_reporters("/p");
    let names: Vec<&str> = args.reporters.iter().map(|reporter| reporter.name()).collect();
    assert_eq!(names, vec!["summary", "lcov", "json", "debug"]);
    assert!(!args.needs_source_maps());
    match (&args.reporters[1], &args.reporters[2]) {
        (Reporter::Lcov(lcov), Reporter::Json(json)) => {
            assert_eq!(lcov.path, "/p/lcov.info");
            assert_eq!((json.root.as_str(), json.path.as_str()), ("/p", "/p/coverage-final.json"));
        }
        _ => unreachable!(),
    }
    args.report = vec![CoverageReportKind::Bytecode];
    args.populate_reporters("/p");
    assert!(args.needs_source_maps());
    assert!(matches!(&args.reporters[0], Reporter::Bytecode(r) if r.destdir == "/p/bytecode-coverage"));
}

#[test]
fn build_plans() {
    let plan = |instrumented: bool, ir_minimum: bool| {
        let mut args = args();
        args.instrumented = instrumented;
        args.ir_minimum = ir_minimum;
        args.build_plan()
    };
    let warned = |warning, via_ir| BuildPlan { warning: Some(warning), disable_optimizations: Some(via_ir) };
    assert_eq!(plan(true, false), BuildPlan { warning: None, disable_optimizations: None });
    assert_eq!(plan(true, true), warned(BuildWarning::InstrumentedIrMinimum, true));
    assert_eq!(plan(false, true), warned(BuildWarning::IrMinimum, true));
    assert_eq!(plan(false, false), warned(BuildWarning::OptimizationDisabled, false));
}

#[test]
fn path_filters_keep_sources_scripts_and_fixtures() {
    let test = |path: &str, is_sol_test: bool, matches: bool| TestFile { path: path.into(), is_sol_test, matches };
    let tests = vec![test("test/A.t.sol", true, false), test("test/B.t.sol", true, true), test("test/F.sol", false, false)];
    let src = vec!["src/A.sol".to_string(), "src/A.sol".to_string()];
    let script = vec!["script/S.sol".to_string()];
    assert!(CoverageArgs::filtered_sources(false, &src, &tests, &script).is_none());
    let files = CoverageArgs::filtered_sources(true, &src, &tests, &script).unwrap();
    let paths: Vec<&str> = files.entries.iter().map(|file| file.path.as_str()).collect();
    assert_eq!(paths, vec!["script/S.sol", "src/A.sol", "test/B.t.sol", "test/F.sol"]);
}

fn line_item(source_id: usize) -> CoverageItem {
    CoverageItem {
        kind: CoverageItemKind::Line,
        loc: SourceLocation { source_id, contract_name: "C".into(), bytes: 0..1, lines: 1..2 },
        hits: 0,
    }
}

fn result(line: Option<HitMaps>, instrumented: Option<InstrumentedHitMaps>) -> TestResult {
    TestResult {
        status: TestStatus::Success,
        kind: TestKind::Unit,
        line_coverage: line,
        setup_instrumented_coverage: None,
        instrumented_coverage: instrumented,
    }
}

fn suites(results: Vec<TestResult>) -> Vec<SuiteResult> {
    let named = results.into_iter().map(|result| NamedResult { name: "t".into(), result }).collect();
    vec![SuiteResult { name: "s".into(), test_results: named }]
}

fn artifact(source: &str) -> ArtifactId {
    ArtifactId { version: Version::new(0, 8, 20), build_id: "b".into(), source: source.into(), name: "C".into() }
}

#[test]
fn line_coverage_is_resolved_once_and_added() {
    let mut report = CoverageReport::new();
    report.add_source("b".into(), 1, "src/A.sol".into());
    report.add_analysis("b".into(), SourceAnalysis { items: vec![line_item(1), line_item(1)] });
    let id = ContractId { version: Version::new(0, 8, 20), build_id: "b".into(), source_id: 1, contract_name: "C".into() };
    report.add_anchors(
        id,
        vec![ItemAnchor { instruction: 0, item_id: 0 }],
        vec![ItemAnchor { instruction: 0, item_id: 1 }],
    );
    let mut known: TagTable<KnownCode> = TagTable::new();
    known.insert([1; 32], KnownCode { deployed: Some(artifact("src/A.sol")), creation: Some(artifact("src/A.sol")) });
    known.insert([2; 32], KnownCode { deployed: None, creation: Some(artifact("src/A.sol")) });
    known.insert([3; 32], KnownCode { deployed: Some(artifact("src/Gone.sol")), creation: None });
    let maps = || {
        let mut maps = HitMaps::new();
        for byte in [1u8, 2, 3, 4] {
            let slot = maps.find_or_insert(&[byte; 32], &[byte]);
            maps.hit(slot, 0);
        }
        Some(maps)
    };
    let outcome = suites(vec![result(maps(), None), result(None, None), result(maps(), None)]);
    let resolved = CoverageArgs::collect(&mut report, None, &outcome, &known);
    let items = &report.analyses.entries[0].analysis.items;
    assert_eq!((items[0].hits, items[1].hits), (2, 2));
    assert!(resolved.get(&[1; 32]).unwrap().is_deployed_code);
    assert!(!resolved.get(&[2; 32]).unwrap().is_deployed_code);
    assert!(resolved.get(&[3; 32]).is_none() && resolved.get(&[4; 32]).is_none());
    assert_eq!(report.bytecode_hits.entries.len(), 1);
}

#[test]
fn instrumented_coverage_is_summed_over_tests() {
    let hits = |count: u64| {
        Some(InstrumentedHitMaps([(B256::repeat_byte(1), count)].into_iter().collect()))
    };
    let outcome = suites(vec![result(None, hits(2)), result(None, None), result(None, hits(5))]);
    assert_eq!(aggregate_hits(&outcome).get(&[1; 32]), Some(7));
    // The hits of a setup count for each test that it was made for.
    let mut with_setup = suites(vec![result(None, hits(2)), result(None, None)]);
    for test in &mut with_setup[0].test_results {
        test.result.setup_instrumented_coverage = hits(10);
    }
    assert_eq!(aggregate_hits(&with_setup).get(&[1; 32]), Some(22));
    let mut index = InstrumentedCoverageTagIndex::new();
    index.insert(
        [1; 32],
        InstrumentedCoverageItemIds {
            build_id: "b".into(),
            line_item_id: 1,
            statement_item_id: None,
            branch_item_id: None,
            require_branch: None,
            function_item_id: None,
        },
    );
    let mut report = CoverageReport::new();
    report.add_analysis("b".into(), SourceAnalysis { items: vec![line_item(1), line_item(1)] });
    CoverageArgs::collect(&mut report, Some(&index), &outcome, &TagTable::new());
    assert_eq!(report.analyses.entries[0].analysis.items[1].hits, 7);
}

fn paths_left(patterns: &[&str], regex: Option<&str>) -> Result<Vec<String>, SkipError> {
    let mut report = CoverageReport::new();
    for (id, path) in ["/p/src/A.sol", "/p/src/mocks/M.sol", "/p/test/T.sol"].into_iter().enumerate() {
        report.add_source("b".into(), id, path.into());
    }
    if let Some(regex) = regex {
        report.leave_out_matching(&regex::Regex::new(regex).unwrap(), "/p");
    }
    let patterns: Vec<String> = patterns.iter().map(|pattern| pattern.to_string()).collect();
    report.leave_out_skipped(&patterns, "/p")?;
    Ok(report.sources.entries.iter().map(|entry| entry.path.clone()).collect())
}

#[test]
fn sources_are_left_out_of_the_report() {
    assert_eq!(paths_left(&[], None).unwrap().len(), 3);
    assert_eq!(paths_left(&["src/mocks/**"], None).unwrap(), vec!["/p/src/A.sol", "/p/test/T.sol"]);
    assert_eq!(paths_left(&["src/mocks/**", "test/*"], None).unwrap(), vec!["/p/src/A.sol"]);
    assert_eq!(paths_left(&["test/*"], Some("^src/A")).unwrap(), vec!["/p/src/mocks/M.sol"]);
    assert_eq!(paths_left(&["src/*", "a[", "b["], None), Err(SkipError::Pattern(1)));
    assert_eq!(paths_left(&["src/\\m*/M.sol", "test/*"], None).unwrap().last().unwrap(), "/p/src/A.sol");
}

#[test]
fn a_set_decides_whether_sources_can_be_left_out() {
    let report = || {
        let mut report = CoverageReport::new();
        report.add_source("b".into(), 0, "/p//src/A.sol".into());
        report.add_source("b".into(), 1, "/p/src/B.sol".into());
        report
    };
    let mut left = report();
    assert_eq!(left.leave_out_of_set(None, "/p"), Err(SkipError::TooLarge));
    assert_eq!(left.sources.entries.len(), 2);
    let mut builder = globset::GlobSetBuilder::new();
    builder.add(globset::Glob::new("src/A.*").unwrap());
    assert_eq!(left.leave_out_of_set(Some(builder.build().unwrap()), "/p"), Ok(()));
    assert_eq!(left.sources.entries.len(), 1);
    assert_eq!(left.sources.entries[0].path, "/p/src/B.sol");

    let mut args = args();
    args.skip_files = vec!["src/B.sol".into()];
    let mut none = report();
    let excluded = regex::Regex::new("^src/A").unwrap();
    assert_eq!(args.filter_report(&mut none, Some(&excluded), "/p"), Ok(()));
    assert_eq!(none.sources.entries.len(), 0);
    args.skip_files = vec!["[".into()];
    assert_eq!(args.filter_report(&mut report(), None, "/p"), Err(SkipError::Pattern(0)));
}

#[test]
fn items_of_left_out_sources_are_not_reported() {
    let mut report = CoverageReport::new();
    report.add_source("b".into(), 1, "src/A.sol".into());
    report.add_source("b".into(), 2, "src/B.sol".into());
    report.add_analysis("b".into(), SourceAnalysis { items: vec![line_item(1), line_item(2)] });
    report.retain_sources(&vec![false, true]);
    let files = report.items_by_file();
    assert_eq!(files.entries.len(), 1);
    assert_eq!(files.entries[0].path, "src/B.sol");
    assert_eq!(report.analyses.entries[0].analysis.items.len(), 2);
}

fn source_file(path: &str, in_library: bool, ids: &[u32]) -> SourceFile {
    SourceFile {
        path: path.into(),
        in_library,
        is_test: false,
        sources: ids
            .iter()
            .map(|id| CompiledSource { build_id: "b".into(), version: Version::new(0, 8, 20), id: *id })
            .collect(),
    }
}

#[test]
fn sources_are_registered_and_selected_for_analysis() {
    let files = vec![
        source_file("lib/L.sol", true, &[1]),
        source_file("src/A.sol", false, &[2, 3]),
        source_file("src/V.vyi", false, &[4]),
    ];
    let (report, analysed) = register_sources(&files, false, false, "/p");
    assert_eq!(report.sources.entries.len(), 3);
    assert_eq!(report.get_source_id("b", "src/A.sol"), Some(3));
    assert_eq!(report.get_source_path("b", 2).map(|path| path.as_str()), Some("src/A.sol"));
    assert!(report.source_maps.entries.is_empty() && report.anchors.entries.is_empty());
    assert!(report.executions.entries.is_empty() && report.bytecode_hits.entries.is_empty());
    let paths: Vec<&str> = analysed.entries.iter().map(|source| source.path.as_str()).collect();
    assert_eq!(paths, vec!["/p/src/A.sol", "/p/src/A.sol"]);
    assert!(matches!(args().prepare(&files, None, "/p"), Prepared::Sources(..)));
    let none = InstrumentedCoverageMetadata::new();
    assert!(matches!(args().prepare(&files, Some(&none), "/p"), Prepared::Instrumented(..)));
}

#[test]
fn artifacts_need_all_of_their_code() {
    let element = SourceElement { offset: 0, length: 1, index: Some(1) };
    let parts = |deployed: Option<Vec<u8>>| ArtifactParts {
        abi: Some(AbiInfo { function_selectors: vec![[1, 2, 3, 4]], has_receive: true, fallback_payable: false }),
        source_map: Some(vec![element]),
        bytecode: Some(vec![0x60, 0x01, 0x00, 0x61, 0x01]),
        deployed_source_map: Some(vec![]),
        deployed_bytecode: deployed,
    };
    assert!(ArtifactData::new(&artifact("src/A.sol"), 1, parts(None)).is_none());
    let data = ArtifactData::new(&artifact("src/A.sol"), 1, parts(Some(vec![0x00]))).unwrap();
    assert_eq!(data.creation.ic_pc_map, vec![0, 2, 3]);
    assert_eq!(data.deployed.ic_pc_map, vec![0]);
    assert_eq!(data.function_selectors, vec![[1, 2, 3, 4]]);
    assert!(data.has_receive && !data.fallback_payable);
    assert_eq!(ic_pc_map(&vec![]), Vec::<usize>::new());
    assert_eq!(artifacts_of_build(&vec![data], &"b".to_string()), vec![0]);

    let data = ArtifactData::new(&artifact("src/A.sol"), 1, parts(Some(vec![0x00]))).unwrap();
    let mut report = CoverageReport::new();
    let entry = AnchorEntry {
        contract_id: data.contract_id.clone(),
        creation: vec![ItemAnchor { instruction: 0, item_id: 0 }],
        runtime: vec![],
    };
    let analysis = SourceAnalysis { items: vec![line_item(1)] };
    add_build(&mut report, BuildAnalysis { build_id: "b".into(), analysis, anchors: vec![entry], executions: vec![] });
    add_source_maps(&mut report, vec![data]);
    assert_eq!(report.anchors.entries[0].creation.len(), 1);
    assert_eq!(report.source_maps.entries[0].creation, vec![element]);
    assert_eq!(report.analyses.entries[0].analysis.items.len(), 1);
}
