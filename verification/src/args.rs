//! What a coverage run is asked for.
use crate::attribution::SourcePath;
use crate::bytecode::BytecodeReporter;
use crate::debug::DebugReporter;
use crate::istanbul::JsonReporter;
use crate::lcov::LcovReporter;
use crate::paths::{make_path_key, path_key};
use crate::positions::{join_path, joined};
use crate::summary::CoverageSummaryReporter;
use crate::sums::{picked_empty, picked_push};
use crate::table::Table;
use crate::version::Version;
use vstd::prelude::*;
use vstd::string::*;

verus! {

/// A kind of report.
#[derive(Clone, Copy, Debug, PartialEq, Eq, Structural)]
pub enum CoverageReportKind {
    Summary,
    Lcov,
    Json,
    Debug,
    Bytecode,
    Attribution,
}

/// The coverage settings of a project.
#[derive(Debug)]
pub struct CoverageConfig {
    pub report: Vec<CoverageReportKind>,
    pub lcov_version: Version,
    pub ir_minimum: bool,
    pub report_file: Option<String>,
    pub include_libs: bool,
    pub exclude_tests: bool,
    pub skip_files: Vec<String>,
}

/// A reporter of any kind.
#[derive(Debug)]
pub enum Reporter {
    Summary(CoverageSummaryReporter),
    Lcov(LcovReporter),
    Json(JsonReporter),
    Bytecode(BytecodeReporter),
    Debug(DebugReporter),
}

/// Something that reports coverage.
pub trait CoverageReporter {
    /// The name of the reporter.
    spec fn reporter_name(&self) -> Seq<char>;

    /// The reporter needs to know where instructions come from.
    spec fn wants_source_maps(&self) -> bool;

    /// The name of the reporter.
    fn name(&self) -> (name: &'static str)
        ensures
            name@ == self.reporter_name(),
    ;

    /// Whether the reporter needs to know where instructions come from.
    fn needs_source_maps(&self) -> (needs: bool)
        ensures
            needs == self.wants_source_maps(),
    ;
}

impl CoverageReporter for Reporter {
    open spec fn reporter_name(&self) -> Seq<char> {
        match *self {
            Reporter::Summary(_) => "summary"@,
            Reporter::Lcov(_) => "lcov"@,
            Reporter::Json(_) => "json"@,
            Reporter::Bytecode(_) => "bytecode"@,
            Reporter::Debug(_) => "debug"@,
        }
    }

    open spec fn wants_source_maps(&self) -> bool {
        *self is Bytecode
    }

    fn name(&self) -> (name: &'static str) {
        match self {
            Reporter::Summary(reporter) => reporter.name(),
            Reporter::Lcov(reporter) => reporter.name(),
            Reporter::Json(reporter) => reporter.name(),
            Reporter::Bytecode(reporter) => reporter.name(),
            Reporter::Debug(reporter) => reporter.name(),
        }
    }

    fn needs_source_maps(&self) -> (needs: bool) {
        match self {
            Reporter::Bytecode(reporter) => reporter.needs_source_maps(),
            _ => false,
        }
    }
}

/// What a coverage run is asked for.
#[derive(Debug)]
pub struct CoverageArgs {
    /// The kinds of reports.
    pub report: Vec<CoverageReportKind>,
    /// The version of the tracefile format, if one was asked for.
    pub lcov_version_cli: Option<Version>,
    /// The version of the tracefile format.
    pub lcov_version: Version,
    /// Compile through the intermediate representation, with as little optimization as possible.
    pub ir_minimum: bool,
    /// Count the hits of probes that are put into the sources.
    pub instrumented: bool,
    /// Where a report goes, if it is the only one that is written to a file.
    pub report_file: Option<String>,
    pub include_libs: bool,
    pub exclude_tests: bool,
    pub reporters: Vec<Reporter>,
    /// Patterns of the sources that are left out.
    pub skip_files: Vec<String>,
    /// Run again when a file changes.
    pub watch: bool,
}

/// The kind is one of the kinds.
pub open spec fn asks_for(kinds: Seq<CoverageReportKind>, kind: CoverageReportKind) -> bool {
    exists|i: int| 0 <= i < kinds.len() && #[trigger] kinds[i] == kind
}

/// How many of the kinds of reports that are written to a file there are.
pub open spec fn file_reports(kinds: Seq<CoverageReportKind>) -> int {
    (if asks_for(kinds, CoverageReportKind::Lcov) { 1int } else { 0 }) + (if asks_for(
        kinds,
        CoverageReportKind::Json,
    ) { 1int } else { 0 }) + (if asks_for(kinds, CoverageReportKind::Attribution) { 1int } else { 0 })
}

/// Why a run cannot be made.
#[derive(Clone, Copy, Debug, PartialEq, Eq, Structural)]
pub enum RunError {
    /// A listing of the code was asked for together with probes, which are not in the listed code.
    InstrumentedBytecode,
}

/// What the user is told before a build.
#[derive(Clone, Copy, Debug, PartialEq, Eq, Structural)]
pub enum BuildWarning {
    /// Minimum optimization for a build with probes.
    InstrumentedIrMinimum,
    /// Minimum optimization, with places in the sources that may be wrong.
    IrMinimum,
    /// Optimization is switched off.
    OptimizationDisabled,
}

/// How a project is built.
#[derive(Clone, Copy, Debug, PartialEq, Eq, Structural)]
pub struct BuildPlan {
    pub warning: Option<BuildWarning>,
    /// Switch optimization off, with minimum optimization through the intermediate representation or
    /// without any; nothing where the settings of the project stay.
    pub disable_optimizations: Option<bool>,
}

fn has_kind(kinds: &Vec<CoverageReportKind>, kind: CoverageReportKind) -> (has: bool)
    ensures
        has == asks_for(kinds@, kind),
{
    let mut i: usize = 0;
    while i < kinds.len()
        invariant
            i <= kinds@.len(),
            forall|j: int| 0 <= j < i ==> #[trigger] kinds@[j] != kind,
        decreases kinds@.len() - i,
    {
        if kinds[i] == kind {
            assert(kinds@[i as int] == kind);
            return true;
        }
        i += 1;
    }
    false
}

fn copy_kinds(kinds: &Vec<CoverageReportKind>) -> (copy: Vec<CoverageReportKind>)
    ensures
        copy@ == kinds@,
{
    let mut copy: Vec<CoverageReportKind> = Vec::new();
    let mut i: usize = 0;
    while i < kinds.len()
        invariant
            i <= kinds@.len(),
            copy@ == kinds@.take(i as int),
        decreases kinds@.len() - i,
    {
        copy.push(kinds[i]);
        assert(copy@ =~= kinds@.take(i + 1));
        i += 1;
    }
    assert(copy@ =~= kinds@);
    copy
}

fn copy_texts(texts: &Vec<String>) -> (copy: Vec<String>)
    ensures
        copy@ == texts@,
{
    let mut copy: Vec<String> = Vec::new();
    let mut i: usize = 0;
    while i < texts.len()
        invariant
            i <= texts@.len(),
            copy@ == texts@.take(i as int),
        decreases texts@.len() - i,
    {
        copy.push(texts[i].clone());
        assert(copy@ =~= texts@.take(i + 1));
        i += 1;
    }
    assert(copy@ =~= texts@);
    copy
}

fn copy_opt_text(text: &Option<String>) -> (copy: Option<String>)
    ensures
        copy == *text,
{
    match text {
        Some(text) => Some(text.clone()),
        None => None,
    }
}

/// The reporter is the one for a kind of report, in a run with these arguments.
pub open spec fn reports_kind(reporter: Reporter, kind: CoverageReportKind, args: CoverageArgs, root: Seq<char>) -> bool {
    match kind {
        CoverageReportKind::Summary => match reporter {
            Reporter::Summary(r) => r.is_fresh(),
            _ => false,
        },
        CoverageReportKind::Lcov => match reporter {
            Reporter::Lcov(r) => r.path@ == args.path_for(root, "lcov.info"@) && r.version == args.lcov_version,
            _ => false,
        },
        CoverageReportKind::Json => match reporter {
            Reporter::Json(r) => r.root@ == root && r.path@ == args.path_for(root, "coverage-final.json"@),
            _ => false,
        },
        CoverageReportKind::Bytecode => match reporter {
            Reporter::Bytecode(r) => r.root@ == root && r.destdir@ == joined(root, "bytecode-coverage"@),
            _ => false,
        },
        CoverageReportKind::Debug => reporter is Debug,
        CoverageReportKind::Attribution => false,
    }
}

/// The kinds of reports that have a reporter, among the first `n`. The attribution of hits to tests needs
/// the results of the tests and has none.
pub open spec fn reported_kinds(kinds: Seq<CoverageReportKind>, n: int) -> Seq<CoverageReportKind>
    decreases n,
{
    if n <= 0 {
        Seq::empty()
    } else if kinds[n - 1] == CoverageReportKind::Attribution {
        reported_kinds(kinds, n - 1)
    } else {
        reported_kinds(kinds, n - 1).push(kinds[n - 1])
    }
}

/// The kinds of reports that were asked for, else those of the settings, else the summary.
pub open spec fn resolved_report(asked: Seq<CoverageReportKind>, set: Seq<CoverageReportKind>) -> Seq<
    CoverageReportKind,
> {
    if asked.len() > 0 {
        asked
    } else if set.len() > 0 {
        set
    } else {
        seq![CoverageReportKind::Summary]
    }
}

/// A source file with tests or fixtures.
#[derive(Debug)]
pub struct TestFile {
    pub path: String,
    /// The file is named like one with tests.
    pub is_sol_test: bool,
    /// The file passes the path filter.
    pub matches: bool,
}

/// A file with the key is among the files.
pub open spec fn among_files(files: Seq<String>, n: int, key: Seq<u64>) -> bool {
    exists|i: int| 0 <= i < n && path_key((#[trigger] files[i])@) == key
}

/// A file with the key is among those test files that are not filtered out.
pub open spec fn among_tests(files: Seq<TestFile>, n: int, key: Seq<u64>) -> bool {
    exists|i: int|
        0 <= i < n && path_key((#[trigger] files[i]).path@) == key && (!files[i].is_sol_test || files[i].matches)
}

impl CoverageArgs {
    /// Where the report that is written to a file by default as `default_file_name` goes.
    pub open spec fn path_for(&self, root: Seq<char>, default_file_name: Seq<char>) -> Seq<char> {
        if file_reports(self.report@) == 1 && self.report_file is Some {
            joined(root, self.report_file->0@)
        } else {
            joined(root, default_file_name)
        }
    }

    /// Where a report goes: to the file that was asked for, if this is the only report that is written to
    /// a file, else to the default one.
    pub fn report_path(&self, root: &str, default_file_name: &str) -> (path: String)
        ensures
            path@ == self.path_for(root@, default_file_name@),
    {
        if self.file_report_count() == 1 {
            if let Some(file) = &self.report_file {
                return join_path(root, file.as_str());
            }
        }
        join_path(root, default_file_name)
    }

    /// How many of the kinds of reports that are written to a file were asked for.
    pub fn file_report_count(&self) -> (count: usize)
        ensures
            count == file_reports(self.report@),
    {
        let lcov: usize = if has_kind(&self.report, CoverageReportKind::Lcov) { 1 } else { 0 };
        let json: usize = if has_kind(&self.report, CoverageReportKind::Json) { 1 } else { 0 };
        let attribution: usize = if has_kind(&self.report, CoverageReportKind::Attribution) { 1 } else { 0 };
        lcov + json + attribution
    }

    /// Checks what was asked for. Tells whether the file that was asked for is ignored because more than
    /// one report is written to a file.
    pub fn check(&self) -> (ignores_file: Result<bool, RunError>)
        ensures
            ignores_file == (if self.instrumented && asks_for(self.report@, CoverageReportKind::Bytecode) {
                Err::<bool, RunError>(RunError::InstrumentedBytecode)
            } else {
                Ok(self.report_file is Some && file_reports(self.report@) > 1)
            }),
    {
        if self.instrumented && has_kind(&self.report, CoverageReportKind::Bytecode) {
            return Err(RunError::InstrumentedBytecode);
        }
        Ok(self.report_file.is_some() && self.file_report_count() > 1)
    }

    /// What these arguments become with the settings of a project.
    pub open spec fn is_resolved(&self, old: &CoverageArgs, config: &CoverageConfig) -> bool {
        &&& self.report@ == resolved_report(old.report@, config.report@)
        &&& self.lcov_version_cli == old.lcov_version_cli
        &&& self.lcov_version == (match old.lcov_version_cli {
            Some(version) => version,
            None => config.lcov_version,
        })
        &&& self.ir_minimum == (old.ir_minimum || config.ir_minimum)
        &&& self.instrumented == old.instrumented
        &&& self.report_file == (match old.report_file {
            Some(file) => Some(file),
            None => config.report_file,
        })
        &&& self.include_libs == (old.include_libs || config.include_libs)
        &&& self.exclude_tests == (old.exclude_tests || config.exclude_tests)
        &&& self.reporters == old.reporters
        &&& self.skip_files@ == config.skip_files@
        &&& self.watch == old.watch
    }

    /// Takes from the settings of the project what was not asked for. What was asked for wins; a switch
    /// that is on in the settings cannot be switched off. There is always a report: where neither names one,
    /// it is the summary.
    pub fn resolve_with(&mut self, config: &CoverageConfig)
        ensures
            final(self).is_resolved(old(self), config),
            final(self).report@.len() > 0,
    {
        if self.report.len() == 0 {
            self.report = copy_kinds(&config.report);
        }
        if self.report.len() == 0 {
            self.report.push(CoverageReportKind::Summary);
            assert(self.report@ =~= seq![CoverageReportKind::Summary]);
        }
        let lcov_version = match &self.lcov_version_cli {
            Some(version) => version.clone(),
            None => config.lcov_version.clone(),
        };
        self.lcov_version = lcov_version;
        if !self.ir_minimum {
            self.ir_minimum = config.ir_minimum;
        }
        if self.report_file.is_none() {
            self.report_file = copy_opt_text(&config.report_file);
        }
        if !self.include_libs {
            self.include_libs = config.include_libs;
        }
        if !self.exclude_tests {
            self.exclude_tests = config.exclude_tests;
        }
        self.skip_files = copy_texts(&config.skip_files);
    }

    /// Makes a reporter for each kind of report that has one, in the order of the kinds.
    pub fn populate_reporters(&mut self, root: &str)
        ensures
            final(self).report == old(self).report,
            final(self).lcov_version_cli == old(self).lcov_version_cli,
            final(self).lcov_version == old(self).lcov_version,
            final(self).ir_minimum == old(self).ir_minimum,
            final(self).instrumented == old(self).instrumented,
            final(self).report_file == old(self).report_file,
            final(self).include_libs == old(self).include_libs,
            final(self).exclude_tests == old(self).exclude_tests,
            final(self).skip_files == old(self).skip_files,
            final(self).watch == old(self).watch,
            ({
                let kinds = reported_kinds(old(self).report@, old(self).report@.len() as int);
                &&& final(self).reporters@.len() == kinds.len()
                &&& forall|i: int|
                    0 <= i < kinds.len() ==> reports_kind(
                        #[trigger] final(self).reporters@[i],
                        kinds[i],
                        *old(self),
                        root@,
                    )
            }),
    {
        let mut reporters: Vec<Reporter> = Vec::new();
        let mut n: usize = 0;
        while n < self.report.len()
            invariant
                *self == *old(self),
                n <= self.report@.len(),
                reporters@.len() == reported_kinds(self.report@, n as int).len(),
                forall|i: int|
                    0 <= i < reporters@.len() ==> reports_kind(
                        #[trigger] reporters@[i],
                        reported_kinds(self.report@, n as int)[i],
                        *self,
                        root@,
                    ),
            decreases self.report@.len() - n,
        {
            let ghost before = reporters@;
            let reporter = match self.report[n] {
                CoverageReportKind::Summary => Some(Reporter::Summary(CoverageSummaryReporter::new())),
                CoverageReportKind::Lcov => Some(
                    Reporter::Lcov(
                        LcovReporter::new(self.report_path(root, "lcov.info"), self.lcov_version.clone()),
                    ),
                ),
                CoverageReportKind::Json => Some(
                    Reporter::Json(
                        JsonReporter::new(root.to_owned(), self.report_path(root, "coverage-final.json")),
                    ),
                ),
                CoverageReportKind::Bytecode => Some(
                    Reporter::Bytecode(
                        BytecodeReporter::new(root.to_owned(), join_path(root, "bytecode-coverage")),
                    ),
                ),
                CoverageReportKind::Debug => Some(Reporter::Debug(DebugReporter)),
                CoverageReportKind::Attribution => None,
            };
            if let Some(reporter) = reporter {
                assert(reports_kind(reporter, self.report@[n as int], *self, root@));
                reporters.push(reporter);
            }
            proof {
                let kinds = reported_kinds(self.report@, n + 1);
                assert forall|i: int| 0 <= i < reporters@.len() implies reports_kind(
                    #[trigger] reporters@[i],
                    kinds[i],
                    *self,
                    root@,
                ) by {
                    if i < before.len() {
                        assert(reports_kind(before[i], reported_kinds(self.report@, n as int)[i], *self, root@));
                    }
                }
            }
            n += 1;
        }
        self.reporters = reporters;
    }

    /// Whether one of the reporters needs to know where instructions come from.
    pub fn needs_source_maps(&self) -> (needs: bool)
        ensures
            needs == exists|i: int| 0 <= i < self.reporters@.len() && #[trigger] self.reporters@[i] is Bytecode,
    {
        let mut i: usize = 0;
        while i < self.reporters.len()
            invariant
                i <= self.reporters@.len(),
                forall|j: int| 0 <= j < i ==> !(#[trigger] self.reporters@[j] is Bytecode),
            decreases self.reporters@.len() - i,
        {
            if self.reporters[i].needs_source_maps() {
                assert(self.reporters@[i as int] is Bytecode);
                return true;
            }
            i += 1;
        }
        false
    }

    /// How the project is built: with probes its settings stay, unless minimum optimization was asked for;
    /// without them optimization is always switched off.
    pub fn build_plan(&self) -> (plan: BuildPlan)
        ensures
            plan == (if self.instrumented {
                if self.ir_minimum {
                    BuildPlan {
                        warning: Some(BuildWarning::InstrumentedIrMinimum),
                        disable_optimizations: Some(true),
                    }
                } else {
                    BuildPlan { warning: None, disable_optimizations: None }
                }
            } else {
                BuildPlan {
                    warning: Some(
                        if self.ir_minimum { BuildWarning::IrMinimum } else { BuildWarning::OptimizationDisabled },
                    ),
                    disable_optimizations: Some(self.ir_minimum),
                }
            }),
    {
        if self.instrumented {
            if self.ir_minimum {
                BuildPlan {
                    warning: Some(BuildWarning::InstrumentedIrMinimum),
                    disable_optimizations: Some(true),
                }
            } else {
                BuildPlan { warning: None, disable_optimizations: None }
            }
        } else {
            let warning = if self.ir_minimum {
                BuildWarning::IrMinimum
            } else {
                BuildWarning::OptimizationDisabled
            };
            BuildPlan { warning: Some(warning), disable_optimizations: Some(self.ir_minimum) }
        }
    }

    /// The files to be compiled where a path filter is given: all sources and scripts, and the test files
    /// but those with tests that do not pass the filter.
    pub fn filtered_sources(
        has_path_filter: bool,
        src: &Vec<String>,
        test: &Vec<TestFile>,
        script: &Vec<String>,
    ) -> (files: Option<Table<SourcePath>>)
        ensures
            files is Some <==> has_path_filter,
            files is Some ==> files->0.wf() && forall|key: Seq<u64>| #[trigger]
                files->0@.contains_key(key) <==> among_files(src@, src@.len() as int, key) || among_tests(
                    test@,
                    test@.len() as int,
                    key,
                ) || among_files(script@, script@.len() as int, key),
    {
        if !has_path_filter {
            return None;
        }
        let mut files: Table<SourcePath> = Table::new();
        put_files(&mut files, src);
        put_tests(&mut files, test);
        put_files(&mut files, script);
        Some(files)
    }

    /// Whether a file is to be compiled: it is one of those that are left by a filter, if there is one.
    pub fn is_selected(filtered: Option<&Table<SourcePath>>, path: &str) -> (selected: bool)
        requires
            filtered is Some ==> filtered->0.wf(),
        ensures
            selected == (filtered is None || filtered->0@.contains_key(path_key(path@))),
    {
        match filtered {
            Some(files) => {
                let key = make_path_key(path);
                files.find(&key).is_some()
            },
            None => true,
        }
    }

    /// Whether a report of a kind was asked for.
    pub fn asks_for(&self, kind: CoverageReportKind) -> (asks: bool)
        ensures
            asks == asks_for(self.report@, kind),
    {
        has_kind(&self.report, kind)
    }

    /// Whether the run is made again when a file changes.
    pub fn is_watch(&self) -> (watch: bool)
        ensures
            watch == self.watch,
    {
        self.watch
    }
}

fn put_files(files: &mut Table<SourcePath>, paths: &Vec<String>)
    requires
        old(files).wf(),
    ensures
        final(files).wf(),
        forall|key: Seq<u64>| #[trigger]
            final(files)@.contains_key(key) <==> old(files)@.contains_key(key) || among_files(
                paths@,
                paths@.len() as int,
                key,
            ),
{
    let mut n: usize = 0;
    while n < paths.len()
        invariant
            n <= paths@.len(),
            files.wf(),
            forall|key: Seq<u64>| #[trigger]
                files@.contains_key(key) <==> old(files)@.contains_key(key) || among_files(paths@, n as int, key),
        decreases paths@.len() - n,
    {
        files.put(SourcePath { path: paths[n].clone() });
        proof {
            assert forall|key: Seq<u64>| among_files(paths@, n + 1, key) == (among_files(paths@, n as int, key)
                || path_key(paths@[n as int]@) == key) by {
                if among_files(paths@, n as int, key) {
                    let i = choose|i: int| 0 <= i < n && path_key((#[trigger] paths@[i])@) == key;
                    assert(0 <= i < n + 1 && path_key(paths@[i]@) == key);
                }
            }
        }
        n += 1;
    }
}

fn put_tests(files: &mut Table<SourcePath>, tests: &Vec<TestFile>)
    requires
        old(files).wf(),
    ensures
        final(files).wf(),
        forall|key: Seq<u64>| #[trigger]
            final(files)@.contains_key(key) <==> old(files)@.contains_key(key) || among_tests(
                tests@,
                tests@.len() as int,
                key,
            ),
{
    let mut n: usize = 0;
    while n < tests.len()
        invariant
            n <= tests@.len(),
            files.wf(),
            forall|key: Seq<u64>| #[trigger]
                files@.contains_key(key) <==> old(files)@.contains_key(key) || among_tests(tests@, n as int, key),
        decreases tests@.len() - n,
    {
        let test = &tests[n];
        if !test.is_sol_test || test.matches {
            files.put(SourcePath { path: test.path.clone() });
        }
        proof {
            assert forall|key: Seq<u64>| among_tests(tests@, n + 1, key) == (among_tests(tests@, n as int, key) || (
            path_key(tests@[n as int].path@) == key && (!tests@[n as int].is_sol_test || tests@[n as int].matches))) by {
                if among_tests(tests@, n as int, key) {
                    let i = choose|i: int|
                        0 <= i < n && path_key((#[trigger] tests@[i]).path@) == key && (!tests@[i].is_sol_test
                            || tests@[i].matches);
                    assert(0 <= i < n + 1 && path_key(tests@[i].path@) == key);
                }
            }
        }
        n += 1;
    }
}

/// Every kind of report that was asked for has a reporter, in the order of the kinds, but the attribution of hits to
/// tests.
pub proof fn every_kind_has_its_reporter(kinds: Seq<CoverageReportKind>)
    ensures
        reported_kinds(kinds, kinds.len() as int) == kinds.filter(
            |kind: CoverageReportKind| kind != CoverageReportKind::Attribution,
        ),
{
    reported_up_to(kinds, kinds.len() as int);
    assert(kinds.take(kinds.len() as int) =~= kinds);
}

proof fn reported_up_to(kinds: Seq<CoverageReportKind>, n: int)
    requires
        0 <= n <= kinds.len(),
    ensures
        reported_kinds(kinds, n) == kinds.take(n).filter(
            |kind: CoverageReportKind| kind != CoverageReportKind::Attribution,
        ),
    decreases n,
{
    let p = |kind: CoverageReportKind| kind != CoverageReportKind::Attribution;
    if n == 0 {
        assert(kinds.take(0) =~= Seq::empty());
        picked_empty(p);
    } else {
        reported_up_to(kinds, n - 1);
        assert(kinds.take(n) =~= kinds.take(n - 1).push(kinds[n - 1]));
        picked_push(kinds.take(n - 1), kinds[n - 1], p);
    }
}

/// A report goes to the file that was asked for if it is the only kind of report that is written to a file, and to the
/// default file if there are more or none was asked for.
pub proof fn only_report_goes_to_the_file(
    args: CoverageArgs,
    root: Seq<char>,
    default_file: Seq<char>,
    kind: CoverageReportKind,
)
    requires
        kind == CoverageReportKind::Lcov || kind == CoverageReportKind::Json || kind == CoverageReportKind::Attribution,
        args.report@.contains(kind),
    ensures
        ({
            let kinds = args.report@;
            let others = exists|i: int|
                0 <= i < kinds.len() && #[trigger] kinds[i] != kind && (kinds[i] == CoverageReportKind::Lcov || kinds[i]
                    == CoverageReportKind::Json || kinds[i] == CoverageReportKind::Attribution);
            &&& !others && args.report_file is Some ==> args.path_for(root, default_file) == joined(
                root,
                args.report_file->0@,
            )
            &&& others || args.report_file is None ==> args.path_for(root, default_file) == joined(root, default_file)
        }),
{
    let kinds = args.report@;
    let i = choose|i: int| 0 <= i < kinds.len() && kinds[i] == kind;
    assert(asks_for(kinds, kind));
    let others = exists|i: int|
        0 <= i < kinds.len() && #[trigger] kinds[i] != kind && (kinds[i] == CoverageReportKind::Lcov || kinds[i]
            == CoverageReportKind::Json || kinds[i] == CoverageReportKind::Attribution);
    if others {
        let j = choose|j: int|
            0 <= j < kinds.len() && #[trigger] kinds[j] != kind && (kinds[j] == CoverageReportKind::Lcov || kinds[j]
                == CoverageReportKind::Json || kinds[j] == CoverageReportKind::Attribution);
        assert(asks_for(kinds, kinds[j]));
    } else {
        assert forall|k: CoverageReportKind|
            k != kind && (k == CoverageReportKind::Lcov || k == CoverageReportKind::Json || k
                == CoverageReportKind::Attribution) implies !asks_for(kinds, k) by {
            if asks_for(kinds, k) {
                let j = choose|j: int| 0 <= j < kinds.len() && #[trigger] kinds[j] == k;
                assert(kinds[j] != kind);
            }
        }
    }
}

/// What was asked for wins over the settings, the settings fill in what was not asked for, and a switch is on if
/// either has it on.
pub proof fn asked_for_wins(asked: CoverageArgs, resolved: CoverageArgs, config: CoverageConfig)
    requires
        resolved.is_resolved(&asked, &config),
    ensures
        asked.report@.len() > 0 ==> resolved.report@ == asked.report@,
        asked.report@.len() == 0 && config.report@.len() > 0 ==> resolved.report@ == config.report@,
        asked.report@.len() == 0 && config.report@.len() == 0 ==> resolved.report@.len() == 1 && resolved.report@[0]
            == CoverageReportKind::Summary,
        asked.lcov_version_cli is Some ==> resolved.lcov_version == asked.lcov_version_cli->0,
        asked.lcov_version_cli is None ==> resolved.lcov_version == config.lcov_version,
        asked.report_file is Some ==> resolved.report_file == asked.report_file,
        asked.report_file is None ==> resolved.report_file == config.report_file,
        resolved.ir_minimum <==> asked.ir_minimum || config.ir_minimum,
        resolved.include_libs <==> asked.include_libs || config.include_libs,
        resolved.exclude_tests <==> asked.exclude_tests || config.exclude_tests,
        resolved.instrumented <==> asked.instrumented,
        resolved.skip_files@ == config.skip_files@,
{
}

/// Resolving arguments again with the same settings changes nothing.
pub proof fn resolving_again_changes_nothing(
    asked: CoverageArgs,
    once: CoverageArgs,
    twice: CoverageArgs,
    config: CoverageConfig,
)
    requires
        once.is_resolved(&asked, &config),
        twice.is_resolved(&once, &config),
    ensures
        twice.report@ == once.report@,
        twice.lcov_version_cli == once.lcov_version_cli,
        twice.lcov_version == once.lcov_version,
        twice.ir_minimum == once.ir_minimum,
        twice.instrumented == once.instrumented,
        twice.report_file == once.report_file,
        twice.include_libs == once.include_libs,
        twice.exclude_tests == once.exclude_tests,
        twice.reporters == once.reporters,
        twice.skip_files@ == once.skip_files@,
        twice.watch == once.watch,
{
}

/// Reports that are written to files go to different files, as long as each goes to its default one.
pub proof fn default_files_differ(root: Seq<char>)
    ensures
        joined(root, "lcov.info"@) != joined(root, "coverage-final.json"@),
        joined(root, "lcov.info"@) != joined(root, "coverage-attribution.json"@),
        joined(root, "coverage-final.json"@) != joined(root, "coverage-attribution.json"@),
{
    reveal_strlit("lcov.info");
    reveal_strlit("coverage-final.json");
    reveal_strlit("coverage-attribution.json");
    assert("lcov.info"@.len() == 9 && "coverage-final.json"@.len() == 19 && "coverage-attribution.json"@.len() == 25);
    let a = joined(root, "lcov.info"@);
    let b = joined(root, "coverage-final.json"@);
    let c = joined(root, "coverage-attribution.json"@);
    assert(a.len() != b.len() && a.len() != c.len() && b.len() != c.len());
}

}
