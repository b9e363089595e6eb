//! The report in the coverage map format of Istanbul.
use crate::files::{is_by_file, FileItems};
use crate::items::{CoverageItem, CoverageItemKind, SourceLocation};
use crate::order::{precedes, precedes_at, sort_by_key, stable_sorted, stable_sorted_is_sorted, Keyed};
use crate::positions::{
    line_starts, offsets_ascend, position, position_gives_back_offset, position_of, IstanbulLocation, IstanbulPosition,
    SourcePositionCache,
};
use crate::report::CoverageReport;
use crate::sums::{picked_alike, picked_empty, picked_members, picked_multisets, picked_nothing, picked_push};
use crate::table::Table;
use vstd::prelude::*;
use vstd::string::*;

verus! {

/// A function of a file.
#[derive(Debug)]
pub struct IstanbulFunction {
    pub name: String,
    pub decl: IstanbulLocation,
    pub loc: IstanbulLocation,
    pub line: u32,
}

/// A branch of a file, with the locations of its paths.
#[derive(Debug)]
pub struct IstanbulBranch {
    pub loc: IstanbulLocation,
    pub locations: Vec<IstanbulLocation>,
}

/// The coverage of a file. Statements, functions and branches are numbered in the order of the lists.
#[derive(Debug)]
pub struct IstanbulFileCoverage {
    pub path: String,
    pub statement_map: Vec<IstanbulLocation>,
    pub function_map: Vec<IstanbulFunction>,
    pub branch_map: Vec<IstanbulBranch>,
    pub statements: Vec<u32>,
    pub functions: Vec<u32>,
    pub branches: Vec<Vec<u32>>,
}

/// A path of a branch.
#[derive(Debug)]
pub struct BranchPath {
    pub branch_id: u32,
    pub path_id: u32,
    pub loc: SourceLocation,
    pub hits: u32,
}

/// Paths are ordered by branch, then by number.
impl Keyed for BranchPath {
    open spec fn sort_key(&self) -> Seq<u64> {
        seq![self.branch_id as u64, self.path_id as u64]
    }

    fn make_key(&self) -> (key: Vec<u64>) {
        let key = vec![self.branch_id as u64, self.path_id as u64];
        assert(key@ =~= self.sort_key());
        key
    }
}

/// The location of a place in a source.
pub open spec fn location_of(offsets: Seq<usize>, loc: SourceLocation) -> IstanbulLocation {
    IstanbulLocation {
        start: position_of(offsets, loc.bytes.start as int, loc.lines.start),
        end: position_of(
            offsets,
            loc.bytes.end as int,
            if loc.lines.end == 0 { 0 } else { (loc.lines.end - 1) as u32 },
        ),
    }
}

/// The location of a place in a source.
pub fn location(offsets: &Vec<usize>, loc: &SourceLocation) -> (location: IstanbulLocation)
    requires
        offsets_ascend(offsets@),
        offsets@.len() <= u32::MAX,
    ensures
        location == location_of(offsets@, *loc),
{
    IstanbulLocation {
        start: position(offsets, loc.bytes.start, loc.lines.start),
        end: position(offsets, loc.bytes.end, if loc.lines.end == 0 { 0 } else { loc.lines.end - 1 }),
    }
}

/// The statements among the first `n` items.
pub open spec fn statements_of(items: Seq<CoverageItem>, n: int) -> Seq<CoverageItem>
    decreases n,
{
    if n <= 0 {
        Seq::empty()
    } else if items[n - 1].kind is Statement {
        statements_of(items, n - 1).push(items[n - 1])
    } else {
        statements_of(items, n - 1)
    }
}

/// The functions among the first `n` items.
pub open spec fn functions_of(items: Seq<CoverageItem>, n: int) -> Seq<CoverageItem>
    decreases n,
{
    if n <= 0 {
        Seq::empty()
    } else if items[n - 1].kind is Function {
        functions_of(items, n - 1).push(items[n - 1])
    } else {
        functions_of(items, n - 1)
    }
}

/// The paths of branches among the first `n` items.
pub open spec fn paths_of(items: Seq<CoverageItem>, n: int) -> Seq<BranchPath>
    decreases n,
{
    if n <= 0 {
        Seq::empty()
    } else {
        match items[n - 1].kind {
            CoverageItemKind::Branch { branch_id, path_id, .. } => paths_of(items, n - 1).push(
                BranchPath { branch_id, path_id, loc: items[n - 1].loc, hits: items[n - 1].hits },
            ),
            _ => paths_of(items, n - 1),
        }
    }
}

/// The first `n` paths, with paths of one branch that follow each other put together.
pub open spec fn grouped(paths: Seq<BranchPath>, n: int) -> Seq<Seq<BranchPath>>
    decreases n,
{
    if n <= 0 {
        Seq::empty()
    } else {
        let before = grouped(paths, n - 1);
        let path = paths[n - 1];
        if before.len() > 0 && before.last().len() > 0 && before.last().last().branch_id == path.branch_id {
            before.drop_last().push(before.last().push(path))
        } else {
            before.push(seq![path])
        }
    }
}

/// The branches of a file: ordered by number, each with its paths in order.
pub open spec fn branches_of(items: Seq<CoverageItem>) -> Seq<Seq<BranchPath>> {
    let paths = stable_sorted(paths_of(items, items.len() as int));
    grouped(paths, paths.len() as int)
}

/// The entries of a branch have the locations and hits of its paths; its own location is that of the
/// first one.
pub open spec fn is_branch(branch: IstanbulBranch, hits: Seq<u32>, paths: Seq<BranchPath>, offsets: Seq<usize>) -> bool {
    &&& branch.locations@ == paths.map_values(|path: BranchPath| location_of(offsets, path.loc))
    &&& hits == paths.map_values(|path: BranchPath| path.hits)
    &&& paths.len() > 0 && branch.loc == branch.locations@[0]
}

/// The entry of a function.
pub open spec fn is_function(function: IstanbulFunction, item: CoverageItem, offsets: Seq<usize>) -> bool {
    &&& item.kind is Function
    &&& function.name@ == item.kind->Function_name@
    &&& function.decl == location_of(offsets, item.loc)
    &&& function.loc == location_of(offsets, item.loc)
    &&& function.line == item.loc.lines.start
}

/// The functions have entries in their order.
pub open spec fn are_functions(map: Seq<IstanbulFunction>, functions: Seq<CoverageItem>, offsets: Seq<usize>) -> bool {
    &&& map.len() == functions.len()
    &&& forall|i: int| 0 <= i < map.len() ==> is_function(#[trigger] map[i], functions[i], offsets)
}

/// The branches have entries in their order.
pub open spec fn are_branches(
    map: Seq<IstanbulBranch>,
    hits: Seq<Vec<u32>>,
    branches: Seq<Seq<BranchPath>>,
    offsets: Seq<usize>,
) -> bool {
    &&& map.len() == branches.len()
    &&& hits.len() == branches.len()
    &&& forall|i: int| 0 <= i < map.len() ==> is_branch(#[trigger] map[i], hits[i]@, branches[i], offsets)
}

/// The coverage is that of the items of a file whose lines begin at the offsets.
pub open spec fn covers(file: IstanbulFileCoverage, path: Seq<char>, items: Seq<CoverageItem>, offsets: Seq<usize>) -> bool {
    let n = items.len() as int;
    &&& file.path@ == path
    &&& file.statement_map@ == statements_of(items, n).map_values(
        |item: CoverageItem| location_of(offsets, item.loc),
    )
    &&& file.statements@ == statements_of(items, n).map_values(|item: CoverageItem| item.hits)
    &&& are_functions(file.function_map@, functions_of(items, n), offsets)
    &&& file.functions@ == functions_of(items, n).map_values(|item: CoverageItem| item.hits)
    &&& are_branches(file.branch_map@, file.branches@, branches_of(items), offsets)
}

/// Puts the paths of each branch together.
fn group_branches(paths: &Vec<BranchPath>, offsets: &Vec<usize>) -> (groups: (Vec<IstanbulBranch>, Vec<Vec<u32>>))
    requires
        offsets_ascend(offsets@),
        offsets@.len() <= u32::MAX,
    ensures
        are_branches(groups.0@, groups.1@, grouped(paths@, paths@.len() as int), offsets@),
{
    let mut map: Vec<IstanbulBranch> = Vec::new();
    let mut hits: Vec<Vec<u32>> = Vec::new();
    let mut last: Option<u32> = None;
    let mut n: usize = 0;
    while n < paths.len()
        invariant
            offsets_ascend(offsets@),
            offsets@.len() <= u32::MAX,
            n <= paths@.len(),
            are_branches(map@, hits@, grouped(paths@, n as int), offsets@),
            match last {
                Some(id) => grouped(paths@, n as int).len() > 0 && grouped(paths@, n as int).last().last().branch_id
                    == id,
                None => grouped(paths@, n as int).len() == 0,
            },
        decreases paths@.len() - n,
    {
        let path = &paths[n];
        let place = location(offsets, &path.loc);
        let ghost before = grouped(paths@, n as int);
        let ghost now = grouped(paths@, n + 1);
        let again = match last {
            Some(id) => id == path.branch_id,
            None => false,
        };
        if again {
            let at: usize = map.len() - 1;
            let ghost old_map = map@;
            let ghost old_hits = hits@;
            assert(is_branch(map@[at as int], hits@[at as int]@, before[at as int], offsets@));
            map[at].locations.push(place);
            hits[at].push(path.hits);
            proof {
                assert(now == before.drop_last().push(before.last().push(*path)));
                assert(now[at as int] == before.last().push(*path));
                assert(map@[at as int].locations@ =~= now[at as int].map_values(
                    |path: BranchPath| location_of(offsets@, path.loc),
                ));
                assert(hits@[at as int]@ =~= now[at as int].map_values(|path: BranchPath| path.hits));
                assert forall|i: int| 0 <= i < map@.len() implies is_branch(
                    #[trigger] map@[i],
                    hits@[i]@,
                    now[i],
                    offsets@,
                ) by {
                    if i < at {
                        assert(is_branch(old_map[i], old_hits[i]@, before[i], offsets@));
                        assert(now[i] == before[i]);
                    }
                }
                assert(now.last().last() == *path);
            }
        } else {
            let ghost old_map = map@;
            let ghost old_hits = hits@;
            map.push(IstanbulBranch { loc: place, locations: vec![place] });
            hits.push(vec![path.hits]);
            proof {
                let at = before.len() as int;
                if before.len() > 0 {
                    assert(is_branch(old_map[at - 1], old_hits[at - 1]@, before[at - 1], offsets@));
                }
                assert(now == before.push(seq![*path]));
                assert(map@[at].locations@ =~= now[at].map_values(
                    |path: BranchPath| location_of(offsets@, path.loc),
                ));
                assert(hits@[at]@ =~= now[at].map_values(|path: BranchPath| path.hits));
                assert forall|i: int| 0 <= i < map@.len() implies is_branch(
                    #[trigger] map@[i],
                    hits@[i]@,
                    now[i],
                    offsets@,
                ) by {
                    if i < at {
                        assert(is_branch(old_map[i], old_hits[i]@, before[i], offsets@));
                    }
                }
                assert(now.last().last() == *path);
            }
        }
        last = Some(path.branch_id);
        n += 1;
    }
    (map, hits)
}

/// Builds the coverage of a file whose lines begin at the offsets.
pub fn file_coverage(file: &FileItems, offsets: &Vec<usize>) -> (coverage: IstanbulFileCoverage)
    requires
        offsets_ascend(offsets@),
        offsets@.len() <= u32::MAX,
    ensures
        covers(coverage, file.path@, file.items@, offsets@),
{
    let items = &file.items;
    let mut statement_map: Vec<IstanbulLocation> = Vec::new();
    let mut statements: Vec<u32> = Vec::new();
    let mut function_map: Vec<IstanbulFunction> = Vec::new();
    let mut functions: Vec<u32> = Vec::new();
    let mut paths: Vec<BranchPath> = Vec::new();
    let mut n: usize = 0;
    proof {
        assert(statement_map@ =~= statements_of(items@, 0).map_values(
            |item: CoverageItem| location_of(offsets@, item.loc),
        ));
        assert(statements@ =~= statements_of(items@, 0).map_values(|item: CoverageItem| item.hits));
        assert(functions@ =~= functions_of(items@, 0).map_values(|item: CoverageItem| item.hits));
    }
    while n < items.len()
        invariant
            offsets_ascend(offsets@),
            offsets@.len() <= u32::MAX,
            *items == file.items,
            n <= items@.len(),
            statement_map@ == statements_of(items@, n as int).map_values(
                |item: CoverageItem| location_of(offsets@, item.loc),
            ),
            statements@ == statements_of(items@, n as int).map_values(|item: CoverageItem| item.hits),
            are_functions(function_map@, functions_of(items@, n as int), offsets@),
            functions@ == functions_of(items@, n as int).map_values(|item: CoverageItem| item.hits),
            paths@ == paths_of(items@, n as int),
        decreases items@.len() - n,
    {
        let item = &items[n];
        let ghost old_map = function_map@;
        match &item.kind {
            CoverageItemKind::Statement => {
                statement_map.push(location(offsets, &item.loc));
                statements.push(item.hits);
            },
            CoverageItemKind::Function { name } => {
                let loc = location(offsets, &item.loc);
                function_map.push(
                    IstanbulFunction { name: name.clone(), decl: loc, loc, line: item.loc.lines.start },
                );
                functions.push(item.hits);
            },
            CoverageItemKind::Branch { branch_id, path_id, .. } => {
                paths.push(
                    BranchPath { branch_id: *branch_id, path_id: *path_id, loc: item.loc.clone(), hits: item.hits },
                );
            },
            CoverageItemKind::Line => {},
        }
        proof {
            assert(statement_map@ =~= statements_of(items@, n + 1).map_values(
                |item: CoverageItem| location_of(offsets@, item.loc),
            ));
            assert(statements@ =~= statements_of(items@, n + 1).map_values(|item: CoverageItem| item.hits));
            assert(functions@ =~= functions_of(items@, n + 1).map_values(|item: CoverageItem| item.hits));
            assert forall|i: int| 0 <= i < function_map@.len() implies is_function(
                #[trigger] function_map@[i],
                functions_of(items@, n + 1)[i],
                offsets@,
            ) by {
                if i < old_map.len() {
                    assert(is_function(old_map[i], functions_of(items@, n as int)[i], offsets@));
                }
            }
        }
        n += 1;
    }
    let sorted = sort_by_key(paths);
    let (branch_map, branches) = group_branches(&sorted, offsets);
    IstanbulFileCoverage {
        path: file.path.clone(),
        statement_map,
        function_map,
        branch_map,
        statements,
        functions,
        branches,
    }
}

/// The report of a file needs its lines: the file has an item that is not a line.
pub open spec fn needs_lines(items: Seq<CoverageItem>) -> bool {
    exists|i: int| 0 <= i < items.len() && !((#[trigger] items[i]).kind is Line)
}

/// Whether the report of a file needs its lines.
pub fn needs_text(items: &Vec<CoverageItem>) -> (needs: bool)
    ensures
        needs == needs_lines(items@),
{
    let mut n: usize = 0;
    while n < items.len()
        invariant
            n <= items@.len(),
            forall|i: int| 0 <= i < n ==> (#[trigger] items@[i]).kind is Line,
        decreases items@.len() - n,
    {
        if !matches!(items[n].kind, CoverageItemKind::Line) {
            assert(!(items@[n as int].kind is Line));
            return true;
        }
        n += 1;
    }
    false
}

/// The lines of a file, or none where the report does not need them.
pub open spec fn lines_for(cache: SourcePositionCache, file: FileItems) -> Option<Seq<usize>> {
    if needs_lines(file.items@) { cache.offsets_of(file.path@) } else { Some(Seq::empty()) }
}

/// Writes the coverage report in the coverage map format.
#[derive(Debug)]
pub struct JsonReporter {
    /// Where the sources lie.
    pub root: String,
    /// Where the report goes.
    pub path: String,
}

impl JsonReporter {
    /// A reporter for sources under `root` that writes to `path`.
    pub fn new(root: String, path: String) -> (reporter: Self)
        ensures
            reporter.root == root,
            reporter.path == path,
    {
        JsonReporter { root, path }
    }

    /// The name of the reporter.
    pub fn name(&self) -> (name: &'static str)
        ensures
            name@ == "json"@,
    {
        "json"
    }

    /// Builds the coverage of files. Fails with the position of the first file whose text is needed
    /// and was not read.
    pub fn report_files(&self, files: &Vec<FileItems>, cache: &SourcePositionCache) -> (coverage: Result<
        Vec<IstanbulFileCoverage>,
        usize,
    >)
        requires
            cache.wf(),
        ensures
            match coverage {
                Ok(coverage) => covers_files(coverage@, files@, *cache),
                Err(at) => first_missing(files@, *cache, at as int),
            },
    {
        let mut coverage: Vec<IstanbulFileCoverage> = Vec::new();
        let none: Vec<usize> = Vec::new();
        assert(none@ =~= Seq::empty());
        let mut k: usize = 0;
        while k < files.len()
            invariant
                cache.wf(),
                none@ == Seq::<usize>::empty(),
                k <= files@.len(),
                coverage@.len() == k,
                forall|j: int|
                    0 <= j < k ==> lines_for(*cache, #[trigger] files@[j]) is Some && covers(
                        coverage@[j],
                        files@[j].path@,
                        files@[j].items@,
                        lines_for(*cache, files@[j])->0,
                    ),
            decreases files@.len() - k,
        {
            let file = &files[k];
            if needs_text(&file.items) {
                match cache.find(file.path.as_str()) {
                    Some(offsets) => {
                        coverage.push(file_coverage(file, offsets));
                    },
                    None => {
                        return Err(k);
                    },
                }
            } else {
                coverage.push(file_coverage(file, &none));
            }
            k += 1;
        }
        Ok(coverage)
    }

    /// Builds the coverage of the files of a report. Fails with the path of the first file whose text is
    /// needed and was not read.
    pub fn report(&self, report: &CoverageReport, cache: &SourcePositionCache) -> (coverage: Result<
        Vec<IstanbulFileCoverage>,
        String,
    >)
        requires
            report.wf(),
            cache.wf(),
        ensures
            exists|files: Table<FileItems>| #[trigger]
                is_by_file(files, *report) && match coverage {
                    Ok(coverage) => covers_files(coverage@, files.entries@, *cache),
                    Err(path) => exists|at: int| #[trigger]
                        first_missing(files.entries@, *cache, at) && files.entries@[at].path@ == path@,
                },
    {
        let files = report.items_by_file();
        match self.report_files(&files.entries, cache) {
            Ok(coverage) => {
                assert(is_by_file(files, *report) && covers_files(coverage@, files.entries@, *cache));
                Ok(coverage)
            },
            Err(at) => {
                assert(is_by_file(files, *report) && first_missing(files.entries@, *cache, at as int));
                Err(files.entries[at].path.clone())
            },
        }
    }
}

/// Every file has its coverage.
pub open spec fn covers_files(
    coverage: Seq<IstanbulFileCoverage>,
    files: Seq<FileItems>,
    cache: SourcePositionCache,
) -> bool {
    &&& coverage.len() == files.len()
    &&& forall|k: int|
        0 <= k < files.len() ==> lines_for(cache, #[trigger] files[k]) is Some && covers(
            coverage[k],
            files[k].path@,
            files[k].items@,
            lines_for(cache, files[k])->0,
        )
}

/// The file is the first one whose text is needed and was not read.
pub open spec fn first_missing(files: Seq<FileItems>, cache: SourcePositionCache, at: int) -> bool {
    &&& 0 <= at < files.len()
    &&& lines_for(cache, files[at]) is None
    &&& forall|k: int| 0 <= k < at ==> lines_for(cache, #[trigger] files[k]) is Some
}

/// Grouping loses no path and keeps their order, puts no path into two groups, and no group holds paths
/// of two branches.
pub proof fn grouping_keeps_paths(paths: Seq<BranchPath>, n: int)
    requires
        0 <= n <= paths.len(),
    ensures
        grouped(paths, n).flatten() == paths.take(n),
        forall|g: int, i: int|
            0 <= g < grouped(paths, n).len() && 0 <= i < (#[trigger] grouped(paths, n)[g]).len() ==> (
            #[trigger] grouped(paths, n)[g][i]).branch_id == grouped(paths, n)[g][0].branch_id,
        forall|g: int| 0 <= g < grouped(paths, n).len() ==> (#[trigger] grouped(paths, n)[g]).len() > 0,
    decreases n,
{
    if n == 0 {
        assert(grouped(paths, 0).flatten() =~= paths.take(0));
    } else {
        grouping_keeps_paths(paths, n - 1);
        let before = grouped(paths, n - 1);
        let now = grouped(paths, n);
        let path = paths[n - 1];
        assert(paths.take(n) =~= paths.take(n - 1).push(path));
        if before.len() > 0 && before.last().len() > 0 && before.last().last().branch_id == path.branch_id {
            let front = before.drop_last();
            front.lemma_flatten_push(before.last());
            front.lemma_flatten_push(before.last().push(path));
            assert(front.push(before.last()) =~= before);
            assert(now.flatten() =~= paths.take(n));
            assert forall|g: int, i: int| 0 <= g < now.len() && 0 <= i < (#[trigger] now[g]).len() implies (
            #[trigger] now[g][i]).branch_id == now[g][0].branch_id by {
                if g < front.len() {
                    assert(now[g] == before[g]);
                } else {
                    assert(before[g] == before.last());
                    if i < before.last().len() {
                        assert(before[g][i].branch_id == before[g][0].branch_id);
                    }
                    assert(before[g][before[g].len() - 1].branch_id == before[g][0].branch_id);
                }
            }
        } else {
            before.lemma_flatten_push(seq![path]);
            assert(now.flatten() =~= paths.take(n));
        }
    }
}

proof fn statements_are_picked(items: Seq<CoverageItem>, n: int)
    requires
        0 <= n <= items.len(),
    ensures
        statements_of(items, n) == items.take(n).filter(|item: CoverageItem| item.kind is Statement),
    decreases n,
{
    let p = |item: CoverageItem| item.kind is Statement;
    if n == 0 {
        picked_empty(p);
        assert(items.take(0) =~= Seq::empty());
    } else {
        statements_are_picked(items, n - 1);
        picked_push(items.take(n - 1), items[n - 1], p);
        assert(items.take(n) =~= items.take(n - 1).push(items[n - 1]));
    }
}

proof fn functions_are_picked(items: Seq<CoverageItem>, n: int)
    requires
        0 <= n <= items.len(),
    ensures
        functions_of(items, n) == items.take(n).filter(|item: CoverageItem| item.kind is Function),
    decreases n,
{
    let p = |item: CoverageItem| item.kind is Function;
    if n == 0 {
        picked_empty(p);
        assert(items.take(0) =~= Seq::empty());
    } else {
        functions_are_picked(items, n - 1);
        picked_push(items.take(n - 1), items[n - 1], p);
        assert(items.take(n) =~= items.take(n - 1).push(items[n - 1]));
    }
}

/// The statement map has an entry for every statement of the file, hit or not, in the order of the items, with
/// the location and the hits of the statement; likewise the function map for the functions.
pub proof fn every_statement_and_function_has_an_entry(
    file: IstanbulFileCoverage,
    path: Seq<char>,
    items: Seq<CoverageItem>,
    offsets: Seq<usize>,
)
    requires
        covers(file, path, items, offsets),
    ensures
        file.path@ == path,
        ({
            let statements = items.filter(|item: CoverageItem| item.kind is Statement);
            &&& file.statement_map@.len() == statements.len()
            &&& file.statements@.len() == statements.len()
            &&& forall|k: int| 0 <= k < statements.len() ==> #[trigger] file.statements@[k] == statements[k].hits
            &&& forall|k: int|
                0 <= k < statements.len() ==> #[trigger] file.statement_map@[k] == location_of(
                    offsets,
                    statements[k].loc,
                )
        }),
        ({
            let functions = items.filter(|item: CoverageItem| item.kind is Function);
            &&& file.function_map@.len() == functions.len()
            &&& file.functions@.len() == functions.len()
            &&& forall|k: int| 0 <= k < functions.len() ==> #[trigger] file.functions@[k] == functions[k].hits
            &&& forall|k: int|
                0 <= k < functions.len() ==> {
                    let entry = #[trigger] file.function_map@[k];
                    &&& entry.name@ == functions[k].kind->Function_name@
                    &&& entry.loc == location_of(offsets, functions[k].loc)
                    &&& entry.decl == entry.loc
                    &&& entry.line == functions[k].loc.lines.start
                }
        }),
{
    let n = items.len() as int;
    statements_are_picked(items, n);
    functions_are_picked(items, n);
    assert(items.take(n) =~= items);
}

/// A location points to the place of an item: line and column of its two ends give back the item's byte offsets,
/// and each line is the one that the offset lies in.
pub proof fn locations_point_to_items(text: Seq<u8>, loc: SourceLocation)
    requires
        text.len() < u32::MAX,
    ensures
        ({
            let starts = line_starts(text, text.len() as int);
            let location = location_of(starts, loc);
            &&& points_to(location.start, starts, loc.bytes.start as int)
            &&& points_to(location.end, starts, loc.bytes.end as int)
        }),
{
    position_gives_back_offset(text, loc.bytes.start as int, loc.lines.start);
    let fallback = if loc.lines.end == 0 { 0 } else { (loc.lines.end - 1) as u32 };
    position_gives_back_offset(text, loc.bytes.end as int, fallback);
}

/// The position is that of an offset in a text whose lines begin at the given places.
pub open spec fn points_to(position: IstanbulPosition, starts: Seq<usize>, offset: int) -> bool {
    &&& 1 <= position.line <= starts.len()
    &&& starts[position.line - 1] + position.column == offset
    &&& position.line < starts.len() ==> offset < starts[position.line as int]
}

/// The item is a path of a branch.
pub open spec fn is_path_of(item: CoverageItem, branch: u32) -> bool {
    match item.kind {
        CoverageItemKind::Branch { branch_id, .. } => branch_id == branch,
        _ => false,
    }
}

/// What the report shows of a path of a branch.
pub open spec fn shown_path(item: CoverageItem) -> BranchPath {
    BranchPath {
        branch_id: item.kind->Branch_branch_id,
        path_id: item.kind->Branch_path_id,
        loc: item.loc,
        hits: item.hits,
    }
}

proof fn paths_are_picked(items: Seq<CoverageItem>, n: int)
    requires
        0 <= n <= items.len(),
    ensures
        paths_of(items, n) == items.take(n).filter(|item: CoverageItem| item.kind is Branch).map_values(
            |item: CoverageItem| shown_path(item),
        ),
    decreases n,
{
    let p = |item: CoverageItem| item.kind is Branch;
    if n == 0 {
        picked_empty(p);
        assert(items.take(0) =~= Seq::empty());
        assert(paths_of(items, n) =~= items.take(n).filter(p).map_values(|item: CoverageItem| shown_path(item)));
    } else {
        paths_are_picked(items, n - 1);
        picked_push(items.take(n - 1), items[n - 1], p);
        assert(items.take(n) =~= items.take(n - 1).push(items[n - 1]));
        assert(paths_of(items, n) =~= items.take(n).filter(p).map_values(|item: CoverageItem| shown_path(item)));
    }
}

proof fn paths_of_one_branch(items: Seq<CoverageItem>, branch: u32)
    ensures
        items.filter(|item: CoverageItem| item.kind is Branch).map_values(
            |item: CoverageItem| shown_path(item),
        ).filter(|path: BranchPath| path.branch_id == branch) == items.filter(
            |item: CoverageItem| is_path_of(item, branch),
        ).map_values(|item: CoverageItem| shown_path(item)),
    decreases items.len(),
{
    let is_branch = |item: CoverageItem| item.kind is Branch;
    let show = |item: CoverageItem| shown_path(item);
    let own = |path: BranchPath| path.branch_id == branch;
    let is_own = |item: CoverageItem| is_path_of(item, branch);
    if items.len() == 0 {
        assert(items =~= Seq::empty());
        picked_empty(is_branch);
        picked_empty(is_own);
        picked_empty(own);
        assert(items.filter(is_branch).map_values(show) =~= Seq::empty());
        assert(items.filter(is_own).map_values(show) =~= Seq::empty());
    } else {
        let front = items.drop_last();
        let last = items.last();
        paths_of_one_branch(front, branch);
        assert(items =~= front.push(last));
        picked_push(front, last, is_branch);
        picked_push(front, last, is_own);
        let before = front.filter(is_branch).map_values(show);
        if last.kind is Branch {
            assert(items.filter(is_branch).map_values(show) =~= before.push(shown_path(last)));
            picked_push(before, shown_path(last), own);
            assert(items.filter(is_own).map_values(show) =~= (if is_own(last) {
                front.filter(is_own).map_values(show).push(shown_path(last))
            } else {
                front.filter(is_own).map_values(show)
            }));
        }
    }
}

/// Branches come in ascending order.
spec fn branches_ascend(paths: Seq<BranchPath>) -> bool {
    forall|i: int, j: int|
        0 <= i < j < paths.len() ==> (#[trigger] paths[i]).branch_id <= (#[trigger] paths[j]).branch_id
}

proof fn groups_are_picked(paths: Seq<BranchPath>, n: int)
    requires
        0 <= n <= paths.len(),
        branches_ascend(paths),
    ensures
        ({
            let groups = grouped(paths, n);
            &&& forall|g: int| 0 <= g < groups.len() ==> (#[trigger] groups[g]).len() > 0
            &&& forall|g: int|
                0 <= g < groups.len() ==> #[trigger] groups[g] == paths.take(n).filter(
                    |path: BranchPath| path.branch_id == groups[g][0].branch_id,
                )
            &&& forall|g: int, h: int|
                0 <= g < h < groups.len() ==> (#[trigger] groups[g])[0].branch_id < (
                #[trigger] groups[h])[0].branch_id
            &&& forall|i: int|
                0 <= i < n ==> exists|g: int|
                    0 <= g < groups.len() && (#[trigger] groups[g])[0].branch_id == (
                    #[trigger] paths[i]).branch_id
            &&& n > 0 ==> groups.len() > 0 && groups.last()[0].branch_id == paths[n - 1].branch_id
                && groups.last().last().branch_id == paths[n - 1].branch_id
        }),
    decreases n,
{
    if n > 0 {
        groups_are_picked(paths, n - 1);
        let before = grouped(paths, n - 1);
        let groups = grouped(paths, n);
        let path = paths[n - 1];
        let taken = paths.take(n - 1);
        assert(paths.take(n) =~= taken.push(path));
        let joins = before.len() > 0 && before.last().len() > 0 && before.last().last().branch_id == path.branch_id;
        if n > 1 {
            assert(paths[n - 2].branch_id <= path.branch_id);
            assert(before[before.len() - 1] == before.last());
        }
        assert forall|g: int| 0 <= g < groups.len() implies (#[trigger] groups[g]).len() > 0 by {
            if g < before.len() {
                assert(before[g].len() > 0);
            }
        }
        assert forall|g: int| 0 <= g < groups.len() implies #[trigger] groups[g] == paths.take(n).filter(
            |path: BranchPath| path.branch_id == groups[g][0].branch_id,
        ) by {
            let own = |path: BranchPath| path.branch_id == groups[g][0].branch_id;
            picked_push(taken, path, own);
            if g < before.len() {
                assert(groups[g][0] == before[g][0]);
                assert(before[g] == taken.filter(|path: BranchPath| path.branch_id == before[g][0].branch_id));
                picked_alike(taken, own, |path: BranchPath| path.branch_id == before[g][0].branch_id);
                if g < before.len() - 1 {
                    assert(before[g][0].branch_id < before[before.len() - 1][0].branch_id);
                }
            } else {
                assert forall|i: int| 0 <= i < taken.len() implies !own(#[trigger] taken[i]) by {
                    assert(taken[i] == paths[i]);
                    if i < n - 2 {
                        assert(paths[i].branch_id <= paths[n - 2].branch_id);
                    }
                }
                picked_nothing(taken, own);
                assert(groups[g] =~= taken.filter(own).push(path));
            }
        }
        assert forall|g: int, h: int| 0 <= g < h < groups.len() implies (#[trigger] groups[g])[0].branch_id < (
        #[trigger] groups[h])[0].branch_id by {
            if h < before.len() {
                assert(groups[g][0] == before[g][0] && groups[h][0] == before[h][0]);
                assert(before[g][0].branch_id < before[h][0].branch_id);
            } else {
                assert(groups[g] == before[g]);
                if g < before.len() - 1 {
                    assert(before[g][0].branch_id < before[before.len() - 1][0].branch_id);
                }
            }
        }
        assert forall|i: int| 0 <= i < n implies exists|g: int|
            0 <= g < groups.len() && (#[trigger] groups[g])[0].branch_id == (#[trigger] paths[i]).branch_id by {
            if i < n - 1 {
                let g = choose|g: int| 0 <= g < before.len() && (#[trigger] before[g])[0].branch_id == paths[i].branch_id;
                assert(groups[g][0] == before[g][0]);
            } else {
                assert(groups[groups.len() - 1][0].branch_id == path.branch_id);
            }
        }
    }
}

/// The branch map has an entry for every branch of the file, in ascending order of the branches' numbers. The
/// entry of a branch has the locations and hits of all paths of the branch, hit or not, and of no others, in
/// ascending order of the paths' numbers.
pub proof fn every_branch_has_an_entry(
    file: IstanbulFileCoverage,
    path: Seq<char>,
    items: Seq<CoverageItem>,
    offsets: Seq<usize>,
) -> (groups: Seq<Seq<BranchPath>>)
    requires
        covers(file, path, items, offsets),
    ensures
        file.branch_map@.len() == groups.len(),
        file.branches@.len() == groups.len(),
        forall|g: int| 0 <= g < groups.len() ==> (#[trigger] groups[g]).len() > 0,
        forall|g: int, h: int|
            0 <= g < h < groups.len() ==> (#[trigger] groups[g])[0].branch_id < (#[trigger] groups[h])[0].branch_id,
        forall|i: int|
            0 <= i < items.len() && (#[trigger] items[i]).kind is Branch ==> exists|g: int|
                0 <= g < groups.len() && (#[trigger] groups[g])[0].branch_id == items[i].kind->Branch_branch_id,
        forall|g: int|
            0 <= g < groups.len() ==> (#[trigger] groups[g]).to_multiset() == items.filter(
                |item: CoverageItem| is_path_of(item, groups[g][0].branch_id),
            ).map_values(|item: CoverageItem| shown_path(item)).to_multiset(),
        forall|g: int, i: int, j: int|
            0 <= g < groups.len() && 0 <= i < j < groups[g].len() ==> (#[trigger] groups[g][i]).path_id <= (
            #[trigger] groups[g][j]).path_id,
        forall|g: int|
            0 <= g < groups.len() ==> (#[trigger] file.branches@[g])@ == groups[g].map_values(
                |path: BranchPath| path.hits,
            ),
        forall|g: int|
            0 <= g < groups.len() ==> (#[trigger] file.branch_map@[g]).locations@ == groups[g].map_values(
                |path: BranchPath| location_of(offsets, path.loc),
            ) && file.branch_map@[g].loc == file.branch_map@[g].locations@[0],
{
    let n = items.len() as int;
    let unsorted = paths_of(items, n);
    let paths = stable_sorted(unsorted);
    let groups = grouped(paths, paths.len() as int);
    stable_sorted_is_sorted(unsorted);
    paths_are_picked(items, n);
    assert(items.take(n) =~= items);
    assert forall|i: int, j: int| 0 <= i < j < paths.len() implies (#[trigger] paths[i]).branch_id <= (
    #[trigger] paths[j]).branch_id && (paths[i].branch_id == paths[j].branch_id ==> paths[i].path_id
        <= paths[j].path_id) by {
        let a = paths[i].sort_key();
        let b = paths[j].sort_key();
        assert(!precedes(b, a));
        if b[0] < a[0] {
            assert(precedes_at(b, a, 0));
        } else if b[0] == a[0] && b[1] < a[1] {
            assert(precedes_at(b, a, 1));
        }
    }
    groups_are_picked(paths, paths.len() as int);
    assert(paths.take(paths.len() as int) =~= paths);
    assert forall|i: int| 0 <= i < items.len() && (#[trigger] items[i]).kind is Branch implies exists|g: int|
        0 <= g < groups.len() && (#[trigger] groups[g])[0].branch_id == items[i].kind->Branch_branch_id by {
        let p = |item: CoverageItem| item.kind is Branch;
        picked_members(items, p);
        assert(items.contains(items[i]));
        assert(items.filter(p).contains(items[i]));
        let k = choose|k: int| 0 <= k < items.filter(p).len() && items.filter(p)[k] == items[i];
        assert(unsorted[k] == shown_path(items[i]));
        unsorted.to_multiset_ensures();
        paths.to_multiset_ensures();
        assert(unsorted.contains(unsorted[k]));
        assert(paths.to_multiset().count(unsorted[k]) > 0);
        assert(paths.contains(unsorted[k]));
        let m = choose|m: int| 0 <= m < paths.len() && paths[m] == unsorted[k];
        assert(paths[m].branch_id == items[i].kind->Branch_branch_id);
    }
    assert forall|g: int| 0 <= g < groups.len() implies (#[trigger] groups[g]).to_multiset() == items.filter(
        |item: CoverageItem| is_path_of(item, groups[g][0].branch_id),
    ).map_values(|item: CoverageItem| shown_path(item)).to_multiset() by {
        let id = groups[g][0].branch_id;
        picked_multisets(paths, unsorted, |path: BranchPath| path.branch_id == id);
        paths_of_one_branch(items, id);
        picked_alike(
            paths,
            |path: BranchPath| path.branch_id == groups[g][0].branch_id,
            |path: BranchPath| path.branch_id == id,
        );
        picked_alike(
            items,
            |item: CoverageItem| is_path_of(item, groups[g][0].branch_id),
            |item: CoverageItem| is_path_of(item, id),
        );
    }
    assert forall|g: int, i: int, j: int| 0 <= g < groups.len() && 0 <= i < j < groups[g].len() implies (
    #[trigger] groups[g][i]).path_id <= (#[trigger] groups[g][j]).path_id by {
        let id = groups[g][0].branch_id;
        let own = |path: BranchPath| path.branch_id == groups[g][0].branch_id;
        picked_keeps_order(paths, own, i, j);
    }
    assert forall|g: int| 0 <= g < groups.len() implies is_branch(
        #[trigger] file.branch_map@[g],
        file.branches@[g]@,
        groups[g],
        offsets,
    ) by {}
    assert forall|g: int| 0 <= g < groups.len() implies (#[trigger] file.branches@[g])@ == groups[g].map_values(
        |path: BranchPath| path.hits,
    ) by {
        assert(is_branch(file.branch_map@[g], file.branches@[g]@, groups[g], offsets));
    }
    groups
}

/// Paths of one branch that come in order are picked in order.
proof fn picked_keeps_order(paths: Seq<BranchPath>, p: spec_fn(BranchPath) -> bool, i: int, j: int)
    requires
        forall|i: int, j: int|
            0 <= i < j < paths.len() && p(paths[i]) && p(paths[j]) ==> (#[trigger] paths[i]).path_id <= (
            #[trigger] paths[j]).path_id,
        0 <= i < j < paths.filter(p).len(),
    ensures
        paths.filter(p)[i].path_id <= paths.filter(p)[j].path_id,
    decreases paths.len(),
{
    if paths.len() == 0 {
        picked_empty(p);
        assert(paths =~= Seq::empty());
    } else {
        let front = paths.drop_last();
        let last = paths.last();
        assert(paths =~= front.push(last));
        picked_push(front, last, p);
        if j < front.filter(p).len() {
            picked_keeps_order(front, p, i, j);
        } else {
            picked_members(front, p);
            let a = front.filter(p)[i];
            assert(front.filter(p).contains(a));
            let k = choose|k: int| 0 <= k < front.len() && front[k] == a;
            assert(paths[k] == a && paths[paths.len() - 1] == last);
        }
    }
}

}
