//! How much of a file was hit, in numbers.
use crate::files::{is_by_file, item_total, report_items, FileItems};
use crate::items::{kind_rank, CoverageItem, CoverageItemKind};
use crate::report::CoverageReport;
use crate::sums::{picked_empty, picked_push, total, total_push};
use crate::table::Table;
use crate::text::{decimal, push_decimal};
use vstd::prelude::*;
use vstd::string::*;

verus! {

/// How many items of each kind there are, and how many of them were hit.
#[derive(Clone, Copy, Debug, PartialEq, Eq, Structural)]
pub struct CoverageSummary {
    pub line_count: usize,
    pub line_hits: usize,
    pub statement_count: usize,
    pub statement_hits: usize,
    pub branch_count: usize,
    pub branch_hits: usize,
    pub function_count: usize,
    pub function_hits: usize,
}

/// How many of the items are of a kind.
pub open spec fn kind_count(items: Seq<CoverageItem>, rank: u64) -> nat
    decreases items.len(),
{
    if items.len() == 0 {
        0
    } else {
        kind_count(items.drop_last(), rank) + (if kind_rank(items.last().kind) == rank { 1nat } else { 0 })
    }
}

/// How many of the items are of a kind and were hit.
pub open spec fn kind_hits(items: Seq<CoverageItem>, rank: u64) -> nat
    decreases items.len(),
{
    if items.len() == 0 {
        0
    } else {
        kind_hits(items.drop_last(), rank) + (if kind_rank(items.last().kind) == rank && items.last().hits > 0 {
            1nat
        } else {
            0
        })
    }
}

/// The summary gives the numbers of the items.
pub open spec fn summarizes(summary: CoverageSummary, items: Seq<CoverageItem>) -> bool {
    &&& summary.line_count == kind_count(items, 0)
    &&& summary.line_hits == kind_hits(items, 0)
    &&& summary.statement_count == kind_count(items, 1)
    &&& summary.statement_hits == kind_hits(items, 1)
    &&& summary.branch_count == kind_count(items, 2)
    &&& summary.branch_hits == kind_hits(items, 2)
    &&& summary.function_count == kind_count(items, 3)
    &&& summary.function_hits == kind_hits(items, 3)
}

/// There are no more items of a kind than items, and no more of them were hit than there are.
pub proof fn kind_count_bounded(items: Seq<CoverageItem>, rank: u64)
    ensures
        kind_hits(items, rank) <= kind_count(items, rank) <= items.len(),
    decreases items.len(),
{
    if items.len() > 0 {
        kind_count_bounded(items.drop_last(), rank);
    }
}

/// The numbers of two lists of items add up to those of both.
pub proof fn kind_count_adds(a: Seq<CoverageItem>, b: Seq<CoverageItem>, rank: u64)
    ensures
        kind_count(a + b, rank) == kind_count(a, rank) + kind_count(b, rank),
        kind_hits(a + b, rank) == kind_hits(a, rank) + kind_hits(b, rank),
    decreases b.len(),
{
    if b.len() == 0 {
        assert(a + b =~= a);
    } else {
        kind_count_adds(a, b.drop_last(), rank);
        assert((a + b).drop_last() =~= a + b.drop_last());
        assert((a + b).last() == b.last());
    }
}

/// A summary of `a` merged with one of `b` is a summary of both.
pub proof fn merged_summary_summarizes(
    x: CoverageSummary,
    y: CoverageSummary,
    z: CoverageSummary,
    a: Seq<CoverageItem>,
    b: Seq<CoverageItem>,
)
    requires
        summarizes(x, a),
        summarizes(y, b),
        is_summary_sum(z, x, y),
    ensures
        summarizes(z, a + b),
{
    kind_count_adds(a, b, 0);
    kind_count_adds(a, b, 1);
    kind_count_adds(a, b, 2);
    kind_count_adds(a, b, 3);
}

proof fn counts_are_picked(items: Seq<CoverageItem>, rank: u64, p: spec_fn(CoverageItem) -> bool)
    requires
        forall|item: CoverageItem| #[trigger] p(item) == (kind_rank(item.kind) == rank),
    ensures
        kind_count(items, rank) == items.filter(p).len(),
    decreases items.len(),
{
    if items.len() == 0 {
        picked_empty(p);
        assert(items =~= Seq::empty());
    } else {
        counts_are_picked(items.drop_last(), rank, p);
        picked_push(items.drop_last(), items.last(), p);
        assert(items =~= items.drop_last().push(items.last()));
    }
}

proof fn hits_are_picked(items: Seq<CoverageItem>, rank: u64, p: spec_fn(CoverageItem) -> bool)
    requires
        forall|item: CoverageItem| #[trigger] p(item) == (kind_rank(item.kind) == rank && item.hits != 0),
    ensures
        kind_hits(items, rank) == items.filter(p).len(),
    decreases items.len(),
{
    if items.len() == 0 {
        picked_empty(p);
        assert(items =~= Seq::empty());
    } else {
        hits_are_picked(items.drop_last(), rank, p);
        picked_push(items.drop_last(), items.last(), p);
        assert(items =~= items.drop_last().push(items.last()));
    }
}

/// A summary counts, for every kind alike, the items of the kind and those of them that were hit at least once.
pub proof fn summary_counts_items(summary: CoverageSummary, items: Seq<CoverageItem>)
    requires
        summarizes(summary, items),
    ensures
        summary.line_count == items.filter(|item: CoverageItem| item.kind is Line).len(),
        summary.line_hits == items.filter(|item: CoverageItem| item.kind is Line && item.hits != 0).len(),
        summary.statement_count == items.filter(|item: CoverageItem| item.kind is Statement).len(),
        summary.statement_hits == items.filter(|item: CoverageItem| item.kind is Statement && item.hits != 0).len(),
        summary.branch_count == items.filter(|item: CoverageItem| item.kind is Branch).len(),
        summary.branch_hits == items.filter(|item: CoverageItem| item.kind is Branch && item.hits != 0).len(),
        summary.function_count == items.filter(|item: CoverageItem| item.kind is Function).len(),
        summary.function_hits == items.filter(|item: CoverageItem| item.kind is Function && item.hits != 0).len(),
{
    counts_are_picked(items, 0, |item: CoverageItem| item.kind is Line);
    counts_are_picked(items, 1, |item: CoverageItem| item.kind is Statement);
    counts_are_picked(items, 2, |item: CoverageItem| item.kind is Branch);
    counts_are_picked(items, 3, |item: CoverageItem| item.kind is Function);
    hits_are_picked(items, 0, |item: CoverageItem| item.kind is Line && item.hits != 0);
    hits_are_picked(items, 1, |item: CoverageItem| item.kind is Statement && item.hits != 0);
    hits_are_picked(items, 2, |item: CoverageItem| item.kind is Branch && item.hits != 0);
    hits_are_picked(items, 3, |item: CoverageItem| item.kind is Function && item.hits != 0);
}

/// Where every item was hit at least once, a summary shows full coverage of every kind; where none was, it shows
/// none.
pub proof fn summary_shows_full_coverage(summary: CoverageSummary, items: Seq<CoverageItem>)
    requires
        summarizes(summary, items),
    ensures
        (forall|i: int| 0 <= i < items.len() ==> (#[trigger] items[i]).hits != 0) ==> summary.line_hits
            == summary.line_count && summary.statement_hits == summary.statement_count && summary.branch_hits
            == summary.branch_count && summary.function_hits == summary.function_count,
        (forall|i: int| 0 <= i < items.len() ==> (#[trigger] items[i]).hits == 0) ==> summary.line_hits == 0
            && summary.statement_hits == 0 && summary.branch_hits == 0 && summary.function_hits == 0,
        summary.line_count + summary.statement_count + summary.branch_count + summary.function_count == items.len(),
{
    extremes(items, 0);
    extremes(items, 1);
    extremes(items, 2);
    extremes(items, 3);
    every_item_has_a_kind(items);
}

proof fn extremes(items: Seq<CoverageItem>, rank: u64)
    ensures
        (forall|i: int| 0 <= i < items.len() ==> (#[trigger] items[i]).hits != 0) ==> kind_hits(items, rank)
            == kind_count(items, rank),
        (forall|i: int| 0 <= i < items.len() ==> (#[trigger] items[i]).hits == 0) ==> kind_hits(items, rank) == 0,
    decreases items.len(),
{
    if items.len() > 0 {
        let front = items.drop_last();
        extremes(front, rank);
        let last = items[items.len() - 1];
        assert(forall|i: int| 0 <= i < front.len() ==> #[trigger] front[i] == items[i]);
    }
}

proof fn every_item_has_a_kind(items: Seq<CoverageItem>)
    ensures
        kind_count(items, 0) + kind_count(items, 1) + kind_count(items, 2) + kind_count(items, 3) == items.len(),
    decreases items.len(),
{
    if items.len() > 0 {
        every_item_has_a_kind(items.drop_last());
    }
}

/// Every number of `z` is the sum of those of `x` and `y`.
pub open spec fn is_summary_sum(z: CoverageSummary, x: CoverageSummary, y: CoverageSummary) -> bool {
    &&& z.line_count == x.line_count + y.line_count
    &&& z.line_hits == x.line_hits + y.line_hits
    &&& z.statement_count == x.statement_count + y.statement_count
    &&& z.statement_hits == x.statement_hits + y.statement_hits
    &&& z.branch_count == x.branch_count + y.branch_count
    &&& z.branch_hits == x.branch_hits + y.branch_hits
    &&& z.function_count == x.function_count + y.function_count
    &&& z.function_hits == x.function_hits + y.function_hits
}

/// The sums of two summaries can be held.
pub open spec fn can_merge(x: CoverageSummary, y: CoverageSummary) -> bool {
    &&& x.line_count + y.line_count <= usize::MAX
    &&& x.line_hits + y.line_hits <= usize::MAX
    &&& x.statement_count + y.statement_count <= usize::MAX
    &&& x.statement_hits + y.statement_hits <= usize::MAX
    &&& x.branch_count + y.branch_count <= usize::MAX
    &&& x.branch_hits + y.branch_hits <= usize::MAX
    &&& x.function_count + y.function_count <= usize::MAX
    &&& x.function_hits + y.function_hits <= usize::MAX
}

impl CoverageSummary {
    /// The summary of no items.
    pub fn new() -> (summary: Self)
        ensures
            summarizes(summary, Seq::empty()),
    {
        CoverageSummary {
            line_count: 0,
            line_hits: 0,
            statement_count: 0,
            statement_hits: 0,
            branch_count: 0,
            branch_hits: 0,
            function_count: 0,
            function_hits: 0,
        }
    }

    /// The summary of items.
    pub fn from_items(items: &Vec<CoverageItem>) -> (summary: Self)
        ensures
            summarizes(summary, items@),
    {
        let mut s = CoverageSummary::new();
        let mut n: usize = 0;
        assert(items@.take(0) =~= Seq::empty());
        while n < items.len()
            invariant
                n <= items@.len(),
                summarizes(s, items@.take(n as int)),
            decreases items@.len() - n,
        {
            let item = &items[n];
            proof {
                let front = items@.take(n as int);
                assert(items@.take(n + 1).drop_last() =~= front);
                assert(items@.take(n + 1).last() == *item);
                kind_count_bounded(front, 0);
                kind_count_bounded(front, 1);
                kind_count_bounded(front, 2);
                kind_count_bounded(front, 3);
            }
            let hit: usize = if item.hits > 0 { 1 } else { 0 };
            match &item.kind {
                CoverageItemKind::Line => {
                    s.line_count = s.line_count + 1;
                    s.line_hits = s.line_hits + hit;
                },
                CoverageItemKind::Statement => {
                    s.statement_count = s.statement_count + 1;
                    s.statement_hits = s.statement_hits + hit;
                },
                CoverageItemKind::Branch { .. } => {
                    s.branch_count = s.branch_count + 1;
                    s.branch_hits = s.branch_hits + hit;
                },
                CoverageItemKind::Function { .. } => {
                    s.function_count = s.function_count + 1;
                    s.function_hits = s.function_hits + hit;
                },
            }
            n += 1;
        }
        assert(items@.take(n as int) =~= items@);
        s
    }

    /// Adds the numbers of another summary.
    pub fn merge(&mut self, other: &CoverageSummary)
        requires
            can_merge(*old(self), *other),
        ensures
            is_summary_sum(*final(self), *old(self), *other),
    {
        self.line_count = self.line_count + other.line_count;
        self.line_hits = self.line_hits + other.line_hits;
        self.statement_count = self.statement_count + other.statement_count;
        self.statement_hits = self.statement_hits + other.statement_hits;
        self.branch_count = self.branch_count + other.branch_count;
        self.branch_hits = self.branch_hits + other.branch_hits;
        self.function_count = self.function_count + other.function_count;
        self.function_hits = self.function_hits + other.function_hits;
    }
}

/// The colour of a cell.
#[derive(Clone, Copy, Debug, PartialEq, Eq, Structural)]
pub enum CellColor {
    Grey,
    Red,
    Yellow,
    Green,
}

/// A cell of the summary: how many items there are, how many were hit, and how it is shown.
#[derive(Debug)]
pub struct SummaryCell {
    pub hits: usize,
    pub total: usize,
    pub color: CellColor,
    pub dim: bool,
    /// The text of the cell; for a cell with items, what follows their percentage.
    pub text: String,
}

/// The numbers of a cell.
pub open spec fn counts_text(hits: usize, total: usize) -> Seq<char> {
    "("@ + decimal(hits as nat) + "/"@ + decimal(total as nat) + ")"@
}

/// The text of a cell; a cell without items has no percentage.
pub open spec fn cell_text(hits: usize, total: usize) -> Seq<char> {
    if total == 0 { "N/A "@ + counts_text(hits, total) } else { counts_text(hits, total) }
}

/// The colour of a cell: red where less than half was hit, yellow where less than three quarters were.
pub open spec fn cell_color(hits: usize, total: usize) -> CellColor {
    if total == 0 {
        CellColor::Grey
    } else if 2 * hits < total {
        CellColor::Red
    } else if 4 * hits < 3 * total {
        CellColor::Yellow
    } else {
        CellColor::Green
    }
}

/// Makes a cell of the summary.
pub fn format_cell(hits: usize, total: usize) -> (cell: SummaryCell)
    ensures
        cell.hits == hits,
        cell.total == total,
        cell.text@ == cell_text(hits, total),
        cell.color == cell_color(hits, total),
        cell.dim == (total == 0),
{
    let mut text = String::new();
    if total == 0 {
        text.append("N/A ");
    }
    text.append("(");
    push_decimal(&mut text, hits as u64);
    text.append("/");
    push_decimal(&mut text, total as u64);
    text.append(")");
    assert(text@ =~= cell_text(hits, total));
    let color = if total == 0 {
        CellColor::Grey
    } else if 2 * (hits as u128) < total as u128 {
        CellColor::Red
    } else if 4 * (hits as u128) < 3 * (total as u128) {
        CellColor::Yellow
    } else {
        CellColor::Green
    };
    SummaryCell { hits, total, color, dim: total == 0, text }
}

/// The summary of a file, or of all files.
#[derive(Debug)]
pub struct SummaryRow {
    pub name: String,
    pub summary: CoverageSummary,
}

/// The items of the first `n` files in turn.
pub open spec fn all_items(files: Seq<FileItems>, n: int) -> Seq<CoverageItem>
    decreases n,
{
    if n <= 0 { Seq::empty() } else { all_items(files, n - 1) + files[n - 1].items@ }
}

proof fn all_items_len(files: Seq<FileItems>, n: int)
    ensures
        all_items(files, n).len() == item_total(files, n),
    decreases n,
{
    if n > 0 {
        all_items_len(files, n - 1);
    }
}

proof fn item_total_grows(files: Seq<FileItems>, n: int, m: int)
    requires
        n <= m,
    ensures
        item_total(files, n) <= item_total(files, m),
    decreases m - n,
{
    if n < m && m > 0 {
        item_total_grows(files, n, m - 1);
    }
}

/// Every number of `z` is that of `x` and of the items together.
pub open spec fn is_sum_with(z: CoverageSummary, x: CoverageSummary, items: Seq<CoverageItem>) -> bool {
    &&& z.line_count == x.line_count + kind_count(items, 0)
    &&& z.line_hits == x.line_hits + kind_hits(items, 0)
    &&& z.statement_count == x.statement_count + kind_count(items, 1)
    &&& z.statement_hits == x.statement_hits + kind_hits(items, 1)
    &&& z.branch_count == x.branch_count + kind_count(items, 2)
    &&& z.branch_hits == x.branch_hits + kind_hits(items, 2)
    &&& z.function_count == x.function_count + kind_count(items, 3)
    &&& z.function_hits == x.function_hits + kind_hits(items, 3)
}

/// The numbers can be held when `n` items are added.
pub open spec fn has_room(x: CoverageSummary, n: nat) -> bool {
    &&& x.line_count + n <= usize::MAX
    &&& x.line_hits + n <= usize::MAX
    &&& x.statement_count + n <= usize::MAX
    &&& x.statement_hits + n <= usize::MAX
    &&& x.branch_count + n <= usize::MAX
    &&& x.branch_hits + n <= usize::MAX
    &&& x.function_count + n <= usize::MAX
    &&& x.function_hits + n <= usize::MAX
}

/// The numbers of a file can be added to those of the files before it.
proof fn next_file_fits(
    start: CoverageSummary,
    before: CoverageSummary,
    next: CoverageSummary,
    files: Seq<FileItems>,
    k: int,
)
    requires
        0 <= k < files.len(),
        has_room(start, item_total(files, files.len() as int)),
        is_sum_with(before, start, all_items(files, k)),
        summarizes(next, files[k].items@),
    ensures
        can_merge(before, next),
        forall|z: CoverageSummary| #[trigger] is_summary_sum(z, before, next) ==> is_sum_with(
            z,
            start,
            all_items(files, k + 1),
        ),
{
    item_total_grows(files, k + 1, files.len() as int);
    all_items_len(files, k + 1);
    assert forall|rank: u64|
        kind_count(all_items(files, k + 1), rank) == #[trigger] kind_count(all_items(files, k), rank) + kind_count(
            files[k].items@,
            rank,
        ) && kind_hits(all_items(files, k + 1), rank) == kind_hits(all_items(files, k), rank) + kind_hits(
            files[k].items@,
            rank,
        ) && kind_hits(all_items(files, k + 1), rank) <= kind_count(all_items(files, k + 1), rank) <= item_total(
            files,
            files.len() as int,
        ) by {
        kind_count_adds(all_items(files, k), files[k].items@, rank);
        kind_count_bounded(all_items(files, k + 1), rank);
    }
}

/// Shows how much of each file was hit, and of all files together.
#[derive(Debug)]
pub struct CoverageSummaryReporter {
    /// The titles of the columns.
    pub header: Vec<&'static str>,
    /// The rows so far.
    pub rows: Vec<SummaryRow>,
    /// The summary of all files so far.
    pub total: CoverageSummary,
}

/// The titles of the columns.
pub open spec fn has_titles(header: Seq<&'static str>) -> bool {
    &&& header.len() == 5
    &&& header[0]@ == "File"@
    &&& header[1]@ == "% Lines"@
    &&& header[2]@ == "% Statements"@
    &&& header[3]@ == "% Branches"@
    &&& header[4]@ == "% Funcs"@
}

impl CoverageSummaryReporter {
    /// A reporter with the titles of the columns, without rows and without numbers.
    pub open spec fn is_fresh(&self) -> bool {
        &&& has_titles(self.header@)
        &&& self.rows@ == Seq::<SummaryRow>::empty()
        &&& summarizes(self.total, Seq::empty())
    }

    /// A reporter with the titles of the columns, without rows and without numbers.
    pub fn new() -> (reporter: Self)
        ensures
            reporter.is_fresh(),
    {
        CoverageSummaryReporter {
            header: vec!["File", "% Lines", "% Statements", "% Branches", "% Funcs"],
            rows: Vec::new(),
            total: CoverageSummary::new(),
        }
    }

    /// The name of the reporter.
    pub fn name(&self) -> (name: &'static str)
        ensures
            name@ == "summary"@,
    {
        "summary"
    }

    /// Adds a row.
    fn add_row(&mut self, name: String, summary: CoverageSummary)
        ensures
            final(self).header == old(self).header,
            final(self).total == old(self).total,
            final(self).rows@ == old(self).rows@.push(SummaryRow { name, summary }),
    {
        self.rows.push(SummaryRow { name, summary });
    }

    /// Adds a row for each file in order, and one for all files together.
    pub fn report_files(&mut self, files: &Vec<FileItems>)
        requires
            has_room(old(self).total, item_total(files@, files@.len() as int)),
        ensures
            rows_added(*final(self), *old(self), files@),
    {
        let ghost was = *self;
        let ghost n = was.rows@.len() as int;
        let mut k: usize = 0;
        while k < files.len()
            invariant
                was == *old(self),
                n == was.rows@.len(),
                has_room(was.total, item_total(files@, files@.len() as int)),
                k <= files@.len(),
                self.header == was.header,
                self.rows@.len() == n + k,
                forall|j: int| 0 <= j < n ==> #[trigger] self.rows@[j] == was.rows@[j],
                forall|j: int|
                    0 <= j < k ==> is_row_of(#[trigger] self.rows@[n + j], files@[j]),
                is_sum_with(self.total, was.total, all_items(files@, k as int)),
            decreases files@.len() - k,
        {
            let file = &files[k];
            let summary = CoverageSummary::from_items(&file.items);
            proof {
                next_file_fits(was.total, self.total, summary, files@, k as int);
            }
            self.total.merge(&summary);
            let ghost before = self.rows@;
            self.add_row(file.path.clone(), summary);
            proof {
                assert forall|j: int| 0 <= j < k + 1 implies is_row_of(#[trigger] self.rows@[n + j], files@[j]) by {
                    if j < k {
                        assert(self.rows@[n + j] == before[n + j]);
                    }
                }
            }
            k += 1;
        }
        let total = self.total;
        let ghost before = self.rows@;
        self.add_row("Total".to_owned(), total);
        proof {
            assert forall|j: int| 0 <= j < files@.len() implies is_row_of(#[trigger] self.rows@[n + j], files@[j]) by {
                assert(self.rows@[n + j] == before[n + j]);
            }
        }
    }

    /// Adds a row for each file of a report in order, and one for all files together.
    pub fn report(&mut self, report: &CoverageReport)
        requires
            report.wf(),
            has_room(old(self).total, report_items(*report, report.analyses.entries@.len() as int)),
        ensures
            exists|files: Table<FileItems>| #[trigger]
                is_by_file(files, *report) && rows_added(*final(self), *old(self), files.entries@),
    {
        let files = report.items_by_file();
        self.report_files(&files.entries);
        assert(is_by_file(files, *report) && rows_added(*self, *old(self), files.entries@));
    }
}

/// The row is that of a file.
pub open spec fn is_row_of(row: SummaryRow, file: FileItems) -> bool {
    row.name@ == file.path@ && summarizes(row.summary, file.items@)
}

/// Behind the rows that were there come those of the files, and one for all files so far together.
pub open spec fn rows_added(
    new: CoverageSummaryReporter,
    was: CoverageSummaryReporter,
    files: Seq<FileItems>,
) -> bool {
    let n = was.rows@.len() as int;
    &&& new.header == was.header
    &&& new.rows@.len() == n + files.len() + 1
    &&& forall|k: int| 0 <= k < n ==> #[trigger] new.rows@[k] == was.rows@[k]
    &&& forall|k: int| 0 <= k < files.len() ==> is_row_of(#[trigger] new.rows@[n + k], files[k])
    &&& new.rows@.last().name@ == "Total"@
    &&& new.rows@.last().summary == new.total
    &&& is_sum_with(new.total, was.total, all_items(files, files.len() as int))
}

proof fn added_counts(files: Seq<FileItems>, n: int, rank: u64)
    requires
        0 <= n <= files.len(),
    ensures
        kind_count(all_items(files, n), rank) == total(Seq::new(n as nat, |k: int| kind_count(files[k].items@, rank))),
        kind_hits(all_items(files, n), rank) == total(Seq::new(n as nat, |k: int| kind_hits(files[k].items@, rank))),
    decreases n,
{
    let counts = Seq::new(n as nat, |k: int| kind_count(files[k].items@, rank));
    let hits = Seq::new(n as nat, |k: int| kind_hits(files[k].items@, rank));
    if n == 0 {
        assert(counts =~= Seq::empty());
        assert(hits =~= Seq::empty());
    } else {
        added_counts(files, n - 1, rank);
        kind_count_adds(all_items(files, n - 1), files[n - 1].items@, rank);
        let counts_before = Seq::new((n - 1) as nat, |k: int| kind_count(files[k].items@, rank));
        let hits_before = Seq::new((n - 1) as nat, |k: int| kind_hits(files[k].items@, rank));
        assert(counts =~= counts_before.push(kind_count(files[n - 1].items@, rank)));
        assert(hits =~= hits_before.push(kind_hits(files[n - 1].items@, rank)));
        total_push(counts_before, kind_count(files[n - 1].items@, rank));
        total_push(hits_before, kind_hits(files[n - 1].items@, rank));
    }
}

/// A new reporter has a row for every file in turn, with the file's path and the counts of its items, and a last
/// row in which every number is the sum of those in the rows before it.
pub proof fn last_row_is_the_sum(new: CoverageSummaryReporter, was: CoverageSummaryReporter, files: Seq<FileItems>)
    requires
        was.is_fresh(),
        rows_added(new, was, files),
    ensures
        new.rows@.len() == files.len() + 1,
        forall|k: int|
            0 <= k < files.len() ==> (#[trigger] new.rows@[k]).name@ == files[k].path@ && summarizes(
                new.rows@[k].summary,
                files[k].items@,
            ),
        new.rows@.last().name@ == "Total"@,
        ({
            let rows = new.rows@.drop_last();
            let last = new.rows@.last().summary;
            &&& last.line_count == total(rows.map_values(|row: SummaryRow| row.summary.line_count as nat))
            &&& last.line_hits == total(rows.map_values(|row: SummaryRow| row.summary.line_hits as nat))
            &&& last.statement_count == total(rows.map_values(|row: SummaryRow| row.summary.statement_count as nat))
            &&& last.statement_hits == total(rows.map_values(|row: SummaryRow| row.summary.statement_hits as nat))
            &&& last.branch_count == total(rows.map_values(|row: SummaryRow| row.summary.branch_count as nat))
            &&& last.branch_hits == total(rows.map_values(|row: SummaryRow| row.summary.branch_hits as nat))
            &&& last.function_count == total(rows.map_values(|row: SummaryRow| row.summary.function_count as nat))
            &&& last.function_hits == total(rows.map_values(|row: SummaryRow| row.summary.function_hits as nat))
        }),
{
    let n = files.len() as int;
    let rows = new.rows@.drop_last();
    assert forall|k: int| 0 <= k < files.len() implies is_row_of(#[trigger] new.rows@[k], files[k]) by {
        assert(is_row_of(new.rows@[0 + k], files[k]));
    }
    added_counts(files, n, 0);
    added_counts(files, n, 1);
    added_counts(files, n, 2);
    added_counts(files, n, 3);
    assert forall|k: int| 0 <= k < n implies is_row_of(#[trigger] rows[k], files[k]) by {
        assert(rows[k] == new.rows@[k]);
    }
    assert(rows.map_values(|row: SummaryRow| row.summary.line_count as nat) =~= Seq::new(
        n as nat,
        |k: int| kind_count(files[k].items@, 0),
    ));
    assert(rows.map_values(|row: SummaryRow| row.summary.line_hits as nat) =~= Seq::new(
        n as nat,
        |k: int| kind_hits(files[k].items@, 0),
    ));
    assert(rows.map_values(|row: SummaryRow| row.summary.statement_count as nat) =~= Seq::new(
        n as nat,
        |k: int| kind_count(files[k].items@, 1),
    ));
    assert(rows.map_values(|row: SummaryRow| row.summary.statement_hits as nat) =~= Seq::new(
        n as nat,
        |k: int| kind_hits(files[k].items@, 1),
    ));
    assert(rows.map_values(|row: SummaryRow| row.summary.branch_count as nat) =~= Seq::new(
        n as nat,
        |k: int| kind_count(files[k].items@, 2),
    ));
    assert(rows.map_values(|row: SummaryRow| row.summary.branch_hits as nat) =~= Seq::new(
        n as nat,
        |k: int| kind_hits(files[k].items@, 2),
    ));
    assert(rows.map_values(|row: SummaryRow| row.summary.function_count as nat) =~= Seq::new(
        n as nat,
        |k: int| kind_count(files[k].items@, 3),
    ));
    assert(rows.map_values(|row: SummaryRow| row.summary.function_hits as nat) =~= Seq::new(
        n as nat,
        |k: int| kind_hits(files[k].items@, 3),
    ));
}

/// More hits of the same items never give a worse colour, and all items hit are green.
pub proof fn colours_follow_hits(hits: usize, more: usize, all: usize)
    requires
        hits <= more <= all,
        all > 0,
    ensures
        cell_color(more, all) == CellColor::Red ==> cell_color(hits, all) == CellColor::Red,
        cell_color(hits, all) == CellColor::Green ==> cell_color(more, all) == CellColor::Green,
        cell_color(all, all) == CellColor::Green,
        cell_color(0, all) == CellColor::Red,
        cell_color(hits, all) == CellColor::Red <==> hits + hits < all,
        cell_color(hits, all) == CellColor::Green <==> 4 * (all - hits) <= all,
        cell_color(hits, all) != CellColor::Grey,
{
}

}
