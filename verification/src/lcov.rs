//! The report in the tracefile format of LCOV.
use crate::files::{is_by_file, items_at, items_in, items_in_builds, FileItems};
use crate::items::{CoverageItem, CoverageItemKind};
use crate::report::CoverageReport;
use crate::summary::{kind_count, kind_hits, CoverageSummary};
use crate::table::{by_key_of_entry, Table};
use crate::text::{
    chars_of, decimal, decimal_has_digits, decimal_has_no_leading_zero, decimal_injective, decimal_prefix, digit,
    is_digit, push_decimal,
};
use crate::version::{not_before, Version};
use std::collections::HashSet;
use vstd::prelude::*;
use vstd::string::*;

verus! {

broadcast use vstd::std_specs::hash::group_hash_axioms;

/// The item counts for its line as such: it is a line or a statement.
pub open spec fn marks_line(item: CoverageItem) -> bool {
    item.kind is Line || item.kind is Statement
}

/// The item is the first of a file that counts for its line.
pub open spec fn first_of_line(items: Seq<CoverageItem>, i: int) -> bool {
    marks_line(items[i]) && !marked_before(items, i, items[i].loc.lines.start)
}

/// One of the first `n` items counts for the line.
pub open spec fn marked_before(items: Seq<CoverageItem>, n: int, line: u32) -> bool {
    exists|j: int| 0 <= j < n && marks_line(#[trigger] items[j]) && items[j].loc.lines.start == line
}

/// One of the first `n` items counts for the line and was hit.
pub open spec fn hit_before(items: Seq<CoverageItem>, n: int, line: u32) -> bool {
    exists|j: int|
        0 <= j < n && marks_line(#[trigger] items[j]) && items[j].loc.lines.start == line && items[j].hits > 0
}

/// The name of a function, with that of its contract if it has one.
pub open spec fn full_name(item: CoverageItem, name: Seq<char>) -> Seq<char> {
    if item.loc.contract_name@.len() == 0 { name } else { item.loc.contract_name@ + "."@ + name }
}

/// Where a function is. The second version of the format adds the last line, and its second revision
/// numbers the functions of all files in turn.
pub open spec fn place_record(item: CoverageItem, name: Seq<char>, version: Version, index: usize) -> Seq<char> {
    let line = decimal(item.loc.lines.start as nat);
    let end_line = decimal((item.loc.lines.end - 1) as nat);
    if not_before(version, 2, 2, 0) {
        "FNL:"@ + decimal(index as nat) + ","@ + line + ","@ + end_line + "\n"@
    } else if not_before(version, 2, 0, 0) {
        "FN:"@ + line + ","@ + end_line + ","@ + name + "\n"@
    } else {
        "FN:"@ + line + ","@ + name + "\n"@
    }
}

/// How often a function was called.
pub open spec fn calls_record(item: CoverageItem, name: Seq<char>, version: Version, index: usize) -> Seq<char> {
    let hits = decimal(item.hits as nat);
    if not_before(version, 2, 2, 0) {
        "FNA:"@ + decimal(index as nat) + ","@ + hits + ","@ + name + "\n"@
    } else {
        "FNDA:"@ + hits + ","@ + name + "\n"@
    }
}

/// The records of a function: where it is, and how often it was called.
pub open spec fn function_records(item: CoverageItem, name: Seq<char>, version: Version, index: usize) -> Seq<char> {
    place_record(item, full_name(item, name), version, index) + calls_record(
        item,
        full_name(item, name),
        version,
        index,
    )
}

/// How often a path of a branch was taken: `-` where its line was not run at all.
pub open spec fn taken_text(items: Seq<CoverageItem>, i: int) -> Seq<char> {
    if items[i].hits > 0 {
        decimal(items[i].hits as nat)
    } else if hit_before(items, items.len() as int, items[i].loc.lines.start) {
        "0"@
    } else {
        "-"@
    }
}

/// The records of an item. Of the lines and statements on a line only the first has one.
pub open spec fn item_records(items: Seq<CoverageItem>, i: int, version: Version, index: usize) -> Seq<char> {
    let item = items[i];
    match item.kind {
        CoverageItemKind::Function { name } => function_records(item, name@, version, index),
        CoverageItemKind::Branch { branch_id, path_id, .. } => "BRDA:"@ + decimal(item.loc.lines.start as nat) + ","@
            + decimal(branch_id as nat) + ","@ + decimal(path_id as nat) + ","@ + taken_text(items, i) + "\n"@,
        _ => if first_of_line(items, i) {
            "DA:"@ + decimal(item.loc.lines.start as nat) + ","@ + decimal(item.hits as nat) + "\n"@
        } else {
            Seq::empty()
        },
    }
}

/// The number after `n`; it starts over where numbers end.
pub open spec fn number_after(n: usize) -> usize {
    if n == usize::MAX { 0 } else { (n + 1) as usize }
}

/// The number of the next function after the first `n` items.
pub open spec fn index_after(items: Seq<CoverageItem>, n: int, version: Version, index: usize) -> usize
    decreases n,
{
    if n <= 0 {
        index
    } else {
        let before = index_after(items, n - 1, version, index);
        if items[n - 1].kind is Function && not_before(version, 2, 2, 0) { number_after(before) } else { before }
    }
}

/// The records of the first `n` items.
pub open spec fn all_records(items: Seq<CoverageItem>, n: int, version: Version, index: usize) -> Seq<char>
    decreases n,
{
    if n <= 0 {
        Seq::empty()
    } else {
        all_records(items, n - 1, version, index) + item_records(
            items,
            n - 1,
            version,
            index_after(items, n - 1, version, index),
        )
    }
}

/// How many functions, lines and branch paths there are, and how many of them were hit.
pub open spec fn totals_text(items: Seq<CoverageItem>) -> Seq<char> {
    "FNF:"@ + decimal(kind_count(items, 3)) + "\nFNH:"@ + decimal(kind_hits(items, 3)) + "\nLF:"@ + decimal(
        kind_count(items, 0),
    ) + "\nLH:"@ + decimal(kind_hits(items, 0)) + "\nBRF:"@ + decimal(kind_count(items, 2)) + "\nBRH:"@ + decimal(
        kind_hits(items, 2),
    ) + "\nend_of_record\n"@
}

/// The part of the tracefile for a file.
pub open spec fn file_text(path: Seq<char>, items: Seq<CoverageItem>, version: Version, index: usize) -> Seq<char> {
    "TN:\nSF:"@ + path + "\n"@ + all_records(items, items.len() as int, version, index) + totals_text(items)
}

/// The number of the next function after the first `n` files.
pub open spec fn index_after_files(files: Seq<FileItems>, n: int, version: Version) -> usize
    decreases n,
{
    if n <= 0 {
        0
    } else {
        index_after(
            files[n - 1].items@,
            files[n - 1].items@.len() as int,
            version,
            index_after_files(files, n - 1, version),
        )
    }
}

/// The tracefile of the first `n` files.
pub open spec fn lcov_text(files: Seq<FileItems>, n: int, version: Version) -> Seq<char>
    decreases n,
{
    if n <= 0 {
        Seq::empty()
    } else {
        lcov_text(files, n - 1, version) + file_text(
            files[n - 1].path@,
            files[n - 1].items@,
            version,
            index_after_files(files, n - 1, version),
        )
    }
}

/// Every line range of an item has an end.
pub open spec fn lines_end(items: Seq<CoverageItem>) -> bool {
    forall|i: int| 0 <= i < items.len() ==> (#[trigger] items[i]).loc.lines.end > 0
}

fn push_function(out: &mut String, item: &CoverageItem, name: &String, version: &Version, index: usize)
    requires
        item.loc.lines.end > 0,
    ensures
        final(out)@ == old(out)@ + function_records(*item, name@, *version, index),
{
    let mut full = String::new();
    if item.loc.contract_name.as_str().unicode_len() > 0 {
        full.append(item.loc.contract_name.as_str());
        full.append(".");
    }
    full.append(name.as_str());
    assert(full@ =~= full_name(*item, name@));
    push_place(out, item, &full, version, index);
    push_calls(out, item, &full, version, index);
    assert(out@ =~= old(out)@ + function_records(*item, name@, *version, index));
}

fn push_place(out: &mut String, item: &CoverageItem, name: &String, version: &Version, index: usize)
    requires
        item.loc.lines.end > 0,
    ensures
        final(out)@ == old(out)@ + place_record(*item, name@, *version, index),
{
    let line: u64 = item.loc.lines.start as u64;
    let end_line: u64 = (item.loc.lines.end - 1) as u64;
    let ghost start = out@;
    if version.at_least(2, 2, 0) {
        out.append("FNL:");
        push_decimal(out, index as u64);
        out.append(",");
        push_decimal(out, line);
        out.append(",");
        push_decimal(out, end_line);
        out.append("\n");
        assert(out@ =~= start + place_record(*item, name@, *version, index));
    } else if version.at_least(2, 0, 0) {
        out.append("FN:");
        push_decimal(out, line);
        out.append(",");
        push_decimal(out, end_line);
        out.append(",");
        out.append(name.as_str());
        out.append("\n");
        assert(out@ =~= start + place_record(*item, name@, *version, index));
    } else {
        out.append("FN:");
        push_decimal(out, line);
        out.append(",");
        out.append(name.as_str());
        out.append("\n");
        assert(out@ =~= start + place_record(*item, name@, *version, index));
    }
}

fn push_calls(out: &mut String, item: &CoverageItem, name: &String, version: &Version, index: usize)
    ensures
        final(out)@ == old(out)@ + calls_record(*item, name@, *version, index),
{
    let ghost start = out@;
    if version.at_least(2, 2, 0) {
        out.append("FNA:");
        push_decimal(out, index as u64);
        out.append(",");
        push_decimal(out, item.hits as u64);
        out.append(",");
        out.append(name.as_str());
        out.append("\n");
        assert(out@ =~= start + calls_record(*item, name@, *version, index));
    } else {
        out.append("FNDA:");
        push_decimal(out, item.hits as u64);
        out.append(",");
        out.append(name.as_str());
        out.append("\n");
        assert(out@ =~= start + calls_record(*item, name@, *version, index));
    }
}

/// The lines on which something that counts for its line was hit.
fn hit_lines(items: &Vec<CoverageItem>) -> (lines: HashSet<u32>)
    ensures
        forall|line: u32| #[trigger] lines@.contains(line) <==> hit_before(items@, items@.len() as int, line),
{
    let mut lines: HashSet<u32> = HashSet::new();
    let mut n: usize = 0;
    while n < items.len()
        invariant
            n <= items@.len(),
            forall|line: u32| #[trigger] lines@.contains(line) <==> hit_before(items@, n as int, line),
        decreases items@.len() - n,
    {
        let item = &items[n];
        let marks = matches!(item.kind, CoverageItemKind::Line) || matches!(item.kind, CoverageItemKind::Statement);
        let ghost before = lines@;
        if marks && item.hits > 0 {
            lines.insert(item.loc.lines.start);
        }
        proof {
            assert forall|line: u32| #[trigger] lines@.contains(line) <==> hit_before(items@, n + 1, line) by {
                if hit_before(items@, n as int, line) {
                    let j = choose|j: int|
                        0 <= j < n && marks_line(#[trigger] items@[j]) && items@[j].loc.lines.start == line
                            && items@[j].hits > 0;
                    assert(0 <= j < n + 1 && marks_line(items@[j]));
                }
                assert(before.contains(line) <==> hit_before(items@, n as int, line));
                if marks && item.hits > 0 && item.loc.lines.start == line {
                    assert(marks_line(items@[n as int]));
                }
            }
        }
        n += 1;
    }
    lines
}

fn push_totals(out: &mut String, items: &Vec<CoverageItem>)
    ensures
        final(out)@ == old(out)@ + totals_text(items@),
{
    let summary = CoverageSummary::from_items(items);
    out.append("FNF:");
    push_decimal(out, summary.function_count as u64);
    out.append("\nFNH:");
    push_decimal(out, summary.function_hits as u64);
    out.append("\nLF:");
    push_decimal(out, summary.line_count as u64);
    out.append("\nLH:");
    push_decimal(out, summary.line_hits as u64);
    out.append("\nBRF:");
    push_decimal(out, summary.branch_count as u64);
    out.append("\nBRH:");
    push_decimal(out, summary.branch_hits as u64);
    out.append("\nend_of_record\n");
    assert(out@ =~= old(out)@ + totals_text(items@));
}

/// Writes the records of an item, given whether its line was hit and whether it has a record yet.
fn push_item(
    out: &mut String,
    items: &Vec<CoverageItem>,
    n: usize,
    version: &Version,
    index: usize,
    line_hit: bool,
    line_recorded: bool,
)
    requires
        n < items@.len(),
        items@[n as int].loc.lines.end > 0,
        line_hit == hit_before(items@, items@.len() as int, items@[n as int].loc.lines.start),
        line_recorded == marked_before(items@, n as int, items@[n as int].loc.lines.start),
    ensures
        final(out)@ == old(out)@ + item_records(items@, n as int, *version, index),
{
    let item = &items[n];
    let line: u64 = item.loc.lines.start as u64;
    match &item.kind {
        CoverageItemKind::Function { name } => {
            push_function(out, item, name, version, index);
        },
        CoverageItemKind::Branch { branch_id, path_id, .. } => {
            out.append("BRDA:");
            push_decimal(out, line);
            out.append(",");
            push_decimal(out, *branch_id as u64);
            out.append(",");
            push_decimal(out, *path_id as u64);
            out.append(",");
            if item.hits > 0 {
                push_decimal(out, item.hits as u64);
            } else if line_hit {
                out.append("0");
            } else {
                out.append("-");
            }
            out.append("\n");
        },
        _ => {
            if !line_recorded {
                out.append("DA:");
                push_decimal(out, line);
                out.append(",");
                push_decimal(out, item.hits as u64);
                out.append("\n");
            }
        },
    }
    assert(out@ =~= old(out)@ + item_records(items@, n as int, *version, index));
}

/// Writes the part of the tracefile for a file, and gives the number of the next function.
pub fn push_file(out: &mut String, file: &FileItems, version: &Version, index: usize) -> (next: usize)
    requires
        lines_end(file.items@),
    ensures
        final(out)@ == old(out)@ + file_text(file.path@, file.items@, *version, index),
        next == index_after(file.items@, file.items@.len() as int, *version, index),
{
    let items = &file.items;
    let hit = hit_lines(items);
    let mut recorded: HashSet<u32> = HashSet::new();
    let mut next: usize = index;
    out.append("TN:\nSF:");
    out.append(file.path.as_str());
    out.append("\n");
    let ghost head = out@;
    let mut n: usize = 0;
    assert(out@ =~= head + all_records(items@, 0, *version, index));
    while n < items.len()
        invariant
            *items == file.items,
            n <= items@.len(),
            lines_end(items@),
            forall|line: u32| #[trigger] hit@.contains(line) <==> hit_before(items@, items@.len() as int, line),
            forall|line: u32| #[trigger] recorded@.contains(line) <==> marked_before(items@, n as int, line),
            next == index_after(items@, n as int, *version, index),
            out@ == head + all_records(items@, n as int, *version, index),
        decreases items@.len() - n,
    {
        let item = &items[n];
        let line = item.loc.lines.start;
        let ghost before = out@;
        let ghost recorded_before = recorded@;
        let line_hit = hit.contains(&line);
        let line_recorded = recorded.contains(&line);
        push_item(out, items, n, version, next, line_hit, line_recorded);
        assert(out@ =~= head + all_records(items@, n + 1, *version, index));
        let mut marks = false;
        match &item.kind {
            CoverageItemKind::Function { .. } => {
                if version.at_least(2, 2, 0) {
                    next = if next == usize::MAX { 0 } else { next + 1 };
                }
            },
            CoverageItemKind::Branch { .. } => {},
            _ => {
                marks = true;
                recorded.insert(line);
            },
        }
        proof {
            assert(marks == marks_line(items@[n as int]));
            assert forall|l: u32| #[trigger] recorded@.contains(l) <==> marked_before(items@, n + 1, l) by {
                assert(recorded_before.contains(l) <==> marked_before(items@, n as int, l));
                if marked_before(items@, n as int, l) {
                    let j = choose|j: int|
                        0 <= j < n && marks_line(#[trigger] items@[j]) && items@[j].loc.lines.start == l;
                    assert(0 <= j < n + 1 && marks_line(items@[j]));
                }
                if marks_line(items@[n as int]) && line == l {
                    assert(marked_before(items@, n + 1, l));
                }
            }
        }
        n += 1;
    }
    push_totals(out, items);
    assert(out@ =~= old(out)@ + file_text(file.path@, file.items@, *version, index));
    next
}

/// Every line range of an item of the report has an end.
pub open spec fn report_lines_end(report: CoverageReport) -> bool {
    forall|k: int| 0 <= k < report.analyses.entries@.len() ==> lines_end(
        (#[trigger] report.analyses.entries@[k]).analysis.items@,
    )
}

proof fn items_in_lines_end(report: CoverageReport, build: Seq<char>, items: Seq<CoverageItem>, n: int, path: Seq<char>)
    requires
        lines_end(items),
        n <= items.len(),
    ensures
        lines_end(items_in(report, build, items, n, path)),
    decreases n,
{
    if n > 0 {
        items_in_lines_end(report, build, items, n - 1, path);
    }
}

proof fn builds_lines_end(report: CoverageReport, n: int, path: Seq<char>)
    requires
        report_lines_end(report),
        n <= report.analyses.entries@.len(),
    ensures
        lines_end(items_in_builds(report, n, path)),
    decreases n,
{
    if n > 0 {
        builds_lines_end(report, n - 1, path);
        let entry = report.analyses.entries@[n - 1];
        items_in_lines_end(report, entry.build_id@, entry.analysis.items@, entry.analysis.items@.len() as int, path);
    }
}

/// Writes the coverage report as a tracefile.
#[derive(Debug)]
pub struct LcovReporter {
    /// Where the tracefile goes.
    pub path: String,
    /// The version of the format.
    pub version: Version,
}

impl LcovReporter {
    /// A reporter that writes to `path`.
    pub fn new(path: String, version: Version) -> (reporter: Self)
        ensures
            reporter.path == path,
            reporter.version == version,
    {
        LcovReporter { path, version }
    }

    /// The name of the reporter.
    pub fn name(&self) -> (name: &'static str)
        ensures
            name@ == "lcov"@,
    {
        "lcov"
    }

    /// Writes the tracefile of files.
    pub fn report_files(&self, files: &Vec<FileItems>) -> (out: String)
        requires
            forall|k: int| 0 <= k < files@.len() ==> lines_end((#[trigger] files@[k]).items@),
        ensures
            out@ == lcov_text(files@, files@.len() as int, self.version),
    {
        let mut out = String::new();
        let mut index: usize = 0;
        let mut k: usize = 0;
        while k < files.len()
            invariant
                k <= files@.len(),
                forall|k: int| 0 <= k < files@.len() ==> lines_end((#[trigger] files@[k]).items@),
                index == index_after_files(files@, k as int, self.version),
                out@ == lcov_text(files@, k as int, self.version),
            decreases files@.len() - k,
        {
            index = push_file(&mut out, &files[k], &self.version, index);
            k += 1;
        }
        out
    }

    /// Writes the tracefile of a report.
    pub fn report(&self, report: &CoverageReport) -> (out: String)
        requires
            report.wf(),
            report_lines_end(*report),
        ensures
            exists|files: Table<FileItems>| #[trigger]
                is_by_file(files, *report) && out@ == lcov_text(
                    files.entries@,
                    files.entries@.len() as int,
                    self.version,
                ),
    {
        let files = report.items_by_file();
        proof {
            assert forall|k: int| 0 <= k < files.entries@.len() implies lines_end((#[trigger] files.entries@[k]).items@) by {
                by_key_of_entry(files.entries@, k);
                let path = files.entries@[k].path@;
                assert(items_at(files@, path) == files.entries@[k].items@);
                builds_lines_end(*report, report.analyses.entries@.len() as int, path);
            }
            assert(is_by_file(files, *report));
        }
        self.report_files(&files.entries)
    }
}

/// Every line with a line or a statement on it has exactly one record: one of its items is the first, and
/// only one.
pub proof fn one_record_per_line(items: Seq<CoverageItem>, line: u32)
    requires
        marked_before(items, items.len() as int, line),
    ensures
        exists|i: int| 0 <= i < items.len() && #[trigger] first_of_line(items, i) && items[i].loc.lines.start == line,
        forall|i: int, j: int|
            0 <= i < items.len() && 0 <= j < items.len() && #[trigger] first_of_line(items, i)
                && #[trigger] first_of_line(items, j) && items[i].loc.lines.start == line
                && items[j].loc.lines.start == line ==> i == j,
{
    let k = choose|k: int|
        0 <= k < items.len() && marks_line(#[trigger] items[k]) && items[k].loc.lines.start == line;
    line_has_first(items, k);
}

proof fn line_has_first(items: Seq<CoverageItem>, k: int)
    requires
        0 <= k < items.len(),
        marks_line(items[k]),
    ensures
        exists|i: int|
            0 <= i < items.len() && #[trigger] first_of_line(items, i) && items[i].loc.lines.start
                == items[k].loc.lines.start,
    decreases k,
{
    if marked_before(items, k, items[k].loc.lines.start) {
        let j = choose|j: int|
            0 <= j < k && marks_line(#[trigger] items[j]) && items[j].loc.lines.start == items[k].loc.lines.start;
        line_has_first(items, j);
    } else {
        assert(first_of_line(items, k));
    }
}

/// A digit's value.
fn digit_value(c: char) -> (value: Option<u64>)
    ensures
        value is Some <==> is_digit(c),
        value is Some ==> value->0 < 10 && digit(value->0 as nat) == c,
{
    if c == '0' { Some(0) } else if c == '1' { Some(1) } else if c == '2' { Some(2) } else if c == '3' { Some(3) }
    else if c == '4' { Some(4) } else if c == '5' { Some(5) } else if c == '6' { Some(6) } else if c == '7' { Some(7) }
    else if c == '8' { Some(8) } else if c == '9' { Some(9) } else { None }
}

/// Reads a number without leading zeros that can be held.
fn parse_number(chars: &Vec<char>, from: usize, to: usize) -> (number: Option<u64>)
    requires
        from <= to <= chars@.len(),
    ensures
        match number {
            Some(n) => chars@.subrange(from as int, to as int) == decimal(n as nat),
            None => forall|n: u64| chars@.subrange(from as int, to as int) != #[trigger] decimal(n as nat),
        },
{
    let ghost all = chars@.subrange(from as int, to as int);
    if from == to {
        assert forall|n: u64| all != #[trigger] decimal(n as nat) by {
            decimal_has_digits(n as nat);
        }
        return None;
    }
    let mut value: u64 = 0;
    let mut i: usize = from;
    while i < to
        invariant
            from <= i <= to <= chars@.len(),
            from < to,
            all == chars@.subrange(from as int, to as int),
            i == from ==> value == 0,
            i > from ==> all.take(i - from) == decimal(value as nat),
        decreases to - i,
    {
        let k: Ghost<int> = Ghost(i - from);
        let digit = match digit_value(chars[i]) {
            Some(digit) => digit,
            None => {
                assert forall|n: u64| all != #[trigger] decimal(n as nat) by {
                    decimal_has_digits(n as nat);
                    assert(all[k@] == chars@[i as int]);
                }
                return None;
            },
        };
        if i > from && value == 0 {
            assert forall|n: u64| all != #[trigger] decimal(n as nat) by {
                decimal_has_no_leading_zero(n as nat);
                assert(all.take(k@)[0] == all[0]);
                assert(decimal(0)[0] == '0');
            }
            return None;
        }
        if value > (u64::MAX - digit) / 10 {
            assert forall|n: u64| all != #[trigger] decimal(n as nat) by {
                if all == decimal(n as nat) {
                    let m = decimal_prefix(n as nat, k@ + 1);
                    let big = (value * 10 + digit) as nat;
                    assert(big / 10 == value && big % 10 == digit);
                    assert(all.take(k@ + 1) =~= all.take(k@).push(chars@[i as int]));
                    assert(decimal(big) == decimal(value as nat).push(crate::text::digit(digit as nat)));
                    decimal_injective(m, big);
                }
            }
            return None;
        }
        proof {
            let next = (value * 10 + digit) as nat;
            assert(all.take(k@ + 1) =~= all.take(k@).push(chars@[i as int]));
            if i == from {
                assert(all.take(k@) =~= Seq::empty());
                assert(decimal(next) =~= all.take(k@ + 1));
            } else {
                assert(next / 10 == value && next % 10 == digit);
            }
        }
        value = value * 10 + digit;
        i += 1;
    }
    assert(all.take(i - from) =~= all);
    Some(value)
}

/// The text names a version of the tracefile format: a major number, and a minor one behind a dot if
/// there is one.
pub open spec fn names_version(text: Seq<char>, version: Version) -> bool {
    &&& version.patch == 0
    &&& version.pre@.len() == 0
    &&& version.build@.len() == 0
    &&& (text == decimal(version.major as nat) && version.minor == 0) || text == decimal(version.major as nat) + "."@
        + decimal(version.minor as nat)
}

/// Reads a version of the tracefile format.
pub fn parse_lcov_version(text: &str) -> (version: Option<Version>)
    ensures
        version is Some ==> names_version(text@, version->0),
        version is None ==> forall|v: Version| !(#[trigger] names_version(text@, v)),
{
    let chars = chars_of(text);
    proof {
        reveal_strlit(".");
    }
    let mut dot: usize = 0;
    while dot < chars.len() && chars[dot] != '.'
        invariant
            dot <= chars@.len(),
            forall|i: int| 0 <= i < dot ==> #[trigger] chars@[i] != '.',
        decreases chars@.len() - dot,
    {
        dot += 1;
    }
    assert forall|a: u64| #[trigger] decimal(a as nat) == text@ implies dot == chars@.len() by {
        decimal_has_digits(a as nat);
        if dot < chars@.len() {
            assert(is_digit(decimal(a as nat)[dot as int]));
        }
    }
    let major = match parse_number(&chars, 0, dot) {
        Some(major) => major,
        None => {
            assert forall|v: Version| !(#[trigger] names_version(text@, v)) by {
                if names_version(text@, v) {
                    let d = decimal(v.major as nat);
                    decimal_has_digits(v.major as nat);
                    if text@ == d {
                        assert(chars@.subrange(0, dot as int) =~= d);
                    } else {
                        dot_follows_major(text@, v.major as nat, v.minor as nat, dot as int);
                        assert(chars@.subrange(0, dot as int) =~= d);
                    }
                }
            }
            return None;
        },
    };
    if dot == chars.len() {
        let version = Version::new(major, 0, 0);
        assert(chars@.subrange(0, dot as int) =~= text@);
        return Some(version);
    }
    let minor = match parse_number(&chars, dot + 1, chars.len()) {
        Some(minor) => minor,
        None => {
            assert forall|v: Version| !(#[trigger] names_version(text@, v)) by {
                if names_version(text@, v) {
                    if text@ == decimal(v.major as nat) {
                    } else {
                        dot_follows_major(text@, v.major as nat, v.minor as nat, dot as int);
                        assert(chars@.subrange(dot + 1, chars@.len() as int) =~= decimal(v.minor as nat));
                    }
                }
            }
            return None;
        },
    };
    assert(text@ =~= decimal(major as nat) + "."@ + decimal(minor as nat)) by {
        assert(chars@.subrange(0, dot as int) == decimal(major as nat));
        assert(chars@.subrange(dot + 1, chars@.len() as int) == decimal(minor as nat));
        assert(text@ =~= chars@.subrange(0, dot as int) + "."@ + chars@.subrange(dot + 1, chars@.len() as int));
    }
    Some(Version::new(major, minor, 0))
}

proof fn dot_follows_major(text: Seq<char>, major: nat, minor: nat, dot: int)
    requires
        text == decimal(major) + "."@ + decimal(minor),
        0 <= dot <= text.len(),
        forall|i: int| 0 <= i < dot ==> #[trigger] text[i] != '.',
        dot < text.len() ==> text[dot] == '.',
    ensures
        dot == decimal(major).len(),
        dot < text.len(),
{
    reveal_strlit(".");
    decimal_has_digits(major);
    let n = decimal(major).len() as int;
    assert(text[n] == '.');
    if dot < n {
        assert(is_digit(decimal(major)[dot]));
        assert(text[dot] == decimal(major)[dot]);
    }
}

/// The text of a version's numbers names that version.
pub proof fn version_names_itself(version: Version)
    requires
        version.patch == 0,
        version.pre@.len() == 0,
        version.build@.len() == 0,
    ensures
        names_version(decimal(version.major as nat) + "."@ + decimal(version.minor as nat), version),
{
}

/// A text names at most one version.
pub proof fn named_version_is_unique(text: Seq<char>, a: Version, b: Version)
    requires
        names_version(text, a),
        names_version(text, b),
    ensures
        crate::version::same_version(a, b),
{
    reveal_strlit(".");
    decimal_has_digits(a.major as nat);
    decimal_has_digits(b.major as nat);
    let x = decimal(a.major as nat);
    let y = decimal(b.major as nat);
    if text == x && text == y {
        decimal_injective(a.major as nat, b.major as nat);
    } else if text == x {
        assert(text[y.len() as int] == '.');
        assert(is_digit(x[y.len() as int]));
    } else if text == y {
        assert(text[x.len() as int] == '.');
        assert(is_digit(y[x.len() as int]));
    } else {
        assert(text[x.len() as int] == '.' && text[y.len() as int] == '.');
        if x.len() < y.len() {
            assert(text[x.len() as int] == y[x.len() as int]);
            assert(is_digit(y[x.len() as int]));
        } else if y.len() < x.len() {
            assert(text[y.len() as int] == x[y.len() as int]);
            assert(is_digit(x[y.len() as int]));
        }
        assert(text.take(x.len() as int) =~= x);
        assert(text.take(y.len() as int) =~= y);
        decimal_injective(a.major as nat, b.major as nat);
        assert(text.skip(x.len() as int + 1) =~= decimal(a.minor as nat));
        assert(text.skip(y.len() as int + 1) =~= decimal(b.minor as nat));
        decimal_injective(a.minor as nat, b.minor as nat);
    }
    assert(a.pre@ =~= b.pre@);
    assert(a.build@ =~= b.build@);
}

}
